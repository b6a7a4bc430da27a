use vstd::prelude::*;
use crate::comments::{Bracket, bracket, bracket_of};
use crate::lines::{
    all_blank, indent_style, join_lines, lead, lead_count, lemma_lead_count, lemma_lines_short,
    line_is_blank, lines_of, lines_view, push_from, push_run, run_of, trimmed, determine_whitespace_type,
    split_lines, join, copy_line, lemma_indent_style_bound,
};

verus! {

/// Why a text cannot be handled.
#[derive(PartialEq, Eq, Structural, Clone, Copy, Debug)]
pub enum Problem {
    /// the file extension has no known line comment starter
    IncompatibleFileType,
    /// a `<>` comment with no open block before it
    MiddleClosedNothing,
    /// a `<` comment with no open block before it
    CloseClosedNothing,
    /// a block that is still open at the end of the text
    UnclosedComment,
}

/// An open block while formatting: the index of the line that opened it
/// (or last continued it with `<>`) and the indentation of that line.
#[derive(Clone, Copy)]
pub struct CommentDetail {
    pub line: usize,
    pub depth: usize,
}

/// The open blocks as (line, depth) pairs.
pub open spec fn marks(v: Seq<CommentDetail>) -> Seq<(nat, nat)> {
    v.map_values(|c: CommentDetail| (c.line as nat, c.depth as nat))
}

/// The formatter's state after some lines: the formatted lines so far and
/// the stack of open blocks.
pub struct FmtState {
    pub out: Seq<Seq<char>>,
    pub open: Seq<(nat, nat)>,
}

/// The smallest indentation, below `target`, of the non-blank lines of
/// `out` at the indices `from .. to`; `target` when there is none.
pub open spec fn lowest_lead(out: Seq<Seq<char>>, from: int, to: int, target: nat) -> nat
    decreases to - from,
{
    if to <= from {
        target
    } else {
        let r = lowest_lead(out, from, to - 1, target);
        let l = out[to - 1];
        if !all_blank(l) && lead_count(l) < r {
            lead_count(l)
        } else {
            r
        }
    }
}

/// The lines of a block (from `from` on) shifted right so that none is
/// indented less than `target`: every non-blank line gains the same number
/// of indentation characters `wc`, every blank line becomes empty. Nothing
/// changes when no line is indented less than `target`.
pub open spec fn reindent(out: Seq<Seq<char>>, from: int, target: nat, wc: char) -> Seq<Seq<char>> {
    let low = lowest_lead(out, from, out.len() as int, target);
    if low < target {
        Seq::new(
            out.len(),
            |j: int|
                if from <= j {
                    if all_blank(out[j]) {
                        Seq::<char>::empty()
                    } else {
                        run_of(wc, (target - low) as nat) + out[j]
                    }
                } else {
                    out[j]
                },
        )
    } else {
        out
    }
}

/// The line with its indentation replaced by `d` characters `wc`.
pub open spec fn with_indent(line: Seq<char>, d: nat, wc: char) -> Seq<char> {
    run_of(wc, d) + trimmed(line)
}

/// One formatting step: line `i` of the text.
pub open spec fn format_step(
    st: FmtState,
    line: Seq<char>,
    i: nat,
    cs: Seq<char>,
    wc: char,
    tab: nat,
) -> Result<FmtState, (nat, Problem)> {
    match bracket_of(line, cs) {
        Bracket::Open => Ok(
            FmtState { out: st.out.push(line), open: st.open.push((i, lead_count(line))) },
        ),
        Bracket::Middle => if st.open.len() == 0 {
            Err(((i + 1) as nat, Problem::MiddleClosedNothing))
        } else {
            let top = st.open.last();
            let out = reindent(st.out, top.0 + 1 as int, top.1 + tab, wc);
            Ok(
                FmtState {
                    out: out.push(with_indent(line, top.1, wc)),
                    open: st.open.update(st.open.len() - 1, (i, top.1)),
                },
            )
        },
        Bracket::Close => if st.open.len() == 0 {
            Err(((i + 1) as nat, Problem::CloseClosedNothing))
        } else {
            let top = st.open.last();
            let out = reindent(st.out, top.0 + 1 as int, top.1 + tab, wc);
            Ok(FmtState { out: out.push(with_indent(line, top.1, wc)), open: st.open.drop_last() })
        },
        Bracket::Plain => Ok(
            FmtState {
                out: st.out.push(
                    if all_blank(line) {
                        Seq::<char>::empty()
                    } else {
                        line
                    },
                ),
                open: st.open,
            },
        ),
    }
}

/// The formatter's state after the first `n` lines.
pub open spec fn format_prefix(
    ls: Seq<Seq<char>>,
    n: nat,
    cs: Seq<char>,
    wc: char,
    tab: nat,
) -> Result<FmtState, (nat, Problem)>
    decreases n,
{
    if n == 0 {
        Ok(FmtState { out: Seq::empty(), open: Seq::empty() })
    } else {
        match format_prefix(ls, (n - 1) as nat, cs, wc, tab) {
            Err(e) => Err(e),
            Ok(st) => format_step(st, ls[n - 1], (n - 1) as nat, cs, wc, tab),
        }
    }
}

/// The formatted lines of a text (or the first problem, with its line
/// number counted from 1), indenting as `indent_style` finds.
pub open spec fn format_lines(ls: Seq<Seq<char>>, cs: Seq<char>) -> Result<Seq<Seq<char>>, (nat, Problem)> {
    let (wc, tab) = indent_style(ls);
    match format_prefix(ls, ls.len(), cs, wc, tab) {
        Err(e) => Err(e),
        Ok(st) => if st.open.len() > 0 {
            Err(((st.open.last().0 + 1) as nat, Problem::UnclosedComment))
        } else {
            Ok(st.out)
        },
    }
}

/// A sequence without its last element, if it has one.
pub open spec fn drop_last_char(s: Seq<char>) -> Seq<char> {
    if s.len() > 0 {
        s.drop_last()
    } else {
        s
    }
}

/// The formatted text: the formatted lines, each ended by '\n' except that
/// the last one ends as the input's last line did (with or without '\n').
pub open spec fn format_text(s: Seq<char>, cs: Seq<char>) -> Result<Seq<char>, (nat, Problem)> {
    match format_lines(lines_of(s), cs) {
        Err(e) => Err(e),
        Ok(out) => Ok(
            if s.len() > 0 && s.last() != '\n' {
                drop_last_char(join_lines(out))
            } else {
                join_lines(out)
            },
        ),
    }
}

/// A problem stays the answer whatever lines follow.
pub proof fn lemma_format_prefix_err(ls: Seq<Seq<char>>, k: nat, m: nat, cs: Seq<char>, wc: char, tab: nat)
    requires
        k <= m,
        format_prefix(ls, k, cs, wc, tab) is Err,
    ensures
        format_prefix(ls, m, cs, wc, tab) == format_prefix(ls, k, cs, wc, tab),
    decreases m - k,
{
    if k < m {
        lemma_format_prefix_err(ls, k, (m - 1) as nat, cs, wc, tab);
    }
}

/// The line with its indentation replaced by `d` characters `wc`.
fn set_whitespace(line: &Vec<char>, d: usize, wc: char) -> (r: Vec<char>)
    ensures
        r@ == with_indent(line@, d as nat, wc),
{
    let k = lead(line);
    proof {
        lemma_lead_count(line@);
    }
    let mut r: Vec<char> = Vec::new();
    push_run(&mut r, wc, d);
    push_from(&mut r, line, k);
    r
}

/// Shifts the lines after the opening line of block `top` right so that
/// none is indented less than `top.depth + tab` (see `reindent`).
fn ensure_previous_lines_have_correct_whitespace(
    out: &mut Vec<Vec<char>>,
    top: CommentDetail,
    tab: usize,
    wc: char,
)
    requires
        top.line < old(out).len(),
        top.depth + tab <= usize::MAX,
    ensures
        lines_view(final(out)@) == reindent(lines_view(old(out)@), top.line + 1 as int, (top.depth + tab) as nat, wc),
{
    let ghost orig = lines_view(out@);
    let target = top.depth + tab;
    let start = top.line + 1;
    let n = out.len();
    let mut lowest = target;
    let mut i = start;
    while i < n
        invariant
            n == out.len(),
            orig == lines_view(out@),
            start <= i <= n,
            lowest == lowest_lead(orig, start as int, i as int, target as nat),
        decreases n - i,
    {
        let k = lead(&out[i]);
        proof {
            lemma_lead_count(out@[i as int]@);
        }
        if k < out[i].len() && k < lowest {
            lowest = k;
        }
        i = i + 1;
    }
    if lowest < target {
        let diff = target - lowest;
        let mut j = start;
        while j < n
            invariant
                n == out.len(),
                orig.len() == n,
                start <= j <= n,
                diff == target - lowest_lead(orig, start as int, n as int, target as nat),
                lines_view(out@) == Seq::new(
                    n as nat,
                    |x: int|
                        if start <= x < j {
                            if all_blank(orig[x]) {
                                Seq::<char>::empty()
                            } else {
                                run_of(wc, diff as nat) + orig[x]
                            }
                        } else {
                            orig[x]
                        },
                ),
            decreases n - j,
        {
            let ghost before = lines_view(out@);
            assert(before[j as int] == orig[j as int]);
            let new_line = if line_is_blank(&out[j]) {
                Vec::new()
            } else {
                let mut nl: Vec<char> = Vec::new();
                push_run(&mut nl, wc, diff);
                push_from(&mut nl, &out[j], 0);
                assert(out@[j as int]@.skip(0) == out@[j as int]@);
                nl
            };
            assert(new_line@ == (if all_blank(orig[j as int]) {
                Seq::<char>::empty()
            } else {
                run_of(wc, diff as nat) + orig[j as int]
            }));
            out.set(j, new_line);
            assert(lines_view(out@) =~= before.update(j as int, new_line@));
            j = j + 1;
            assert(lines_view(out@) =~= Seq::new(
                n as nat,
                |x: int|
                    if start <= x < j {
                        if all_blank(orig[x]) {
                            Seq::<char>::empty()
                        } else {
                            run_of(wc, diff as nat) + orig[x]
                        }
                    } else {
                        orig[x]
                    },
            ));
        }
        assert(lines_view(out@) =~= reindent(orig, start as int, target as nat, wc));
    }
}


/// Formats a text (see `format_text`) whose lines are commented with `cs`.
pub fn format_chars(s: &Vec<char>, cs: &Vec<char>) -> (r: Result<Vec<char>, (usize, Problem)>)
    requires
        s.len() <= isize::MAX,
    ensures
        r is Ok <==> format_text(s@, cs@) is Ok,
        r matches Ok(o) ==> format_text(s@, cs@) == Ok::<Seq<char>, (nat, Problem)>(o@),
        r matches Err(e) ==> format_text(s@, cs@) == Err::<Seq<char>, (nat, Problem)>((e.0 as nat, e.1)),
{
    let ls = split_lines(s);
    let ghost all = lines_view(ls@);
    proof {
        lemma_lines_short(s@);
        lemma_indent_style_bound(all, if s.len() >= 4 { s.len() as nat } else { 4 });
    }
    let (wc, tab) = determine_whitespace_type(&ls);
    let mut out: Vec<Vec<char>> = Vec::new();
    let mut tracker: Vec<CommentDetail> = Vec::new();
    let n = ls.len();
    assert(lines_view(out@) =~= Seq::<Seq<char>>::empty());
    assert(marks(tracker@) =~= Seq::<(nat, nat)>::empty());
    for i in 0..n
        invariant
            n == ls.len(),
            all == lines_view(ls@),
            all == lines_of(s@),
            s.len() <= isize::MAX,
            forall|k: int| 0 <= k < all.len() ==> (#[trigger] all[k]).len() <= s.len(),
            tab <= s.len() || tab <= 4,
            (wc, tab as nat) == indent_style(all),
            format_prefix(all, i as nat, cs@, wc, tab as nat) == Ok::<FmtState, (nat, Problem)>(
                FmtState { out: lines_view(out@), open: marks(tracker@) },
            ),
            out.len() == i,
            forall|k: int|
                0 <= k < tracker.len() ==> (#[trigger] tracker@[k]).line < i && tracker@[k].depth
                    <= s.len(),
    {
        let line = &ls[i];
        assert(line@ == all[i as int]);
        let ghost st = FmtState { out: lines_view(out@), open: marks(tracker@) };
        let ghost before_out = out@;
        let ghost before_tr = tracker@;
        match bracket(line, cs) {
            Bracket::Open => {
                let d = lead(line);
                proof {
                    lemma_lead_count(line@);
                }
                tracker.push(CommentDetail { line: i, depth: d });
                out.push(copy_line(line));
                assert(lines_view(out@) =~= st.out.push(line@));
                assert(marks(tracker@) =~= st.open.push((i as nat, lead_count(line@))));
            },
            Bracket::Middle => {
                if tracker.len() == 0 {
                    proof {
                        lemma_format_prefix_err(all, (i + 1) as nat, n as nat, cs@, wc, tab as nat);
                    }
                    return Err((i + 1, Problem::MiddleClosedNothing));
                }
                let last = tracker.len() - 1;
                let top = tracker[last];
                assert(tracker@[last as int].depth <= s.len());
                assert(st.open.last() == (top.line as nat, top.depth as nat));
                ensure_previous_lines_have_correct_whitespace(&mut out, top, tab, wc);
                let nl = set_whitespace(line, top.depth, wc);
                out.push(nl);
                tracker.set(last, CommentDetail { line: i, depth: top.depth });
                assert(marks(tracker@) =~= st.open.update(st.open.len() - 1, (i as nat, top.depth as nat)));
                assert(lines_view(out@) =~= reindent(st.out, top.line + 1 as int, (top.depth + tab) as nat, wc).push(
                    with_indent(line@, top.depth as nat, wc)));
            },
            Bracket::Close => {
                if tracker.len() == 0 {
                    proof {
                        lemma_format_prefix_err(all, (i + 1) as nat, n as nat, cs@, wc, tab as nat);
                    }
                    return Err((i + 1, Problem::CloseClosedNothing));
                }
                let last = tracker.len() - 1;
                let top = tracker[last];
                assert(tracker@[last as int].depth <= s.len());
                assert(st.open.last() == (top.line as nat, top.depth as nat));
                ensure_previous_lines_have_correct_whitespace(&mut out, top, tab, wc);
                let nl = set_whitespace(line, top.depth, wc);
                out.push(nl);
                tracker.pop();
                assert(marks(tracker@) =~= st.open.drop_last());
                assert(lines_view(out@) =~= reindent(st.out, top.line + 1 as int, (top.depth + tab) as nat, wc).push(
                    with_indent(line@, top.depth as nat, wc)));
            },
            Bracket::Plain => {
                let nl = if line_is_blank(line) {
                    Vec::new()
                } else {
                    copy_line(line)
                };
                out.push(nl);
                assert(lines_view(out@) =~= st.out.push(
                    if all_blank(line@) {
                        Seq::<char>::empty()
                    } else {
                        line@
                    },
                ));
            },
        }
    }
    if tracker.len() > 0 {
        let top = tracker[tracker.len() - 1];
        return Err((top.line + 1, Problem::UnclosedComment));
    }
    let mut text = join(&out);
    if s.len() > 0 && s[s.len() - 1] != '\n' {
        text.pop();
    }
    Ok(text)
}

} // verus!
