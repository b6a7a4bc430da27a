use vstd::prelude::*;
use crate::balance::{all_no_line_feed, lemma_blank_plain, lemma_indent_char, lemma_lines_no_line_feed, lemma_lines_of_join, lemma_pieces_append, lemma_strip_cr_bracket, no_line_feed, starter_ok};
use crate::brackets::{remove_text, unbracket_line, unbracket_lines};
use crate::comments::{Bracket, bracket_of, comment_text, comment_text_start, is_comment};
use crate::format::{Problem, format_lines, format_prefix, format_step, format_text, lowest_lead, reindent, with_indent};
use crate::laws::{format_only_changes_indentation, lemma_indent_prefix, same_text};
use crate::lines::{all_blank, indent_style, is_blank, join_lines, lead_count, lemma_lead_count, lemma_lead_count_is, lemma_lines_short, lines_of, pieces, run_of, starts_with, strip_cr, trimmed};

verus! {

/// A line's role and comment text depend only on what follows its
/// indentation.
proof fn lemma_bracket_by_trimmed(a: Seq<char>, b: Seq<char>, cs: Seq<char>)
    requires
        trimmed(a) == trimmed(b),
    ensures
        bracket_of(a, cs) == bracket_of(b, cs),
        is_comment(a, cs) ==> comment_text(a, cs) == comment_text(b, cs),
{
    lemma_lead_count(a);
    lemma_lead_count(b);
    if is_comment(a, cs) {
        let t = trimmed(a);
        let k = (comment_text_start(a, cs) - lead_count(a)) as int;
        assert(k == comment_text_start(b, cs) - lead_count(b));
        assert(k <= t.len()) by {
            if starts_with(t, cs.push(' ')) {
            }
        }
        assert(comment_text(a, cs) =~= t.skip(k));
        assert(comment_text(b, cs) =~= t.skip(k));
    }
}

/// A run of a character that is no line feed holds no line feed.
proof fn lemma_run_no_line_feed(c: char, d: nat, x: Seq<char>)
    requires
        c != '\n',
        no_line_feed(x),
    ensures
        no_line_feed(run_of(c, d) + x),
{
    let y = run_of(c, d) + x;
    assert forall|i: int| 0 <= i < y.len() implies #[trigger] y[i] != '\n' by {
        if i >= d {
            assert(y[i] == x[i - d]);
        }
    }
}

proof fn lemma_skip_no_line_feed(x: Seq<char>, k: int)
    requires
        no_line_feed(x),
        0 <= k <= x.len(),
    ensures
        no_line_feed(x.skip(k)),
{
    assert forall|i: int| 0 <= i < x.skip(k).len() implies #[trigger] x.skip(k)[i] != '\n' by {
        assert(x.skip(k)[i] == x[k + i]);
    }
}

proof fn lemma_reindent_no_line_feed(out: Seq<Seq<char>>, from: int, target: nat, wc: char)
    requires
        wc != '\n',
        all_no_line_feed(out),
    ensures
        all_no_line_feed(reindent(out, from, target, wc)),
{
    let r = reindent(out, from, target, wc);
    let low = lowest_lead(out, from, out.len() as int, target);
    assert forall|j: int| 0 <= j < r.len() implies no_line_feed(#[trigger] r[j]) by {
        if low < target && from <= j && !all_blank(out[j]) {
            lemma_run_no_line_feed(wc, (target - low) as nat, out[j]);
        }
    }
}

/// Formatting puts no line feed into a line.
proof fn lemma_format_prefix_no_line_feed(ls: Seq<Seq<char>>, n: nat, cs: Seq<char>, wc: char, tab: nat)
    requires
        n <= ls.len(),
        wc != '\n',
        all_no_line_feed(ls),
    ensures
        format_prefix(ls, n, cs, wc, tab) matches Ok(st) ==> all_no_line_feed(st.out),
    decreases n,
{
    if n > 0 {
        lemma_format_prefix_no_line_feed(ls, (n - 1) as nat, cs, wc, tab);
        if let Ok(st) = format_prefix(ls, (n - 1) as nat, cs, wc, tab) {
            let line = ls[n - 1];
            assert(no_line_feed(line));
            if let Ok(st2) = format_step(st, line, (n - 1) as nat, cs, wc, tab) {
                let b = bracket_of(line, cs);
                let out1 = if b == Bracket::Middle || b == Bracket::Close {
                    let top = st.open.last();
                    lemma_reindent_no_line_feed(st.out, top.0 + 1 as int, top.1 + tab, wc);
                    lemma_lead_count(line);
                    lemma_skip_no_line_feed(line, lead_count(line) as int);
                    lemma_run_no_line_feed(wc, top.1, trimmed(line));
                    assert(with_indent(line, top.1, wc) == run_of(wc, top.1) + trimmed(line));
                    reindent(st.out, top.0 + 1 as int, top.1 + tab, wc)
                } else {
                    st.out
                };
                assert(st2.out == out1.push(st2.out.last()));
                assert(no_line_feed(st2.out.last()));
                assert forall|i: int| 0 <= i < st2.out.len() implies no_line_feed(#[trigger] st2.out[i]) by {
                    if i < out1.len() {
                        assert(st2.out[i] == out1[i]);
                    }
                }
            }
        }
    }
}


/// What is left of a line once its bracket is removed, indentation aside:
/// a `>` or `<>` comment loses that bracket (and a space right after the
/// comment starter), a closing comment is dropped (`None`), a blank line is
/// empty and any other line is kept.
pub open spec fn bare_text(l: Seq<char>, cs: Seq<char>) -> Option<Seq<char>> {
    match bracket_of(l, cs) {
        Bracket::Open => Some(cs + comment_text(l, cs).skip(1)),
        Bracket::Middle => Some(cs + comment_text(l, cs).skip(2)),
        Bracket::Close => None,
        Bracket::Plain => Some(
            if all_blank(l) {
                Seq::<char>::empty()
            } else {
                trimmed(l)
            },
        ),
    }
}

/// `bare_text` of every line, the dropped ones left out.
pub open spec fn bare_lines(ls: Seq<Seq<char>>, cs: Seq<char>) -> Seq<Seq<char>>
    decreases ls.len(),
{
    if ls.len() == 0 {
        Seq::empty()
    } else {
        let r = bare_lines(ls.drop_last(), cs);
        match bare_text(ls.last(), cs) {
            Some(l) => r.push(l),
            None => r,
        }
    }
}

/// `after` is `text` indented: empty when `text` is empty, otherwise a
/// non-blank line with `text` after its indentation.
pub open spec fn indented_as(after: Seq<char>, text: Seq<char>) -> bool {
    if text.len() == 0 {
        after == Seq::<char>::empty()
    } else {
        !all_blank(after) && trimmed(after) == text
    }
}

/// Line by line, `after` is `texts` indented.
pub open spec fn indented_lines(after: Seq<Seq<char>>, texts: Seq<Seq<char>>) -> bool {
    &&& after.len() == texts.len()
    &&& forall|i: int| 0 <= i < after.len() ==> indented_as(#[trigger] after[i], texts[i])
}

/// Both drop the line, or both keep it, `u` as `b` indented.
pub open spec fn agrees(u: Option<Seq<char>>, b: Option<Seq<char>>) -> bool {
    match (u, b) {
        (None, None) => true,
        (Some(x), Some(y)) => indented_as(x, y),
        _ => false,
    }
}

/// The comment starter followed by anything is its own text after the
/// indentation, and indenting it keeps that text.
pub proof fn lemma_starter_text(cs: Seq<char>, rest: Seq<char>, wc: char, d: nat)
    requires
        starter_ok(cs),
        is_blank(wc),
    ensures
        indented_as(run_of(wc, d) + cs + rest, cs + rest),
{
    let x = cs + rest;
    assert(x[0] == cs[0]);
    lemma_lead_count_is(x, 0);
    assert(x.skip(0) =~= x);
    lemma_indent_prefix(wc, d, x);
    assert(run_of(wc, d) + cs + rest =~= run_of(wc, d) + x);
}

/// A line of the input, formatted (`f`) and read back (`g`), agrees with
/// its bare text once its bracket is removed.
proof fn lemma_line_agrees(l: Seq<char>, f: Seq<char>, g: Seq<char>, cs: Seq<char>, wc: char)
    requires
        starter_ok(cs),
        is_blank(wc),
        same_text(l, f),
        g == f || (g == strip_cr(f) && (all_blank(l) || strip_cr(l) == l || bracket_of(l, cs) == Bracket::Close)),
    ensures
        agrees(unbracket_line(g, cs, wc), bare_text(l, cs)),
{
    if all_blank(l) {
        lemma_blank_plain(l, cs);
        lemma_blank_plain(g, cs);
    } else {
        lemma_lead_count(l);
        lemma_lead_count(f);
        lemma_bracket_by_trimmed(f, l, cs);
        if g != f {
            assert(trimmed(f).last() == f.last());
            assert(trimmed(l).last() == l.last());
            lemma_strip_cr_bracket(f, cs);
        } else {
            match bracket_of(l, cs) {
                Bracket::Open => {
                    lemma_starter_text(cs, comment_text(l, cs).skip(1), wc, lead_count(f));
                },
                Bracket::Middle => {
                    lemma_starter_text(cs, comment_text(l, cs).skip(2), wc, lead_count(f));
                },
                Bracket::Close => {},
                Bracket::Plain => {},
            }
        }
    }
}

/// Lines that agree one by one give indented lists.
proof fn lemma_lines_agree(gs: Seq<Seq<char>>, ls: Seq<Seq<char>>, cs: Seq<char>, wc: char)
    requires
        gs.len() == ls.len(),
        forall|i: int| 0 <= i < gs.len() ==> agrees(unbracket_line(#[trigger] gs[i], cs, wc), bare_text(ls[i], cs)),
    ensures
        indented_lines(unbracket_lines(gs, cs, wc), bare_lines(ls, cs)),
    decreases gs.len(),
{
    if gs.len() > 0 {
        let g0 = gs.drop_last();
        let l0 = ls.drop_last();
        assert forall|i: int| 0 <= i < g0.len() implies agrees(unbracket_line(#[trigger] g0[i], cs, wc), bare_text(l0[i], cs)) by {
            assert(g0[i] == gs[i]);
            assert(l0[i] == ls[i]);
        }
        lemma_lines_agree(g0, l0, cs, wc);
        assert(agrees(unbracket_line(gs[gs.len() - 1], cs, wc), bare_text(ls[ls.len() - 1], cs)));
        let u = unbracket_lines(g0, cs, wc);
        let b = bare_lines(l0, cs);
        if let Some(x) = unbracket_line(gs.last(), cs, wc) {
            let y = bare_text(ls.last(), cs)->Some_0;
            assert forall|i: int| 0 <= i < u.push(x).len() implies indented_as(#[trigger] u.push(x)[i], b.push(y)[i]) by {
                if i < u.len() {
                    assert(u.push(x)[i] == u[i]);
                    assert(b.push(y)[i] == b[i]);
                }
            }
        }
    }
}

/// Removing brackets puts no line feed into a line.
pub proof fn lemma_unbracket_no_line_feed(gs: Seq<Seq<char>>, cs: Seq<char>, wc: char)
    requires
        starter_ok(cs),
        wc == ' ' || wc == '\t',
        all_no_line_feed(gs),
    ensures
        all_no_line_feed(unbracket_lines(gs, cs, wc)),
    decreases gs.len(),
{
    if gs.len() > 0 {
        let g0 = gs.drop_last();
        assert forall|i: int| 0 <= i < g0.len() implies no_line_feed(#[trigger] g0[i]) by {
            assert(g0[i] == gs[i]);
        }
        lemma_unbracket_no_line_feed(g0, cs, wc);
        let g = gs.last();
        assert(no_line_feed(gs[gs.len() - 1]));
        assert(no_line_feed(cs)) by {
            assert forall|i: int| 0 <= i < cs.len() implies #[trigger] cs[i] != '\n' by {
                assert(!is_blank(cs[i]));
            }
        }
        let u = unbracket_lines(g0, cs, wc);
        if let Some(x) = unbracket_line(g, cs, wc) {
            if bracket_of(g, cs) == Bracket::Open || bracket_of(g, cs) == Bracket::Middle {
                let k: int = if bracket_of(g, cs) == Bracket::Open { 1 } else { 2 };
                let ct = comment_text(g, cs);
                lemma_lead_count(g);
                assert(comment_text_start(g, cs) <= g.len()) by {
                    if starts_with(trimmed(g), cs.push(' ')) {
                    }
                }
                lemma_skip_no_line_feed(g, comment_text_start(g, cs) as int);
                assert(starts_with(ct, seq!['>']) || starts_with(ct, seq!['<', '>']));
                lemma_skip_no_line_feed(ct, k);
                assert(no_line_feed(cs + ct.skip(k))) by {
                    let y = cs + ct.skip(k);
                    assert forall|i: int| 0 <= i < y.len() implies #[trigger] y[i] != '\n' by {
                        if i >= cs.len() {
                            assert(y[i] == ct.skip(k)[i - cs.len()]);
                        } else {
                            assert(y[i] == cs[i]);
                        }
                    }
                }
                lemma_run_no_line_feed(wc, lead_count(g), cs + ct.skip(k));
                assert(x =~= run_of(wc, lead_count(g)) + (cs + ct.skip(k)));
            }
            assert(no_line_feed(x));
            assert forall|i: int| 0 <= i < u.push(x).len() implies no_line_feed(#[trigger] u.push(x)[i]) by {
                if i < u.len() {
                    assert(u.push(x)[i] == u[i]);
                }
            }
        }
    }
}


/// A text written out without its final '\n' reads back as its lines, all
/// but the last without a final '\r', and an empty last line gone.
proof fn lemma_lines_of_unended(a: Seq<Seq<char>>)
    requires
        a.len() > 0,
        all_no_line_feed(a),
    ensures
        ({
            let a0 = a.drop_last();
            let ended = a0.map_values(|l: Seq<char>| strip_cr(l));
            lines_of(join_lines(a0) + a.last()) == if a.last().len() == 0 {
                ended
            } else {
                ended.push(a.last())
            }
        }),
{
    let a0 = a.drop_last();
    assert forall|i: int| 0 <= i < a0.len() implies no_line_feed(#[trigger] a0[i]) by {
        assert(a0[i] == a[i]);
    }
    lemma_lines_of_join(a0);
    assert(no_line_feed(a[a.len() - 1]));
    lemma_pieces_append(join_lines(a0), a.last());
    let p = a0.push(Seq::<char>::empty());
    assert(p.update(p.len() - 1, p.last() + a.last()) =~= a);
    assert(pieces(join_lines(a0) + a.last()) == a);
}

/// The lines of a text that formatting keeps: all of them, but for a
/// blank last line that no '\n' ends.
pub open spec fn lines_kept(s: Seq<char>) -> Seq<Seq<char>> {
    let ls = lines_of(s);
    if s.len() > 0 && s.last() != '\n' && all_blank(ls.last()) {
        ls.drop_last()
    } else {
        ls
    }
}

/// Removing brackets changes nothing but brackets and indentation: on
/// success the output is lines, each ended by '\n', that are the input's
/// lines with closing comments dropped, the `>` or `<>` bracket (and a
/// space right after the comment starter) taken out of the comments that
/// have one and blank lines emptied; no other line is added or dropped
/// (empty lines at the end are kept; a blank last line that no '\n' ends
/// is dropped, as formatting drops it), and every other line keeps its
/// text after the indentation. This holds when the comment starter is
/// non-blank, as every supported file type's is, and no line of the input
/// that is kept and non-blank ends with a '\r' that a '\n' follows (such a
/// '\r' is lost when the formatted text is read back).
pub proof fn remove_brackets_only_removes_brackets(s: Seq<char>, cs: Seq<char>)
    requires
        starter_ok(cs),
        remove_text(s, cs) is Ok,
        forall|i: int|
            0 <= i < lines_of(s).len() && (i + 1 < lines_of(s).len() || s.last() == '\n') && !all_blank(
                lines_of(s)[i],
            ) && bracket_of(lines_of(s)[i], cs) != Bracket::Close ==> strip_cr(#[trigger] lines_of(s)[i])
                == lines_of(s)[i],
    ensures
        exists|r: Seq<Seq<char>>|
            #![trigger join_lines(r)]
            remove_text(s, cs) == Ok::<Seq<char>, (nat, Problem)>(join_lines(r)) && all_no_line_feed(r)
                && indented_lines(r, bare_lines(lines_kept(s), cs)),
{
    let ls = lines_of(s);
    let (wc, tab) = indent_style(ls);
    format_only_changes_indentation(s, cs);
    let fl = format_lines(ls, cs)->Ok_0;
    lemma_lines_no_line_feed(s);
    lemma_indent_char(ls);
    lemma_format_prefix_no_line_feed(ls, ls.len(), cs, wc, tab);
    assert(all_no_line_feed(fl));
    lemma_lines_of_join(fl);
    lemma_lines_short(s);
    let f = format_text(s, cs)->Ok_0;
    let g = lines_of(f);
    let wc2 = indent_style(g).0;
    lemma_indent_char(g);
    lemma_lines_no_line_feed(f);
    let n = ls.len() as int;
    // the input lines that meet a line read back from the formatted text
    let l = if s.len() > 0 && s.last() != '\n' && fl.last().len() == 0 {
        ls.drop_last()
    } else {
        ls
    };
    if s.len() > 0 && s.last() != '\n' {
        assert(join_lines(fl) == join_lines(fl.drop_last()) + fl.last() + seq!['\n']);
        assert((join_lines(fl.drop_last()) + fl.last() + seq!['\n']).drop_last() =~= join_lines(fl.drop_last())
            + fl.last());
        lemma_lines_of_unended(fl);
    }
    assert(g.len() == l.len());
    assert forall|i: int| 0 <= i < g.len() implies agrees(unbracket_line(#[trigger] g[i], cs, wc2), bare_text(l[i], cs)) by {
        assert(l[i] == ls[i]);
        assert(same_text(ls[i], fl[i]));
        lemma_line_agrees(ls[i], fl[i], g[i], cs, wc2);
    }
    lemma_lines_agree(g, l, cs, wc2);
    let u = unbracket_lines(g, cs, wc2);
    if s.len() > 0 {
        assert(same_text(ls[n - 1], fl[n - 1]));
        assert(l == lines_kept(s));
    }
    lemma_unbracket_no_line_feed(g, cs, wc2);
    assert(remove_text(s, cs) == Ok::<Seq<char>, (nat, Problem)>(join_lines(u)));
}

} // verus!
