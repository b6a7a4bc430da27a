use vstd::prelude::*;
use crate::comments::{Bracket, bracket_of};
use crate::format::{FmtState, format_lines, format_prefix, format_step, lowest_lead, reindent, with_indent};
use crate::laws::{lemma_indent_prefix, lemma_trimmed_trimmed, lemma_bracket_not_blank, lemma_indent_style_blank};
use crate::lines::{all_blank, indent_style, is_blank, lead_count, lines_of, trimmed};

verus! {

/// The blocks of a text as its bracket comments delimit them: the lines of
/// the blocks still open, and the (opening line, closing line) pairs of the
/// blocks closed. A `<>` comment closes one block and opens the next.
pub struct Blocks {
    pub open: Seq<nat>,
    pub closed: Seq<(nat, nat)>,
}

pub open spec fn blocks_step(b: Blocks, line: Seq<char>, i: nat, cs: Seq<char>) -> Blocks {
    match bracket_of(line, cs) {
        Bracket::Open => Blocks { open: b.open.push(i), closed: b.closed },
        Bracket::Middle => if b.open.len() == 0 {
            b
        } else {
            Blocks { open: b.open.update(b.open.len() - 1, i), closed: b.closed.push((b.open.last(), i)) }
        },
        Bracket::Close => if b.open.len() == 0 {
            b
        } else {
            Blocks { open: b.open.drop_last(), closed: b.closed.push((b.open.last(), i)) }
        },
        Bracket::Plain => b,
    }
}

/// The blocks of the first `n` lines.
pub open spec fn blocks(ls: Seq<Seq<char>>, n: nat, cs: Seq<char>) -> Blocks
    decreases n,
{
    if n == 0 {
        Blocks { open: Seq::empty(), closed: Seq::empty() }
    } else {
        blocks_step(blocks(ls, (n - 1) as nat, cs), ls[n - 1], (n - 1) as nat, cs)
    }
}

/// In `out`, the block from line `i` to line `j` is laid out as it should
/// be: its closing comment is indented as its opening one, and each
/// non-blank line inside is indented at least `tab` deeper.
pub open spec fn block_indented(out: Seq<Seq<char>>, i: nat, j: nat, tab: nat) -> bool {
    &&& i < j < out.len()
    &&& !all_blank(out[i as int])
    &&& !all_blank(out[j as int])
    &&& lead_count(out[j as int]) == lead_count(out[i as int])
    &&& forall|k: int|
        i < k < j && !all_blank(#[trigger] out[k]) ==> lead_count(out[k]) >= lead_count(out[i as int]) + tab
}

/// What holds of the formatter's state after `n` lines.
spec fn state_matches_blocks(st: FmtState, b: Blocks, n: nat, tab: nat) -> bool {
    &&& st.out.len() == n
    &&& st.open.len() == b.open.len()
    &&& forall|k: int| 0 <= k < b.open.len() ==> (#[trigger] st.open[k]).0 == b.open[k]
    &&& forall|k: int|
        0 <= k < st.open.len() ==> {
            let m = #[trigger] st.open[k];
            &&& m.0 < n
            &&& !all_blank(st.out[m.0 as int])
            &&& lead_count(st.out[m.0 as int]) == m.1
        }
    &&& forall|k1: int, k2: int| 0 <= k1 < k2 < b.open.len() ==> b.open[k1] < b.open[k2]
    &&& forall|p: int| 0 <= p < b.closed.len() ==> {
            let c = #[trigger] b.closed[p];
            block_indented(st.out, c.0, c.1, tab)
        }
    &&& forall|p: int, k: int|
        0 <= p < b.closed.len() && 0 <= k < b.open.len() ==> (#[trigger] b.closed[p]).1 <= #[trigger] b.open[k]
            || b.closed[p].0 > b.open[k]
}

/// Lines before `from` stay; the others shift right by one amount, blank
/// ones staying blank, and none ends up indented less than `target`.
proof fn lemma_reindent_shift(out: Seq<Seq<char>>, from: int, target: nat, wc: char)
    requires
        is_blank(wc),
        0 <= from,
    ensures
        ({
            let r = reindent(out, from, target, wc);
            let low = lowest_lead(out, from, out.len() as int, target);
            let shift: nat = if low < target { (target - low) as nat } else { 0 };
            &&& r.len() == out.len()
            &&& forall|j: int| 0 <= j < from && j < out.len() ==> #[trigger] r[j] == out[j]
            &&& forall|j: int|
                from <= j < out.len() ==> (all_blank(#[trigger] r[j]) <==> all_blank(out[j]))
            &&& forall|j: int|
                from <= j < out.len() && !all_blank(out[j]) ==> lead_count(#[trigger] r[j]) == lead_count(out[j])
                    + shift && lead_count(r[j]) >= target
        }),
{
    let r = reindent(out, from, target, wc);
    let low = lowest_lead(out, from, out.len() as int, target);
    let shift: nat = if low < target { (target - low) as nat } else { 0 };
    lemma_lowest_lead(out, from, out.len() as int, target);
    assert forall|j: int| from <= j < out.len() implies (all_blank(#[trigger] r[j]) <==> all_blank(out[j])) by {
        if low < target && !all_blank(out[j]) {
            lemma_indent_prefix(wc, shift, out[j]);
        }
    }
    assert forall|j: int| from <= j < out.len() && !all_blank(out[j]) implies lead_count(#[trigger] r[j])
        == lead_count(out[j]) + shift && lead_count(r[j]) >= target by {
        if low < target {
            lemma_indent_prefix(wc, shift, out[j]);
        }
    }
}

proof fn lemma_lowest_lead(out: Seq<Seq<char>>, from: int, to: int, target: nat)
    ensures
        lowest_lead(out, from, to, target) <= target,
        forall|j: int| from <= j < to && !all_blank(#[trigger] out[j]) ==> lowest_lead(out, from, to, target) <= lead_count(out[j]),
        lowest_lead(out, from, to, target) >= target || exists|j: int| from <= j < to && !all_blank(#[trigger] out[j]) && lowest_lead(out, from, to, target) == lead_count(out[j]),
    decreases to - from,
{
    if to > from {
        lemma_lowest_lead(out, from, to - 1, target);
    }
}

proof fn lemma_blocks_step(
    ls: Seq<Seq<char>>,
    n: nat,
    cs: Seq<char>,
    wc: char,
    tab: nat,
)
    requires
        n < ls.len(),
        is_blank(wc),
        format_prefix(ls, n, cs, wc, tab) is Ok,
        state_matches_blocks(format_prefix(ls, n, cs, wc, tab)->Ok_0, blocks(ls, n, cs), n, tab),
    ensures
        format_prefix(ls, (n + 1) as nat, cs, wc, tab) is Ok ==> state_matches_blocks(
            format_prefix(ls, (n + 1) as nat, cs, wc, tab)->Ok_0,
            blocks(ls, (n + 1) as nat, cs),
            (n + 1) as nat,
            tab,
        ),
{
    let st = format_prefix(ls, n, cs, wc, tab)->Ok_0;
    let b = blocks(ls, n, cs);
    let line = ls[n as int];
    assert(format_prefix(ls, (n + 1) as nat, cs, wc, tab) == format_step(st, line, n, cs, wc, tab));
    assert(blocks(ls, (n + 1) as nat, cs) == blocks_step(b, line, n, cs));
    let kind = bracket_of(line, cs);
    if let Ok(st2) = format_step(st, line, n, cs, wc, tab) {
        let b2 = blocks_step(b, line, n, cs);
        if kind != Bracket::Plain {
            lemma_bracket_not_blank(line, cs);
        }
        match kind {
            Bracket::Open => {
                assert(st2.out == st.out.push(line));
                assert forall|k: int| 0 <= k < st2.open.len() implies ({
                    let m = #[trigger] st2.open[k];
                    &&& m.0 < n + 1
                    &&& !all_blank(st2.out[m.0 as int])
                    &&& lead_count(st2.out[m.0 as int]) == m.1
                }) by {
                    if k < st.open.len() {
                        assert(st2.open[k] == st.open[k]);
                    }
                }
                assert forall|p: int| 0 <= p < b2.closed.len() implies ({
                    let c = #[trigger] b2.closed[p];
                    block_indented(st2.out, c.0, c.1, tab)
                }) by {
                    let c = b.closed[p];
                    assert(block_indented(st.out, c.0, c.1, tab));
                    assert forall|k: int| c.0 < k < c.1 && !all_blank(#[trigger] st2.out[k]) implies lead_count(st2.out[k])
                        >= lead_count(st2.out[c.0 as int]) + tab by {
                        assert(st2.out[k] == st.out[k]);
                    }
                }
                assert forall|p: int, k: int|
                    0 <= p < b2.closed.len() && 0 <= k < b2.open.len() implies (#[trigger] b2.closed[p]).1
                        <= #[trigger] b2.open[k] || b2.closed[p].0 > b2.open[k] by {
                    assert(block_indented(st.out, b.closed[p].0, b.closed[p].1, tab));
                }
            },
            Bracket::Plain => {
                assert forall|k: int| 0 <= k < st2.open.len() implies ({
                    let m = #[trigger] st2.open[k];
                    &&& m.0 < n + 1
                    &&& !all_blank(st2.out[m.0 as int])
                    &&& lead_count(st2.out[m.0 as int]) == m.1
                }) by {
                    assert(st2.out[st.open[k].0 as int] == st.out[st.open[k].0 as int]);
                }
                assert forall|p: int| 0 <= p < b2.closed.len() implies ({
                    let c = #[trigger] b2.closed[p];
                    block_indented(st2.out, c.0, c.1, tab)
                }) by {
                    let c = b.closed[p];
                    assert(block_indented(st.out, c.0, c.1, tab));
                    assert forall|k: int| c.0 < k < c.1 && !all_blank(#[trigger] st2.out[k]) implies lead_count(st2.out[k])
                        >= lead_count(st2.out[c.0 as int]) + tab by {
                        assert(st2.out[k] == st.out[k]);
                    }
                }
            },
            _ => {
                let top = st.open.last();
                let t = top.0;
                let kt = (st.open.len() - 1) as int;
                assert(st.open[kt] == top);
                assert(b.open[kt] == t);
                let target = top.1 + tab;
                let r = reindent(st.out, t + 1 as int, target, wc);
                lemma_reindent_shift(st.out, t + 1 as int, target, wc);
                let low = lowest_lead(st.out, t + 1 as int, st.out.len() as int, target);
                let shift: nat = if low < target { (target - low) as nat } else { 0 };
                lemma_trimmed_trimmed(line);
                lemma_indent_prefix(wc, top.1, trimmed(line));
                let nl = with_indent(line, top.1, wc);
                assert(st2.out == r.push(nl));
                assert(lead_count(nl) == top.1 + lead_count(trimmed(line)));
                assert(lead_count(trimmed(line)) == 0) by {
                    crate::lines::lemma_lead_count(line);
                    crate::lines::lemma_lead_count(trimmed(line));
                    assert(trimmed(line)[0] == line[lead_count(line) as int]);
                    crate::lines::lemma_lead_count_is(trimmed(line), 0);
                }
                assert(!all_blank(nl));
                // the opening line of the block is left as it was
                assert(r[t as int] == st.out[t as int]);
                // open marks below the top are before it
                assert forall|k: int| 0 <= k < kt implies (#[trigger] st.open[k]).0 < t by {
                    assert(b.open[k] < b.open[kt]);
                }
                // the new pair
                assert(block_indented(st2.out, t, n, tab)) by {
                    assert forall|k: int| t < k < n && !all_blank(#[trigger] st2.out[k]) implies lead_count(st2.out[k])
                        >= lead_count(st2.out[t as int]) + tab by {
                        assert(st2.out[k] == r[k]);
                    }
                }
                // old pairs
                assert forall|p: int| 0 <= p < b.closed.len() implies ({
                    let c = #[trigger] b.closed[p];
                    block_indented(st2.out, c.0, c.1, tab)
                }) by {
                    let c = b.closed[p];
                    assert(block_indented(st.out, c.0, c.1, tab));
                    if c.1 <= t {
                        assert(st2.out[c.0 as int] == st.out[c.0 as int]);
                        assert(st2.out[c.1 as int] == st.out[c.1 as int]);
                        assert forall|k: int| c.0 < k < c.1 && !all_blank(#[trigger] st2.out[k]) implies lead_count(st2.out[k])
                            >= lead_count(st2.out[c.0 as int]) + tab by {
                            assert(st2.out[k] == st.out[k]);
                        }
                    } else {
                        assert(c.0 > t);
                        assert(st2.out[c.0 as int] == r[c.0 as int]);
                        assert(st2.out[c.1 as int] == r[c.1 as int]);
                        assert forall|k: int| c.0 < k < c.1 && !all_blank(#[trigger] st2.out[k]) implies lead_count(st2.out[k])
                            >= lead_count(st2.out[c.0 as int]) + tab by {
                            assert(st2.out[k] == r[k]);
                            assert(!all_blank(st.out[k]));
                        }
                    }
                }
                if kind == Bracket::Middle {
                    assert(b2.closed == b.closed.push((t, n)));
                    assert(b2.open == b.open.update(kt, n));
                    assert forall|p: int| 0 <= p < b2.closed.len() implies ({
                        let c = #[trigger] b2.closed[p];
                        block_indented(st2.out, c.0, c.1, tab)
                    }) by {
                        if p < b.closed.len() {
                            assert(b2.closed[p] == b.closed[p]);
                        }
                    }
                    assert forall|k: int| 0 <= k < st2.open.len() implies ({
                        let m = #[trigger] st2.open[k];
                        &&& m.0 < n + 1
                        &&& !all_blank(st2.out[m.0 as int])
                        &&& lead_count(st2.out[m.0 as int]) == m.1
                    }) by {
                        if k < kt {
                            assert(st2.open[k] == st.open[k]);
                            assert(st2.out[st.open[k].0 as int] == st.out[st.open[k].0 as int]);
                        }
                    }
                    assert forall|p: int, k: int|
                        0 <= p < b2.closed.len() && 0 <= k < b2.open.len() implies (#[trigger] b2.closed[p]).1
                            <= #[trigger] b2.open[k] || b2.closed[p].0 > b2.open[k] by {
                        if p < b.closed.len() {
                            assert(block_indented(st.out, b.closed[p].0, b.closed[p].1, tab));
                            if k < kt {
                                assert(b2.open[k] == b.open[k]);
                            }
                        } else if k < kt {
                            assert(b2.open[k] == b.open[k]);
                        }
                    }
                } else {
                    assert(b2.closed == b.closed.push((t, n)));
                    assert(b2.open == b.open.drop_last());
                    assert forall|p: int| 0 <= p < b2.closed.len() implies ({
                        let c = #[trigger] b2.closed[p];
                        block_indented(st2.out, c.0, c.1, tab)
                    }) by {
                        if p < b.closed.len() {
                            assert(b2.closed[p] == b.closed[p]);
                        }
                    }
                    assert forall|k: int| 0 <= k < st2.open.len() implies ({
                        let m = #[trigger] st2.open[k];
                        &&& m.0 < n + 1
                        &&& !all_blank(st2.out[m.0 as int])
                        &&& lead_count(st2.out[m.0 as int]) == m.1
                    }) by {
                        assert(st2.open[k] == st.open[k]);
                        assert(st2.out[st.open[k].0 as int] == st.out[st.open[k].0 as int]);
                    }
                    assert forall|p: int, k: int|
                        0 <= p < b2.closed.len() && 0 <= k < b2.open.len() implies (#[trigger] b2.closed[p]).1
                            <= #[trigger] b2.open[k] || b2.closed[p].0 > b2.open[k] by {
                        assert(b2.open[k] == b.open[k]);
                        if p < b.closed.len() {
                            assert(block_indented(st.out, b.closed[p].0, b.closed[p].1, tab));
                        }
                    }
                }
            },
        }
    }
}


proof fn lemma_blocks_prefix(ls: Seq<Seq<char>>, n: nat, cs: Seq<char>, wc: char, tab: nat)
    requires
        n <= ls.len(),
        is_blank(wc),
    ensures
        format_prefix(ls, n, cs, wc, tab) is Ok ==> state_matches_blocks(
            format_prefix(ls, n, cs, wc, tab)->Ok_0,
            blocks(ls, n, cs),
            n,
            tab,
        ),
    decreases n,
{
    if n > 0 {
        let m = (n - 1) as nat;
        lemma_blocks_prefix(ls, m, cs, wc, tab);
        if format_prefix(ls, m, cs, wc, tab) is Ok {
            lemma_blocks_step(ls, m, cs, wc, tab);
        }
    }
}

/// Formatting lays every block out as it should be: when the text is
/// accepted, every block its bracket comments open is closed again, each
/// closing comment is indented as its opening comment, and each non-blank
/// line inside a block is indented at least one indentation width (as
/// `indent_style` finds it) deeper than the block's comments.
pub proof fn format_indents_block_contents(s: Seq<char>, cs: Seq<char>)
    ensures
        format_lines(lines_of(s), cs) matches Ok(out) ==> ({
            let ls = lines_of(s);
            let bl = blocks(ls, ls.len(), cs);
            &&& bl.open.len() == 0
            &&& forall|p: int|
                0 <= p < bl.closed.len() ==> block_indented(
                    out,
                    (#[trigger] bl.closed[p]).0,
                    bl.closed[p].1,
                    indent_style(ls).1,
                )
        }),
{
    let ls = lines_of(s);
    let (wc, tab) = indent_style(ls);
    lemma_indent_style_blank(ls);
    lemma_blocks_prefix(ls, ls.len(), cs, wc, tab);
}

} // verus!
