use vstd::prelude::*;
use crate::add::{
    AddState, add_lines, add_open_bracket, add_prefix, add_step, add_text, close_line, closes_before, end_blocks,
    insert_after_starter, last_solid_before,
};
use crate::balance::{
    add_inv, all_no_line_feed, lemma_add_open_close_shape, lemma_add_prefix_inv, lemma_blank_plain,
    lemma_close_line, lemma_closer_before, lemma_indent_char, lemma_inserted_brackets, lemma_last_solid_props,
    lemma_lines_no_line_feed, middles_followed, pending_comment, starter_ok,
};
use crate::brackets::remove_text;
use crate::comments::{Bracket, bracket_of};
use crate::format::Problem;
use crate::lines::{
    all_blank, blank_tail_len, empty_lines, indent_style, join_lines, lead_count, lemma_blank_tail, lines_of,
    without_blank_tail,
};
use crate::unmarked::lines_before_push;

verus! {

/// The last non-blank line before line `j` is a closing comment indented
/// as line `j` is.
pub open spec fn closer_just_before(ll: Seq<Seq<char>>, j: int, cs: Seq<char>) -> bool {
    match last_solid_before(ll, j) {
        Some(c) => bracket_of(ll[c as int], cs) == Bracket::Close && lead_count(ll[c as int]) == lead_count(ll[j]),
        None => false,
    }
}

/// No `>` comment comes right after (blank lines aside) a closing comment
/// at its own indentation: such a pair is always written as one `<>`.
pub open spec fn no_open_after_closer(ll: Seq<Seq<char>>, cs: Seq<char>) -> bool {
    forall|j: int| 0 <= j < ll.len() && bracket_of(#[trigger] ll[j], cs) == Bracket::Open ==> !closer_just_before(ll, j, cs)
}

/// What comes before index `j` alone decides the last non-blank line
/// before it.
proof fn lemma_last_solid_prefix(a: Seq<Seq<char>>, b: Seq<Seq<char>>, j: int)
    requires
        0 <= j <= a.len(),
        j <= b.len(),
        forall|k: int| 0 <= k < j ==> a[k] == b[k],
    ensures
        last_solid_before(a, j) == last_solid_before(b, j),
    decreases j,
{
    if j > 0 {
        assert(a[j - 1] == b[j - 1]);
        lemma_last_solid_prefix(a, b, j - 1);
    }
}

/// A list that keeps the lines of `ll` before index `n` and has no `>`
/// comment from there on keeps the property.
proof fn lemma_keep_prefix(ll: Seq<Seq<char>>, r: Seq<Seq<char>>, n: int, cs: Seq<char>)
    requires
        no_open_after_closer(ll, cs),
        0 <= n <= ll.len(),
        n <= r.len(),
        forall|k: int| 0 <= k < n ==> r[k] == ll[k],
        forall|k: int| n <= k < r.len() ==> bracket_of(#[trigger] r[k], cs) != Bracket::Open,
    ensures
        no_open_after_closer(r, cs),
{
    assert forall|j: int| 0 <= j < r.len() && bracket_of(#[trigger] r[j], cs) == Bracket::Open implies !closer_just_before(
        r,
        j,
        cs,
    ) by {
        assert(j < n);
        assert(r[j] == ll[j]);
        lemma_last_solid_prefix(r, ll, j);
        if let Some(c) = last_solid_before(ll, j) {
            lemma_last_solid_props(ll, j);
            assert(r[c as int] == ll[c as int]);
        }
    }
}

/// Closing blocks writes closing comments after the last non-blank line:
/// no `>` comment follows them.
proof fn lemma_end_blocks_closers(ll: Seq<Seq<char>>, tr: Seq<(nat, nat)>, x: nat, cs: Seq<char>, wc: char)
    requires
        starter_ok(cs),
        wc == ' ' || wc == '\t',
        no_open_after_closer(ll, cs),
    ensures
        no_open_after_closer(end_blocks(ll, tr, x, cs, wc).0, cs),
    decreases tr.len(),
{
    if tr.len() > 0 && x <= tr.last().1 {
        let d = tr.last().1;
        let w = without_blank_tail(ll);
        let cl = close_line(d, cs, wc);
        let e = empty_lines(blank_tail_len(ll));
        let ll2 = w.push(cl) + e;
        lemma_blank_tail(ll);
        lemma_close_line(d, cs, wc);
        assert forall|k: int| w.len() <= k < ll2.len() implies bracket_of(#[trigger] ll2[k], cs) != Bracket::Open by {
            if k > w.len() {
                assert(ll2[k] == e[k - w.len() - 1]);
                lemma_blank_plain(ll2[k], cs);
            }
        }
        lemma_keep_prefix(ll, ll2, w.len() as int, cs);
        lemma_end_blocks_closers(ll2, tr.drop_last(), x, cs, wc);
    }
}

/// Giving the pending comment its bracket never puts a `>` right after a
/// closing comment at its indentation: there it writes `<>` instead.
proof fn lemma_add_open_closers(ll: Seq<Seq<char>>, lc: int, cs: Seq<char>)
    requires
        starter_ok(cs),
        pending_comment(ll, lc, cs),
        middles_followed(ll, cs),
        no_open_after_closer(ll, cs),
    ensures
        no_open_after_closer(add_open_bracket(ll, lc as nat, cs), cs),
{
    let r = add_open_bracket(ll, lc as nat, cs);
    lemma_inserted_brackets(ll[lc], cs);
    if closes_before(ll, lc as nat, cs) {
        lemma_closer_before(ll, lc, cs);
        lemma_add_open_close_shape(ll, lc, cs);
        let j = last_solid_before(ll, lc)->Some_0 as int;
        let n = ll.len() as int;
        let mid = insert_after_starter(ll[lc], cs, seq!['<', '>']);
        let e1 = empty_lines((lc - j - 1) as nat);
        let e2 = empty_lines((n - lc - 1) as nat);
        assert forall|k: int| j <= k < r.len() implies bracket_of(#[trigger] r[k], cs) != Bracket::Open by {
            if k == lc - 1 {
                assert(r[k] == mid);
            } else if k < lc - 1 {
                assert(r[k] == e1[k - j]);
                lemma_blank_plain(r[k], cs);
            } else {
                assert(r[k] == e2[k - lc]);
                lemma_blank_plain(r[k], cs);
            }
        }
        lemma_keep_prefix(ll, r, j, cs);
    } else {
        let op = insert_after_starter(ll[lc], cs, seq!['>']);
        assert(r == ll.update(lc, op));
        assert forall|j: int| 0 <= j < r.len() && bracket_of(#[trigger] r[j], cs) == Bracket::Open implies !closer_just_before(
            r,
            j,
            cs,
        ) by {
            if j > lc {
                assert(r[j] == ll[j]);
                lemma_blank_plain(ll[j], cs);
            }
            lemma_last_solid_prefix(r, ll, j);
            if let Some(c) = last_solid_before(ll, j) {
                lemma_last_solid_props(ll, j);
                assert(r[c as int] == ll[c as int]);
            }
            if j < lc {
                assert(r[j] == ll[j]);
            }
        }
    }
}

/// Every step of bracket adding keeps `no_open_after_closer`.
proof fn lemma_add_step_closers(st: AddState, line: Seq<char>, cs: Seq<char>, wc: char)
    requires
        starter_ok(cs),
        wc == ' ' || wc == '\t',
        add_inv(st, cs),
        no_open_after_closer(st.lines, cs),
        bracket_of(line, cs) == Bracket::Plain,
    ensures
        no_open_after_closer(add_step(st, line, cs, wc).lines, cs),
{
    let st2 = add_step(st, line, cs, wc);
    let pre = if all_blank(line) {
        st.lines
    } else {
        lines_before_push(st, line, cs, wc)
    };
    let l = if all_blank(line) {
        Seq::<char>::empty()
    } else {
        line
    };
    assert(st2.lines == pre.push(l));
    if all_blank(line) {
        lemma_blank_plain(l, cs);
    } else {
        let x = lead_count(line);
        if st.open.len() > 0 {
            let top = st.open.last();
            if st.unsure {
                if x > top.1 {
                    lemma_add_open_closers(st.lines, top.0 as int, cs);
                } else {
                    lemma_end_blocks_closers(st.lines, st.open.drop_last(), x, cs, wc);
                }
            } else if x > top.1 {
            } else {
                lemma_end_blocks_closers(st.lines, st.open, x, cs, wc);
            }
        }
    }
    lemma_keep_prefix(pre, st2.lines, pre.len() as int, cs);
}

proof fn lemma_add_prefix_closers(ls: Seq<Seq<char>>, n: nat, cs: Seq<char>, wc: char)
    requires
        n <= ls.len(),
        starter_ok(cs),
        wc == ' ' || wc == '\t',
        all_no_line_feed(ls),
        forall|i: int| 0 <= i < ls.len() ==> bracket_of(#[trigger] ls[i], cs) == Bracket::Plain,
    ensures
        no_open_after_closer(add_prefix(ls, n, cs, wc).lines, cs),
    decreases n,
{
    if n > 0 {
        lemma_add_prefix_closers(ls, (n - 1) as nat, cs, wc);
        lemma_add_prefix_inv(ls, (n - 1) as nat, cs, wc);
        assert(bracket_of(ls[n - 1], cs) == Bracket::Plain);
        lemma_add_step_closers(add_prefix(ls, (n - 1) as nat, cs, wc), ls[n - 1], cs, wc);
    }
}

/// Adding brackets continues a block with `<>`, at every indentation: in
/// the output no `>` comment comes right after (blank lines aside) a
/// closing comment indented as it is. A comment that opens a block right
/// where a block at its own indentation ends takes that block's closing
/// comment's place as `<>`. This holds when the bracketless text has no
/// bracket comments (no comment text there starts with `>` or `<`) and the
/// comment starter is non-blank, as every supported file type's is.
pub proof fn add_brackets_continues_blocks(s: Seq<char>, cs: Seq<char>)
    requires
        starter_ok(cs),
        remove_text(s, cs) is Ok,
        forall|i: int|
            0 <= i < lines_of(remove_text(s, cs)->Ok_0).len() ==> bracket_of(
                #[trigger] lines_of(remove_text(s, cs)->Ok_0)[i],
                cs,
            ) == Bracket::Plain,
    ensures
        ({
            let ls = lines_of(remove_text(s, cs)->Ok_0);
            let a = add_lines(ls, cs, indent_style(ls).0);
            &&& add_text(s, cs) == Ok::<Seq<char>, (nat, Problem)>(join_lines(a))
            &&& no_open_after_closer(a, cs)
        }),
{
    let ls = lines_of(remove_text(s, cs)->Ok_0);
    let wc = indent_style(ls).0;
    lemma_indent_char(ls);
    lemma_lines_no_line_feed(remove_text(s, cs)->Ok_0);
    lemma_add_prefix_closers(ls, ls.len(), cs, wc);
    let st = add_prefix(ls, ls.len(), cs, wc);
    let open = if st.unsure && st.open.len() > 0 {
        st.open.drop_last()
    } else {
        st.open
    };
    lemma_end_blocks_closers(st.lines, open, 0, cs, wc);
}

} // verus!
