use vstd::prelude::*;
use crate::add::{AddState, add_lines, add_open_bracket, add_prefix, add_step, close_line, closes_before, end_blocks, insert_after_starter, last_solid_before};
use crate::balance::{all_no_line_feed, depth_from, lemma_add_open_close_shape, lemma_add_prefix_inv, lemma_blank_plain, lemma_close_line, lemma_close_one, lemma_closer_before, lemma_indent_char, lemma_inserted_brackets, lemma_lines_no_line_feed, lemma_next_solid_append, lemma_next_solid_is, lemma_next_solid_props, middles_followed, next_solid, pending_comment, starter_ok};
use crate::brackets::remove_text;
use crate::comments::{Bracket, bracket_of, is_comment};
use crate::laws::blanks_emptied;
use crate::lines::{all_blank, blank_tail_len, empty_lines, indent_style, lead_count, lines_of, without_blank_tail};
use crate::lines::lemma_lead_count;
use crate::unmarked::{emptied, lines_before_push, lemma_add_prefix_unmarked, lemma_close_one_unmarked, lemma_tidy_tail, lemma_unmarked_around, lemma_unmarked_empties, lemma_unmarked_single, tidy, unmarked_lines};

verus! {

/// Whether a line carries a `>` or `<>` bracket; `None` for a closing
/// comment.
pub open spec fn marked(l: Seq<char>, cs: Seq<char>) -> Option<bool> {
    match bracket_of(l, cs) {
        Bracket::Open => Some(true),
        Bracket::Middle => Some(true),
        Bracket::Close => None,
        Bracket::Plain => Some(false),
    }
}

/// `marked` of every line, closing comments left out.
pub open spec fn marks_of(ls: Seq<Seq<char>>, cs: Seq<char>) -> Seq<bool>
    decreases ls.len(),
{
    if ls.len() == 0 {
        Seq::empty()
    } else {
        let r = marks_of(ls.drop_last(), cs);
        match marked(ls.last(), cs) {
            Some(m) => r.push(m),
            None => r,
        }
    }
}

/// Line `i` is a comment, and the next non-blank line after it is indented
/// deeper.
pub open spec fn opens_block(ls: Seq<Seq<char>>, i: int, cs: Seq<char>) -> bool {
    &&& is_comment(ls[i], cs)
    &&& match next_solid(ls, i + 1) {
        Some(j) => lead_count(ls[j as int]) > lead_count(ls[i]),
        None => false,
    }
}

/// `n` unmarked lines.
pub open spec fn no_marks(n: nat) -> Seq<bool> {
    Seq::new(n, |_i: int| false)
}

proof fn lemma_marks_concat(a: Seq<Seq<char>>, b: Seq<Seq<char>>, cs: Seq<char>)
    ensures
        marks_of(a + b, cs) == marks_of(a, cs) + marks_of(b, cs),
    decreases b.len(),
{
    if b.len() == 0 {
        assert(a + b =~= a);
        assert(marks_of(a, cs) + marks_of(b, cs) =~= marks_of(a, cs));
    } else {
        lemma_marks_concat(a, b.drop_last(), cs);
        assert((a + b).drop_last() =~= a + b.drop_last());
        assert((a + b).last() == b.last());
        if let Some(m) = marked(b.last(), cs) {
            assert(marks_of(a, cs) + marks_of(b.drop_last(), cs).push(m) =~= (marks_of(a, cs) + marks_of(
                b.drop_last(),
                cs,
            )).push(m));
        }
    }
}

proof fn lemma_marks_single(l: Seq<char>, cs: Seq<char>)
    ensures
        marks_of(seq![l], cs) == (match marked(l, cs) {
            Some(m) => seq![m],
            None => Seq::<bool>::empty(),
        }),
{
    lemma_marks_push(Seq::<Seq<char>>::empty(), l, cs);
    assert(Seq::<Seq<char>>::empty().push(l) =~= seq![l]);
    if let Some(m) = marked(l, cs) {
        assert(Seq::<bool>::empty().push(m) =~= seq![m]);
    }
}

proof fn lemma_marks_push(a: Seq<Seq<char>>, l: Seq<char>, cs: Seq<char>)
    ensures
        marks_of(a.push(l), cs) == (match marked(l, cs) {
            Some(m) => marks_of(a, cs).push(m),
            None => marks_of(a, cs),
        }),
{
    assert(a.push(l).drop_last() =~= a);
}

proof fn lemma_marks_empties(n: nat, cs: Seq<char>)
    requires
        cs.len() > 0,
    ensures
        marks_of(empty_lines(n), cs) == no_marks(n),
    decreases n,
{
    if n > 0 {
        lemma_marks_empties((n - 1) as nat, cs);
        assert(empty_lines(n).drop_last() =~= empty_lines((n - 1) as nat));
        lemma_blank_plain(Seq::<char>::empty(), cs);
        assert(no_marks((n - 1) as nat).push(false) =~= no_marks(n));
    } else {
        assert(empty_lines(0) =~= Seq::<Seq<char>>::empty());
        assert(no_marks(0) =~= Seq::<bool>::empty());
    }
}

/// Closing blocks adds closing comments only: the marks stay.
proof fn lemma_marks_end_blocks(ll: Seq<Seq<char>>, tr: Seq<(nat, nat)>, x: nat, cs: Seq<char>, wc: char)
    requires
        starter_ok(cs),
        wc == ' ' || wc == '\t',
        tidy(ll, cs),
        depth_from(Some(0), ll, cs) == Some(tr.len()),
        middles_followed(ll, cs),
        all_no_line_feed(ll),
    ensures
        marks_of(end_blocks(ll, tr, x, cs, wc).0, cs) == marks_of(ll, cs),
    decreases tr.len(),
{
    if tr.len() > 0 && x <= tr.last().1 {
        let k = (tr.len() - 1) as nat;
        let d = tr.last().1;
        lemma_close_one(ll, k, d, cs, wc);
        lemma_close_one_unmarked(ll, k, d, cs, wc);
        let w = without_blank_tail(ll);
        let cl = close_line(d, cs, wc);
        let e = empty_lines(blank_tail_len(ll));
        let ll2 = w.push(cl) + e;
        lemma_tidy_tail(ll, cs);
        lemma_close_line(d, cs, wc);
        lemma_marks_concat(w.push(cl), e, cs);
        lemma_marks_push(w, cl, cs);
        lemma_marks_concat(w, e, cs);
        lemma_marks_end_blocks(ll2, tr.drop_last(), x, cs, wc);
    }
}

/// Lines split around index `i`.
proof fn lemma_marks_around(ll: Seq<Seq<char>>, i: int, cs: Seq<char>)
    requires
        0 <= i < ll.len(),
    ensures
        marks_of(ll, cs) == marks_of(ll.take(i), cs) + marks_of(seq![ll[i]], cs) + marks_of(ll.skip(i + 1), cs),
{
    assert(ll =~= ll.take(i) + seq![ll[i]] + ll.skip(i + 1));
    lemma_marks_concat(ll.take(i) + seq![ll[i]], ll.skip(i + 1), cs);
    lemma_marks_concat(ll.take(i), seq![ll[i]], cs);
}

/// The blank lines after the pending comment, as a tidy list has them.
proof fn lemma_pending_tail(ll: Seq<Seq<char>>, lc: int, cs: Seq<char>)
    requires
        starter_ok(cs),
        pending_comment(ll, lc, cs),
        tidy(ll, cs),
    ensures
        ll.skip(lc + 1) == empty_lines((ll.len() - lc - 1) as nat),
        marks_of(ll, cs) == marks_of(ll.take(lc), cs).push(false) + no_marks((ll.len() - lc - 1) as nat),
{
    let e = empty_lines((ll.len() - lc - 1) as nat);
    assert forall|i: int| 0 <= i < e.len() implies ll.skip(lc + 1)[i] == e[i] by {
        assert(ll.skip(lc + 1)[i] == ll[lc + 1 + i]);
        assert(all_blank(ll[lc + 1 + i]));
    }
    assert(ll.skip(lc + 1) =~= e);
    lemma_marks_around(ll, lc, cs);
    lemma_marks_single(ll[lc], cs);
    lemma_marks_empties((ll.len() - lc - 1) as nat, cs);
    assert(marks_of(ll.take(lc), cs) + seq![false] =~= marks_of(ll.take(lc), cs).push(false));
}

/// Adding `>` to the pending comment marks it, and nothing else changes.
proof fn lemma_marks_open(ll: Seq<Seq<char>>, lc: int, cs: Seq<char>)
    requires
        starter_ok(cs),
        pending_comment(ll, lc, cs),
        middles_followed(ll, cs),
        tidy(ll, cs),
    ensures
        marks_of(ll, cs).len() >= ll.len() - lc,
        marks_of(add_open_bracket(ll, lc as nat, cs), cs) == marks_of(ll, cs).update(
            marks_of(ll, cs).len() - (ll.len() - lc),
            true,
        ),
{
    let n = ll.len() as int;
    lemma_pending_tail(ll, lc, cs);
    let m0 = marks_of(ll.take(lc), cs);
    let nm = no_marks((n - lc - 1) as nat);
    let r = add_open_bracket(ll, lc as nat, cs);
    lemma_inserted_brackets(ll[lc], cs);
    if closes_before(ll, lc as nat, cs) {
        lemma_closer_before(ll, lc, cs);
        lemma_add_open_close_shape(ll, lc, cs);
        let j = last_solid_before(ll, lc)->Some_0 as int;
        let mid = insert_after_starter(ll[lc], cs, seq!['<', '>']);
        let a = ll.take(j);
        let e1 = empty_lines((lc - j - 1) as nat);
        let e2 = empty_lines((n - lc - 1) as nat);
        assert(ll.take(lc) =~= a + seq![ll[j]] + e1) by {
            assert forall|i: int| j < i < lc implies ll[i] == Seq::<char>::empty() by {
                assert(all_blank(ll[i]));
            }
        }
        lemma_marks_concat(a + seq![ll[j]], e1, cs);
        lemma_marks_concat(a, seq![ll[j]], cs);
        lemma_marks_single(ll[j], cs);
        lemma_marks_empties((lc - j - 1) as nat, cs);
        lemma_marks_empties((n - lc - 1) as nat, cs);
        lemma_marks_concat(a + e1 + seq![mid], e2, cs);
        lemma_marks_concat(a + e1, seq![mid], cs);
        lemma_marks_concat(a, e1, cs);
        lemma_marks_single(mid, cs);
        let ma = marks_of(a, cs);
        let n1 = no_marks((lc - j - 1) as nat);
        assert(m0 =~= ma + n1);
        assert(marks_of(r, cs) =~= ma + n1 + seq![true] + nm);
        assert(marks_of(ll, cs) =~= ma + n1 + seq![false] + nm);
        assert(marks_of(r, cs) =~= marks_of(ll, cs).update(marks_of(ll, cs).len() - (n - lc), true));
    } else {
        let op = insert_after_starter(ll[lc], cs, seq!['>']);
        assert(r == ll.update(lc, op));
        lemma_marks_around(r, lc, cs);
        assert(r.take(lc) =~= ll.take(lc));
        assert(r.skip(lc + 1) =~= ll.skip(lc + 1));
        lemma_marks_single(op, cs);
        lemma_marks_empties((n - lc - 1) as nat, cs);
        assert(marks_of(r, cs) =~= m0 + seq![true] + nm);
        assert(marks_of(ll, cs) =~= m0 + seq![false] + nm);
        assert(marks_of(r, cs) =~= marks_of(ll, cs).update(marks_of(ll, cs).len() - (n - lc), true));
    }
}


/// What `marks_of` should give after the first `n` lines: whether each of
/// them opens a block among those lines.
pub open spec fn marks_target(ls: Seq<Seq<char>>, n: nat, cs: Seq<char>) -> Seq<bool> {
    Seq::new(n, |i: int| opens_block(ls.take(n as int), i, cs))
}

/// Line `p` is the last non-blank one of the first `n`, and a comment.
pub open spec fn last_comment(ls: Seq<Seq<char>>, n: nat, p: int, cs: Seq<char>) -> bool {
    &&& 0 <= p < n
    &&& is_comment(ls[p], cs)
    &&& forall|j: int| p < j < n ==> all_blank(#[trigger] ls[j])
}

/// What holds of the bracket adder's state after `n` lines: the marks are
/// the ones those lines call for, and a comment that ends them is the one
/// still in doubt.
pub open spec fn marks_inv(st: AddState, ls: Seq<Seq<char>>, n: nat, cs: Seq<char>) -> bool {
    &&& marks_of(st.lines, cs) == marks_target(ls, n, cs)
    &&& forall|p: int| #[trigger] last_comment(ls, n, p, cs) ==> st.unsure && st.open.len() > 0
}

proof fn lemma_comment_solid(l: Seq<char>, cs: Seq<char>)
    requires
        is_comment(l, cs),
    ensures
        !all_blank(l),
{
    lemma_lead_count(l);
}

proof fn lemma_next_solid_none(ll: Seq<Seq<char>>, i: int)
    requires
        0 <= i,
        next_solid(ll, i) is None,
    ensures
        forall|k: int| i <= k < ll.len() ==> all_blank(#[trigger] ll[k]),
    decreases ll.len() - i,
{
    if i < ll.len() {
        lemma_next_solid_none(ll, i + 1);
    }
}

proof fn lemma_next_solid_blank(ll: Seq<Seq<char>>, i: int)
    requires
        0 <= i,
        forall|k: int| i <= k < ll.len() ==> all_blank(#[trigger] ll[k]),
    ensures
        next_solid(ll, i) is None,
    decreases ll.len() - i,
{
    if i < ll.len() {
        assert(all_blank(ll[i]));
        lemma_next_solid_blank(ll, i + 1);
    }
}

/// Whether line `i` opens a block among the first `n + 1` lines.
proof fn lemma_opens_step(ls: Seq<Seq<char>>, n: nat, i: int, cs: Seq<char>)
    requires
        0 <= i < n < ls.len(),
    ensures
        next_solid(ls.take(n as int), i + 1) is Some ==> opens_block(ls.take(n + 1 as int), i, cs) == opens_block(
            ls.take(n as int),
            i,
            cs,
        ),
        next_solid(ls.take(n as int), i + 1) is None ==> (forall|j: int| i < j < n ==> all_blank(#[trigger] ls[j]))
            && !opens_block(ls.take(n as int), i, cs) && opens_block(ls.take(n + 1 as int), i, cs) == (is_comment(
            ls[i],
            cs,
        ) && !all_blank(ls[n as int]) && lead_count(ls[n as int]) > lead_count(ls[i])),
{
    let t = ls.take(n as int);
    let t1 = ls.take(n + 1 as int);
    assert(t1 =~= t + seq![ls[n as int]]);
    assert(t1[i] == ls[i]);
    assert(t[i] == ls[i]);
    if next_solid(t, i + 1) is Some {
        lemma_next_solid_append(t, seq![ls[n as int]], i + 1);
        lemma_next_solid_props(t, i + 1);
        let j = next_solid(t, i + 1)->Some_0 as int;
        assert(t1[j] == t[j]);
    } else {
        lemma_next_solid_none(t, i + 1);
        assert forall|j: int| i < j < n implies all_blank(#[trigger] ls[j]) by {
            assert(t[j] == ls[j]);
        }
        if all_blank(ls[n as int]) {
            assert forall|k: int| i + 1 <= k < t1.len() implies all_blank(#[trigger] t1[k]) by {
                if k < n {
                    assert(t1[k] == t[k]);
                }
            }
            lemma_next_solid_blank(t1, i + 1);
        } else {
            assert forall|k: int| i + 1 <= k < n implies all_blank(#[trigger] t1[k]) by {
                assert(t1[k] == t[k]);
            }
            lemma_next_solid_is(t1, i + 1, n as int);
        }
    }
}

/// The comment in doubt is line `p` of the input, the last non-blank one
/// so far, and it has index `p` among the marks.
proof fn lemma_pending_index(ll: Seq<Seq<char>>, lc: int, ls: Seq<Seq<char>>, n: nat, cs: Seq<char>)
    requires
        starter_ok(cs),
        n <= ls.len(),
        pending_comment(ll, lc, cs),
        tidy(ll, cs),
        unmarked_lines(ll, cs) == blanks_emptied(ls.take(n as int)),
        marks_of(ll, cs).len() == n,
    ensures
        ({
            let p = lc + n - ll.len();
            &&& last_comment(ls, n, p, cs)
            &&& ls[p] == ll[lc]
            &&& p == marks_of(ll, cs).len() - (ll.len() - lc)
        }),
{
    let m = (ll.len() - lc - 1) as nat;
    lemma_pending_tail(ll, lc, cs);
    lemma_unmarked_around(ll, lc, cs);
    lemma_unmarked_empties(m, cs);
    lemma_unmarked_single(ll[lc], cs);
    let x = unmarked_lines(ll.take(lc), cs);
    let b = blanks_emptied(ls.take(n as int));
    assert(b =~= x + seq![ll[lc]] + empty_lines(m));
    let p = x.len() as int;
    assert(p == lc + n - ll.len());
    assert(b[p] == ll[lc]);
    assert(b[p] == emptied(ls[p]));
    assert forall|j: int| p < j < n implies all_blank(#[trigger] ls[j]) by {
        assert(b[j] == empty_lines(m)[j - p - 1]);
        assert(b[j] == emptied(ls[j]));
    }
}


/// Every step of bracket adding keeps `marks_inv`.
#[verifier::rlimit(60)]
proof fn lemma_marks_step(ls: Seq<Seq<char>>, n: nat, cs: Seq<char>, wc: char)
    requires
        n < ls.len(),
        starter_ok(cs),
        wc == ' ' || wc == '\t',
        all_no_line_feed(ls),
        forall|i: int| 0 <= i < ls.len() ==> bracket_of(#[trigger] ls[i], cs) == Bracket::Plain,
        marks_inv(add_prefix(ls, n, cs, wc), ls, n, cs),
    ensures
        marks_inv(add_prefix(ls, n + 1, cs, wc), ls, n + 1, cs),
{
    let st = add_prefix(ls, n, cs, wc);
    lemma_add_prefix_inv(ls, n, cs, wc);
    lemma_add_prefix_unmarked(ls, n, cs, wc);
    let line = ls[n as int];
    assert(bracket_of(line, cs) == Bracket::Plain);
    let st2 = add_step(st, line, cs, wc);
    assert(add_prefix(ls, n + 1, cs, wc) == st2);
    let t2 = marks_target(ls, n + 1, cs);
    let m = marks_of(st.lines, cs);
    assert(m.len() == n);
    let lc = st.open.last().0 as int;
    let p = lc + n - st.lines.len();
    if st.unsure && st.open.len() > 0 {
        lemma_pending_index(st.lines, lc, ls, n, cs);
        lemma_comment_solid(ls[p], cs);
        assert forall|k: int| p + 1 <= k < ls.take(n as int).len() implies all_blank(#[trigger] ls.take(n as int)[k]) by {
            assert(ls.take(n as int)[k] == ls[k]);
        }
        lemma_next_solid_blank(ls.take(n as int), p + 1);
    }
    if all_blank(line) {
        lemma_blank_plain(Seq::<char>::empty(), cs);
        lemma_marks_push(st.lines, Seq::<char>::empty(), cs);
        assert(st2.lines == st.lines.push(Seq::<char>::empty()));
        assert forall|i: int| 0 <= i < n + 1 implies marks_of(st2.lines, cs)[i] == t2[i] by {
            if i < n {
                lemma_opens_step(ls, n, i, cs);
            }
        }
        assert(marks_of(st2.lines, cs) =~= t2);
        assert forall|q: int| #[trigger] last_comment(ls, n + 1, q, cs) implies st2.unsure && st2.open.len() > 0 by {
            if q == n {
                lemma_comment_solid(ls[q], cs);
            }
            assert(last_comment(ls, n, q, cs));
        }
    } else {
        let x = lead_count(line);
        let pre = lines_before_push(st, line, cs, wc);
        assert(st2.lines == pre.push(line));
        lemma_marks_push(pre, line, cs);
        if st.open.len() > 0 {
            let top = st.open.last();
            if st.unsure {
                if x > top.1 {
                    lemma_marks_open(st.lines, lc, cs);
                } else {
                    lemma_marks_end_blocks(st.lines, st.open.drop_last(), x, cs, wc);
                }
            } else if x > top.1 {
            } else {
                lemma_marks_end_blocks(st.lines, st.open, x, cs, wc);
            }
        }
        assert forall|i: int| 0 <= i < n + 1 implies marks_of(st2.lines, cs)[i] == t2[i] by {
            if i < n {
                lemma_opens_step(ls, n, i, cs);
                if next_solid(ls.take(n as int), i + 1) is None && is_comment(ls[i], cs) {
                    assert(last_comment(ls, n, i, cs));
                    lemma_comment_solid(ls[i], cs);
                    assert(i == p);
                }
            }
        }
        assert(marks_of(st2.lines, cs) =~= t2);
        assert forall|q: int| #[trigger] last_comment(ls, n + 1, q, cs) implies st2.unsure && st2.open.len() > 0 by {
            if q < n {
                assert(all_blank(ls[n as int]));
            }
        }
    }
}

proof fn lemma_marks_prefix(ls: Seq<Seq<char>>, n: nat, cs: Seq<char>, wc: char)
    requires
        n <= ls.len(),
        starter_ok(cs),
        wc == ' ' || wc == '\t',
        all_no_line_feed(ls),
        forall|i: int| 0 <= i < ls.len() ==> bracket_of(#[trigger] ls[i], cs) == Bracket::Plain,
    ensures
        marks_inv(add_prefix(ls, n, cs, wc), ls, n, cs),
    decreases n,
{
    if n == 0 {
        assert(marks_target(ls, 0, cs) =~= Seq::<bool>::empty());
    } else {
        lemma_marks_prefix(ls, (n - 1) as nat, cs, wc);
        lemma_marks_step(ls, (n - 1) as nat, cs, wc);
    }
}

/// Adding brackets marks exactly the comments that open a block: taking
/// the lines of the output that are no closing comments, the one for line
/// `i` of the bracketless text carries a `>` or `<>` exactly when line `i`
/// is a comment and the next non-blank line after it is indented deeper.
/// (Together with `add_brackets_only_adds_brackets`, which says that these
/// lines are the bracketless lines with their brackets taken out, this is
/// the whole of what bracket adding does to a line.) This holds when the
/// bracketless text has no bracket comments (no comment text there starts
/// with `>` or `<`) and the comment starter is non-blank, as every
/// supported file type's is.
pub proof fn add_brackets_marks_block_openers(s: Seq<char>, cs: Seq<char>)
    requires
        starter_ok(cs),
        remove_text(s, cs) is Ok,
        forall|i: int|
            0 <= i < lines_of(remove_text(s, cs)->Ok_0).len() ==> bracket_of(
                #[trigger] lines_of(remove_text(s, cs)->Ok_0)[i],
                cs,
            ) == Bracket::Plain,
    ensures
        ({
            let ls = lines_of(remove_text(s, cs)->Ok_0);
            let a = add_lines(ls, cs, indent_style(ls).0);
            &&& marks_of(a, cs).len() == ls.len()
            &&& forall|i: int| 0 <= i < ls.len() ==> #[trigger] marks_of(a, cs)[i] == opens_block(ls, i, cs)
        }),
{
    let ls = lines_of(remove_text(s, cs)->Ok_0);
    let wc = indent_style(ls).0;
    lemma_indent_char(ls);
    lemma_lines_no_line_feed(remove_text(s, cs)->Ok_0);
    lemma_marks_prefix(ls, ls.len(), cs, wc);
    lemma_add_prefix_unmarked(ls, ls.len(), cs, wc);
    lemma_add_prefix_inv(ls, ls.len(), cs, wc);
    assert(ls.take(ls.len() as int) =~= ls);
    let st = add_prefix(ls, ls.len(), cs, wc);
    let open = if st.unsure && st.open.len() > 0 {
        st.open.drop_last()
    } else {
        st.open
    };
    lemma_marks_end_blocks(st.lines, open, 0, cs, wc);
}

} // verus!
