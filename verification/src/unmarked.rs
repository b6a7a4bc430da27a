use vstd::prelude::*;
use crate::add::{AddState, add_lines, add_open_bracket, add_prefix, add_step, add_text, close_line, closes_before, end_blocks, insert_after_starter, last_solid_before};
use crate::balance::{add_inv, depth_from, lemma_add_open_close_shape, lemma_add_prefix_inv, lemma_blank_plain, lemma_close_line, lemma_close_one, lemma_closer_before, lemma_comment_room, lemma_depth_blanks, lemma_indent_char, lemma_inserted_brackets, lemma_insert_after_starter, lemma_lines_no_line_feed, lemma_split_blank_tail, middles_followed, pending_comment, all_no_line_feed, starter_ok};
use crate::brackets::remove_text;
use crate::comments::{Bracket, bracket_of, comment_text_start, is_comment};
use crate::format::Problem;
use crate::laws::blanks_emptied;
use crate::lines::{all_blank, blank_tail_len, empty_lines, indent_style, join_lines, lead_count, lemma_blank_tail, lemma_lead_count, lines_of, without_blank_tail};

verus! {

/// A line with its bracket taken out: the `>` or `<>` that begins the
/// comment text removed, a closing comment dropped (`None`), any other line
/// kept as it is.
pub open spec fn unmarked(l: Seq<char>, cs: Seq<char>) -> Option<Seq<char>> {
    let p = comment_text_start(l, cs) as int;
    match bracket_of(l, cs) {
        Bracket::Open => Some(l.take(p) + l.skip(p + 1)),
        Bracket::Middle => Some(l.take(p) + l.skip(p + 2)),
        Bracket::Close => None,
        Bracket::Plain => Some(l),
    }
}

/// `unmarked` applied to every line, the dropped ones left out.
pub open spec fn unmarked_lines(ls: Seq<Seq<char>>, cs: Seq<char>) -> Seq<Seq<char>>
    decreases ls.len(),
{
    if ls.len() == 0 {
        Seq::empty()
    } else {
        let r = unmarked_lines(ls.drop_last(), cs);
        match unmarked(ls.last(), cs) {
            Some(l) => r.push(l),
            None => r,
        }
    }
}

/// A `>` or `<>` comment has its bracket right after the comment starter.
pub open spec fn bracket_next_to_starter(l: Seq<char>, cs: Seq<char>) -> bool {
    (bracket_of(l, cs) == Bracket::Open || bracket_of(l, cs) == Bracket::Middle) ==> comment_text_start(l, cs)
        == lead_count(l) + cs.len()
}

/// Blank lines are empty, a closing comment always comes right after a
/// non-blank line, and every `>` or `<>` comment has its bracket right
/// after the comment starter.
pub open spec fn tidy(ll: Seq<Seq<char>>, cs: Seq<char>) -> bool {
    &&& forall|i: int| 0 <= i < ll.len() && all_blank(#[trigger] ll[i]) ==> ll[i] == Seq::<char>::empty()
    &&& forall|i: int|
        0 <= i < ll.len() && bracket_of(#[trigger] ll[i], cs) == Bracket::Close ==> i >= 1 && !all_blank(ll[i - 1])
    &&& forall|i: int| 0 <= i < ll.len() ==> bracket_next_to_starter(#[trigger] ll[i], cs)
}

pub proof fn lemma_unmarked_concat(a: Seq<Seq<char>>, b: Seq<Seq<char>>, cs: Seq<char>)
    ensures
        unmarked_lines(a + b, cs) == unmarked_lines(a, cs) + unmarked_lines(b, cs),
    decreases b.len(),
{
    if b.len() == 0 {
        assert(a + b =~= a);
        assert(unmarked_lines(a, cs) + unmarked_lines(b, cs) =~= unmarked_lines(a, cs));
    } else {
        lemma_unmarked_concat(a, b.drop_last(), cs);
        assert((a + b).drop_last() =~= a + b.drop_last());
        assert((a + b).last() == b.last());
        if let Some(l) = unmarked(b.last(), cs) {
            assert(unmarked_lines(a, cs) + unmarked_lines(b.drop_last(), cs).push(l) =~= (unmarked_lines(a, cs)
                + unmarked_lines(b.drop_last(), cs)).push(l));
        }
    }
}

proof fn lemma_unmarked_push(a: Seq<Seq<char>>, l: Seq<char>, cs: Seq<char>)
    ensures
        unmarked_lines(a.push(l), cs) == (match unmarked(l, cs) {
            Some(u) => unmarked_lines(a, cs).push(u),
            None => unmarked_lines(a, cs),
        }),
{
    assert(a.push(l).drop_last() =~= a);
}

pub proof fn lemma_unmarked_empties(n: nat, cs: Seq<char>)
    requires
        cs.len() > 0,
    ensures
        unmarked_lines(empty_lines(n), cs) == empty_lines(n),
    decreases n,
{
    if n > 0 {
        lemma_unmarked_empties((n - 1) as nat, cs);
        assert(empty_lines(n).drop_last() =~= empty_lines((n - 1) as nat));
        lemma_blank_plain(Seq::<char>::empty(), cs);
        assert(empty_lines((n - 1) as nat).push(Seq::<char>::empty()) =~= empty_lines(n));
    } else {
        assert(empty_lines(0) =~= Seq::<Seq<char>>::empty());
    }
}

/// A tidy list is its part before the blank tail followed by empty lines.
pub proof fn lemma_tidy_tail(ll: Seq<Seq<char>>, cs: Seq<char>)
    requires
        tidy(ll, cs),
    ensures
        ll == without_blank_tail(ll) + empty_lines(blank_tail_len(ll)),
{
    lemma_split_blank_tail(ll);
    lemma_blank_tail(ll);
    let w = without_blank_tail(ll);
    let t = ll.skip(w.len() as int);
    assert forall|i: int| 0 <= i < t.len() implies t[i] == empty_lines(blank_tail_len(ll))[i] by {
        assert(t[i] == ll[w.len() + i]);
        assert(all_blank(ll[w.len() + i]));
    }
    assert(t =~= empty_lines(blank_tail_len(ll)));
}

/// Pushing a line that is no closing comment, and empty if blank.
proof fn lemma_tidy_push(ll: Seq<Seq<char>>, l: Seq<char>, cs: Seq<char>)
    requires
        tidy(ll, cs),
        bracket_of(l, cs) != Bracket::Close,
        bracket_next_to_starter(l, cs),
        all_blank(l) ==> l == Seq::<char>::empty(),
    ensures
        tidy(ll.push(l), cs),
{
    let c = ll.push(l);
    assert forall|i: int| 0 <= i < c.len() implies bracket_next_to_starter(#[trigger] c[i], cs) by {
        if i < ll.len() {
            assert(c[i] == ll[i]);
        }
    }
    assert forall|i: int| 0 <= i < c.len() && bracket_of(#[trigger] c[i], cs) == Bracket::Close implies i >= 1
        && !all_blank(c[i - 1]) by {
        assert(c[i] == ll[i]);
        assert(c[i - 1] == ll[i - 1]);
    }
    assert forall|i: int| 0 <= i < c.len() && all_blank(#[trigger] c[i]) implies c[i] == Seq::<char>::empty() by {
        if i < ll.len() {
            assert(c[i] == ll[i]);
        }
    }
}

/// Closing one block keeps the lines as they are apart from the new
/// closing comment.
pub proof fn lemma_close_one_unmarked(ll: Seq<Seq<char>>, k: nat, d: nat, cs: Seq<char>, wc: char)
    requires
        starter_ok(cs),
        wc == ' ' || wc == '\t',
        tidy(ll, cs),
        depth_from(Some(0), ll, cs) == Some(k + 1),
    ensures
        ({
            let ll2 = without_blank_tail(ll).push(close_line(d, cs, wc)) + empty_lines(blank_tail_len(ll));
            &&& tidy(ll2, cs)
            &&& unmarked_lines(ll2, cs) == unmarked_lines(ll, cs)
        }),
{
    let w = without_blank_tail(ll);
    let cl = close_line(d, cs, wc);
    let e = empty_lines(blank_tail_len(ll));
    let ll2 = w.push(cl) + e;
    lemma_tidy_tail(ll, cs);
    lemma_close_line(d, cs, wc);
    lemma_blank_tail(ll);
    // the part before the blank tail is not empty: the lines hold an open block
    if w.len() == 0 {
        assert forall|i: int| 0 <= i < ll.len() implies all_blank(#[trigger] ll[i]) by {}
        lemma_depth_blanks(Some(0), ll, cs);
    }
    assert(!all_blank(ll[w.len() - 1]));
    assert(unmarked_lines(ll2, cs) == unmarked_lines(ll, cs)) by {
        lemma_unmarked_concat(w.push(cl), e, cs);
        lemma_unmarked_push(w, cl, cs);
        lemma_unmarked_concat(w, e, cs);
    }
    assert forall|i: int| 0 <= i < ll2.len() && bracket_of(#[trigger] ll2[i], cs) == Bracket::Close implies i >= 1
        && !all_blank(ll2[i - 1]) by {
        if i < w.len() {
            assert(ll2[i] == ll[i]);
            assert(ll2[i - 1] == ll[i - 1]);
        } else if i == w.len() {
            assert(ll2[i - 1] == ll[i - 1]);
        } else {
            assert(ll2[i] == e[i - w.len() - 1]);
            lemma_blank_plain(ll2[i], cs);
        }
    }
    assert forall|i: int| 0 <= i < ll2.len() && all_blank(#[trigger] ll2[i]) implies ll2[i] == Seq::<char>::empty() by {
        if i < w.len() {
            assert(ll2[i] == ll[i]);
        } else if i > w.len() {
            assert(ll2[i] == e[i - w.len() - 1]);
        }
    }
}

pub proof fn lemma_end_blocks_unmarked(
    ll: Seq<Seq<char>>,
    tr: Seq<(nat, nat)>,
    x: nat,
    cs: Seq<char>,
    wc: char,
)
    requires
        starter_ok(cs),
        wc == ' ' || wc == '\t',
        tidy(ll, cs),
        depth_from(Some(0), ll, cs) == Some(tr.len()),
        middles_followed(ll, cs),
        all_no_line_feed(ll),
    ensures
        tidy(end_blocks(ll, tr, x, cs, wc).0, cs),
        unmarked_lines(end_blocks(ll, tr, x, cs, wc).0, cs) == unmarked_lines(ll, cs),
    decreases tr.len(),
{
    if tr.len() > 0 && x <= tr.last().1 {
        let k = (tr.len() - 1) as nat;
        lemma_close_one(ll, k, tr.last().1, cs, wc);
        lemma_close_one_unmarked(ll, k, tr.last().1, cs, wc);
        let ll2 = without_blank_tail(ll).push(close_line(tr.last().1, cs, wc)) + empty_lines(blank_tail_len(ll));
        lemma_end_blocks_unmarked(ll2, tr.drop_last(), x, cs, wc);
    }
}


/// Taking out a bracket that was put in gives the comment back.
proof fn lemma_unmarked_inserted(x: Seq<char>, cs: Seq<char>)
    requires
        starter_ok(cs),
        is_comment(x, cs),
    ensures
        unmarked(insert_after_starter(x, cs, seq!['>']), cs) == Some(x),
        unmarked(insert_after_starter(x, cs, seq!['<', '>']), cs) == Some(x),
{
    lemma_inserted_brackets(x, cs);
    lemma_insert_after_starter(x, cs, seq!['>']);
    lemma_insert_after_starter(x, cs, seq!['<', '>']);
    lemma_comment_room(x, cs);
    let p = (lead_count(x) + cs.len()) as int;
    let o = insert_after_starter(x, cs, seq!['>']);
    assert(o.take(p) + o.skip(p + 1) =~= x);
    let m = insert_after_starter(x, cs, seq!['<', '>']);
    assert(m.take(p) + m.skip(p + 2) =~= x);
}

/// Lines split around index `i`.
pub proof fn lemma_unmarked_around(ll: Seq<Seq<char>>, i: int, cs: Seq<char>)
    requires
        0 <= i < ll.len(),
    ensures
        ll == ll.take(i) + seq![ll[i]] + ll.skip(i + 1),
        unmarked_lines(ll, cs) == unmarked_lines(ll.take(i), cs) + unmarked_lines(seq![ll[i]], cs)
            + unmarked_lines(ll.skip(i + 1), cs),
{
    assert(ll =~= ll.take(i) + seq![ll[i]] + ll.skip(i + 1));
    lemma_unmarked_concat(ll.take(i) + seq![ll[i]], ll.skip(i + 1), cs);
    lemma_unmarked_concat(ll.take(i), seq![ll[i]], cs);
}

pub proof fn lemma_unmarked_single(l: Seq<char>, cs: Seq<char>)
    ensures
        unmarked_lines(seq![l], cs) == (match unmarked(l, cs) {
            Some(u) => seq![u],
            None => Seq::<Seq<char>>::empty(),
        }),
{
    lemma_unmarked_push(Seq::<Seq<char>>::empty(), l, cs);
    assert(Seq::<Seq<char>>::empty().push(l) =~= seq![l]);
    if let Some(u) = unmarked(l, cs) {
        assert(Seq::<Seq<char>>::empty().push(u) =~= seq![u]);
    }
}

/// Adding `>` keeps the lines, brackets taken out, as they were.
pub proof fn lemma_add_open_plain_unmarked(ll: Seq<Seq<char>>, lc: int, cs: Seq<char>)
    requires
        starter_ok(cs),
        pending_comment(ll, lc, cs),
        !closes_before(ll, lc as nat, cs),
        tidy(ll, cs),
    ensures
        tidy(add_open_bracket(ll, lc as nat, cs), cs),
        unmarked_lines(add_open_bracket(ll, lc as nat, cs), cs) == unmarked_lines(ll, cs),
{
    let r = add_open_bracket(ll, lc as nat, cs);
    let op = insert_after_starter(ll[lc], cs, seq!['>']);
    assert(r == ll.update(lc, op));
    lemma_inserted_brackets(ll[lc], cs);
    lemma_insert_after_starter(ll[lc], cs, seq!['>']);
    assert forall|i: int| 0 <= i < r.len() implies bracket_next_to_starter(#[trigger] r[i], cs) by {
        if i != lc {
            assert(r[i] == ll[i]);
        }
    }
    lemma_unmarked_inserted(ll[lc], cs);
    lemma_unmarked_around(ll, lc, cs);
    lemma_unmarked_around(r, lc, cs);
    assert(r.take(lc) =~= ll.take(lc));
    assert(r.skip(lc + 1) =~= ll.skip(lc + 1));
    lemma_unmarked_single(op, cs);
    lemma_unmarked_single(ll[lc], cs);
    assert forall|i: int| 0 <= i < r.len() && bracket_of(#[trigger] r[i], cs) == Bracket::Close implies i >= 1
        && !all_blank(r[i - 1]) by {
        assert(i != lc);
        assert(r[i] == ll[i]);
        if i - 1 != lc {
            assert(r[i - 1] == ll[i - 1]);
        }
    }
    assert forall|i: int| 0 <= i < r.len() && all_blank(#[trigger] r[i]) implies r[i] == Seq::<char>::empty() by {
        assert(i != lc);
        assert(r[i] == ll[i]);
    }
}

/// After `<>` takes the place of a closing comment, every `>` or `<>`
/// comment still has its bracket right after the comment starter.
proof fn lemma_add_open_close_next(ll: Seq<Seq<char>>, lc: int, cs: Seq<char>)
    requires
        starter_ok(cs),
        pending_comment(ll, lc, cs),
        closes_before(ll, lc as nat, cs),
        middles_followed(ll, cs),
        tidy(ll, cs),
    ensures
        forall|i: int|
            0 <= i < add_open_bracket(ll, lc as nat, cs).len() ==> bracket_next_to_starter(
                #[trigger] add_open_bracket(ll, lc as nat, cs)[i],
                cs,
            ),
{
    lemma_closer_before(ll, lc, cs);
    lemma_add_open_close_shape(ll, lc, cs);
    let j = last_solid_before(ll, lc)->Some_0 as int;
    let n = ll.len() as int;
    let mid = insert_after_starter(ll[lc], cs, seq!['<', '>']);
    lemma_insert_after_starter(ll[lc], cs, seq!['<', '>']);
    let e1 = empty_lines((lc - j - 1) as nat);
    let e2 = empty_lines((n - lc - 1) as nat);
    let r = add_open_bracket(ll, lc as nat, cs);
    assert forall|i: int| 0 <= i < r.len() implies bracket_next_to_starter(#[trigger] r[i], cs) by {
        if i < j {
            assert(r[i] == ll[i]);
        } else if i == lc - 1 {
            assert(r[i] == mid);
        } else if i < lc - 1 {
            assert(r[i] == e1[i - j]);
            lemma_blank_plain(r[i], cs);
        } else {
            assert(r[i] == e2[i - lc]);
            lemma_blank_plain(r[i], cs);
        }
    }
}

/// Adding `<>` in place of a closing comment keeps the lines, brackets
/// taken out, as they were.
#[verifier::rlimit(60)]
pub proof fn lemma_add_open_close_unmarked(ll: Seq<Seq<char>>, lc: int, cs: Seq<char>)
    requires
        starter_ok(cs),
        pending_comment(ll, lc, cs),
        closes_before(ll, lc as nat, cs),
        middles_followed(ll, cs),
        tidy(ll, cs),
    ensures
        tidy(add_open_bracket(ll, lc as nat, cs), cs),
        unmarked_lines(add_open_bracket(ll, lc as nat, cs), cs) == unmarked_lines(ll, cs),
{
    lemma_add_open_close_next(ll, lc, cs);
    lemma_closer_before(ll, lc, cs);
    lemma_add_open_close_shape(ll, lc, cs);
    let j = last_solid_before(ll, lc)->Some_0 as int;
    let n = ll.len() as int;
    let mid = insert_after_starter(ll[lc], cs, seq!['<', '>']);
    lemma_inserted_brackets(ll[lc], cs);
    lemma_unmarked_inserted(ll[lc], cs);
    let a = ll.take(j);
    let e1 = empty_lines((lc - j - 1) as nat);
    let e2 = empty_lines((n - lc - 1) as nat);
    let r = add_open_bracket(ll, lc as nat, cs);
    // the lines before, as pieces
    assert(ll =~= a + seq![ll[j]] + e1 + seq![ll[lc]] + e2) by {
        assert forall|i: int| j < i < lc implies ll[i] == Seq::<char>::empty() by {
            assert(all_blank(ll[i]));
        }
        assert forall|i: int| lc < i < n implies ll[i] == Seq::<char>::empty() by {
            assert(all_blank(ll[i]));
        }
    }
    lemma_unmarked_single(ll[j], cs);
    lemma_unmarked_single(ll[lc], cs);
    lemma_unmarked_single(mid, cs);
    lemma_unmarked_concat(a + seq![ll[j]] + e1 + seq![ll[lc]], e2, cs);
    lemma_unmarked_concat(a + seq![ll[j]] + e1, seq![ll[lc]], cs);
    lemma_unmarked_concat(a + seq![ll[j]], e1, cs);
    lemma_unmarked_concat(a, seq![ll[j]], cs);
    lemma_unmarked_concat(a + e1 + seq![mid], e2, cs);
    lemma_unmarked_concat(a + e1, seq![mid], cs);
    lemma_unmarked_concat(a, e1, cs);
    assert(unmarked_lines(a, cs) + Seq::<Seq<char>>::empty() =~= unmarked_lines(a, cs));
    assert forall|i: int| 0 <= i < r.len() && bracket_of(#[trigger] r[i], cs) == Bracket::Close implies i >= 1
        && !all_blank(r[i - 1]) by {
        if i < j {
            assert(r[i] == ll[i]);
            assert(r[i - 1] == ll[i - 1]);
        } else if i == lc - 1 {
            assert(r[i] == mid);
        } else if i < lc - 1 {
            assert(r[i] == e1[i - j]);
            lemma_blank_plain(r[i], cs);
        } else {
            assert(r[i] == e2[i - lc]);
            lemma_blank_plain(r[i], cs);
        }
    }
    assert forall|i: int| 0 <= i < r.len() && all_blank(#[trigger] r[i]) implies r[i] == Seq::<char>::empty() by {
        if i < j {
            assert(r[i] == ll[i]);
        } else if i < lc - 1 {
            assert(r[i] == e1[i - j]);
        } else if i > lc - 1 {
            assert(r[i] == e2[i - lc]);
        }
    }
}


/// A line as bracket removal leaves it, blank ones emptied.
pub open spec fn emptied(l: Seq<char>) -> Seq<char> {
    if all_blank(l) {
        Seq::<char>::empty()
    } else {
        l
    }
}

/// Pushing a non-blank plain line.
proof fn lemma_push_plain(ll: Seq<Seq<char>>, l: Seq<char>, cs: Seq<char>)
    requires
        cs.len() > 0,
        tidy(ll, cs),
        bracket_of(l, cs) == Bracket::Plain,
    ensures
        tidy(ll.push(emptied(l)), cs),
        unmarked_lines(ll.push(emptied(l)), cs) == unmarked_lines(ll, cs).push(emptied(l)),
{
    if all_blank(l) {
        lemma_lead_count(l);
        lemma_blank_plain(Seq::<char>::empty(), cs);
    }
    lemma_tidy_push(ll, emptied(l), cs);
    lemma_unmarked_push(ll, emptied(l), cs);
}

/// The lines a step works on before it appends the new line.
pub open spec fn lines_before_push(st: AddState, line: Seq<char>, cs: Seq<char>, wc: char) -> Seq<Seq<char>> {
    let x = lead_count(line);
    if st.open.len() > 0 {
        let top = st.open.last();
        if st.unsure {
            if x > top.1 {
                add_open_bracket(st.lines, top.0, cs)
            } else {
                end_blocks(st.lines, st.open.drop_last(), x, cs, wc).0
            }
        } else if x > top.1 {
            st.lines
        } else {
            end_blocks(st.lines, st.open, x, cs, wc).0
        }
    } else {
        st.lines
    }
}

/// Every step of bracket adding keeps the lines tidy and, brackets taken
/// out, appends the new line with blank lines emptied.
proof fn lemma_add_step_unmarked(st: AddState, line: Seq<char>, cs: Seq<char>, wc: char)
    requires
        starter_ok(cs),
        wc == ' ' || wc == '\t',
        add_inv(st, cs),
        tidy(st.lines, cs),
        bracket_of(line, cs) == Bracket::Plain,
    ensures
        tidy(add_step(st, line, cs, wc).lines, cs),
        unmarked_lines(add_step(st, line, cs, wc).lines, cs) == unmarked_lines(st.lines, cs).push(emptied(line)),
{
    if all_blank(line) {
        lemma_push_plain(st.lines, line, cs);
    } else {
        let pre = lines_before_push(st, line, cs, wc);
        assert(add_step(st, line, cs, wc).lines == pre.push(line));
        let x = lead_count(line);
        if st.open.len() > 0 {
            let top = st.open.last();
            if st.unsure {
                if x > top.1 {
                    if closes_before(st.lines, top.0, cs) {
                        lemma_add_open_close_unmarked(st.lines, top.0 as int, cs);
                    } else {
                        lemma_add_open_plain_unmarked(st.lines, top.0 as int, cs);
                    }
                } else {
                    lemma_end_blocks_unmarked(st.lines, st.open.drop_last(), x, cs, wc);
                }
            } else if x > top.1 {
            } else {
                lemma_end_blocks_unmarked(st.lines, st.open, x, cs, wc);
            }
        }
        lemma_push_plain(pre, line, cs);
    }
}

pub proof fn lemma_add_prefix_unmarked(ls: Seq<Seq<char>>, n: nat, cs: Seq<char>, wc: char)
    requires
        n <= ls.len(),
        starter_ok(cs),
        wc == ' ' || wc == '\t',
        all_no_line_feed(ls),
        forall|i: int| 0 <= i < ls.len() ==> bracket_of(#[trigger] ls[i], cs) == Bracket::Plain,
    ensures
        tidy(add_prefix(ls, n, cs, wc).lines, cs),
        unmarked_lines(add_prefix(ls, n, cs, wc).lines, cs) == blanks_emptied(ls.take(n as int)),
    decreases n,
{
    if n == 0 {
        assert(blanks_emptied(ls.take(0)) =~= Seq::<Seq<char>>::empty());
    } else {
        lemma_add_prefix_unmarked(ls, (n - 1) as nat, cs, wc);
        lemma_add_prefix_inv(ls, (n - 1) as nat, cs, wc);
        assert(bracket_of(ls[n - 1], cs) == Bracket::Plain);
        lemma_add_step_unmarked(add_prefix(ls, (n - 1) as nat, cs, wc), ls[n - 1], cs, wc);
        assert(blanks_emptied(ls.take(n as int)) =~= blanks_emptied(ls.take(n - 1)).push(emptied(ls[n - 1])));
    }
}


/// Bracket adding changes no line but for its brackets: taking the added
/// `>` and `<>` out of the output and dropping the added `<` lines gives
/// back the lines of the bracketless text, with blank lines emptied; no
/// line is added or dropped otherwise, empty lines at the end included.
/// The output's blank lines are empty and each of its closing comments
/// follows a non-blank line. This holds when the bracketless text has no
/// bracket comments (no comment text there starts with `>` or `<`) and the
/// comment starter is non-blank, as every supported file type's is.
pub proof fn add_brackets_only_adds_brackets(s: Seq<char>, cs: Seq<char>)
    requires
        starter_ok(cs),
        remove_text(s, cs) is Ok,
        forall|i: int|
            0 <= i < lines_of(remove_text(s, cs)->Ok_0).len() ==> bracket_of(
                #[trigger] lines_of(remove_text(s, cs)->Ok_0)[i],
                cs,
            ) == Bracket::Plain,
    ensures
        ({
            let ls = lines_of(remove_text(s, cs)->Ok_0);
            let a = add_lines(ls, cs, indent_style(ls).0);
            &&& add_text(s, cs) == Ok::<Seq<char>, (nat, Problem)>(join_lines(a))
            &&& unmarked_lines(a, cs) == blanks_emptied(ls)
            &&& tidy(a, cs)
        }),
{
    let ls = lines_of(remove_text(s, cs)->Ok_0);
    let wc = indent_style(ls).0;
    lemma_indent_char(ls);
    lemma_lines_no_line_feed(remove_text(s, cs)->Ok_0);
    lemma_add_prefix_unmarked(ls, ls.len(), cs, wc);
    lemma_add_prefix_inv(ls, ls.len(), cs, wc);
    assert(ls.take(ls.len() as int) =~= ls);
    let st = add_prefix(ls, ls.len(), cs, wc);
    let open = if st.unsure && st.open.len() > 0 {
        st.open.drop_last()
    } else {
        st.open
    };
    lemma_end_blocks_unmarked(st.lines, open, 0, cs, wc);
}

} // verus!
