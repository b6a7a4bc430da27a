use vstd::prelude::*;
use crate::add::{add_lines, add_text};
use crate::balance::{all_no_line_feed, lemma_add_lines_balanced, lemma_comment_room, lemma_indent_char, lemma_lines_no_line_feed, lemma_lines_of_join, lemma_starts_with_cs, starter_ok};
use crate::brackets::{remove_text, unbracket_line, unbracket_lines};
use crate::comments::{Bracket, bracket_of, comment_text, comment_text_start};
use crate::format::{Problem, format_text};
use crate::laws::{blanks_emptied, format_without_brackets_changes_nothing};
use crate::lines::{all_blank, indent_style, is_blank, join_lines, lead_count, lemma_lead_count, lines_of, run_of, strip_cr, starts_with, trimmed};
use crate::removal::{lemma_starter_text, lemma_unbracket_no_line_feed};
use crate::unmarked::{add_brackets_only_adds_brackets, bracket_next_to_starter, tidy, unmarked, unmarked_lines};

verus! {

/// No '\r' comes right before a '\n': every line, as `str::lines` reads it,
/// is exactly what lies between the line feeds.
pub open spec fn no_cr_before_lf(t: Seq<char>) -> bool {
    forall|k: int| 0 <= k < t.len() - 1 && #[trigger] t[k] == '\r' ==> t[k + 1] != '\n'
}

/// Every line is indented with the character `c` only.
pub open spec fn indented_only_with(ls: Seq<Seq<char>>, c: char) -> bool {
    forall|i: int, j: int| 0 <= i < ls.len() && 0 <= j < lead_count(ls[i]) ==> #[trigger] ls[i][j] == c
}

/// Lines written out with no '\r' before a '\n' keep their last character.
proof fn lemma_join_no_cr(u: Seq<Seq<char>>)
    requires
        no_cr_before_lf(join_lines(u)),
    ensures
        forall|i: int| 0 <= i < u.len() ==> strip_cr(#[trigger] u[i]) == u[i],
    decreases u.len(),
{
    if u.len() > 0 {
        let u0 = u.drop_last();
        let x = join_lines(u0);
        let t = join_lines(u);
        assert(t == x + u.last() + seq!['\n']);
        assert forall|k: int| 0 <= k < x.len() - 1 && #[trigger] x[k] == '\r' implies x[k + 1] != '\n' by {
            assert(t[k] == x[k]);
            assert(t[k + 1] == x[k + 1]);
        }
        lemma_join_no_cr(u0);
        let l = u.last();
        if l.len() > 0 {
            let p = x.len() + l.len() - 1;
            assert(t[p] == l.last());
            assert(t[p + 1] == '\n');
        }
        assert forall|i: int| 0 <= i < u.len() implies strip_cr(#[trigger] u[i]) == u[i] by {
            if i < u0.len() {
                assert(u[i] == u0[i]);
            }
        }
    }
}

/// Lines without line feeds, written out with no '\r' before a '\n', read
/// back as they were.
proof fn lemma_read_back(u: Seq<Seq<char>>)
    requires
        all_no_line_feed(u),
        no_cr_before_lf(join_lines(u)),
    ensures
        lines_of(join_lines(u)) == u,
{
    lemma_lines_of_join(u);
    lemma_join_no_cr(u);
    assert(u.map_values(|l: Seq<char>| strip_cr(l)) =~= u);
}

/// Removing brackets leaves blank lines empty.
proof fn lemma_unbracket_blank_empty(gs: Seq<Seq<char>>, cs: Seq<char>, wc: char)
    requires
        starter_ok(cs),
        is_blank(wc),
    ensures
        forall|i: int|
            0 <= i < unbracket_lines(gs, cs, wc).len() && all_blank(#[trigger] unbracket_lines(gs, cs, wc)[i])
                ==> unbracket_lines(gs, cs, wc)[i] == Seq::<char>::empty(),
    decreases gs.len(),
{
    if gs.len() > 0 {
        let g0 = gs.drop_last();
        lemma_unbracket_blank_empty(g0, cs, wc);
        let u = unbracket_lines(g0, cs, wc);
        let g = gs.last();
        if let Some(x) = unbracket_line(g, cs, wc) {
            if bracket_of(g, cs) == Bracket::Open {
                lemma_starter_text(cs, comment_text(g, cs).skip(1), wc, lead_count(g));
                assert(cs.len() > 0);
            } else if bracket_of(g, cs) == Bracket::Middle {
                lemma_starter_text(cs, comment_text(g, cs).skip(2), wc, lead_count(g));
                assert(cs.len() > 0);
            }
            assert(all_blank(x) ==> x == Seq::<char>::empty());
            assert forall|i: int| 0 <= i < u.push(x).len() && all_blank(#[trigger] u.push(x)[i]) implies u.push(x)[i]
                == Seq::<char>::empty() by {
                if i < u.len() {
                    assert(u.push(x)[i] == u[i]);
                }
            }
        }
    }
}

/// Lines without bracket comments, blank ones empty, lose nothing when
/// their brackets are removed.
proof fn lemma_unbracket_plain(ls: Seq<Seq<char>>, cs: Seq<char>, wc: char)
    requires
        forall|i: int| 0 <= i < ls.len() ==> bracket_of(#[trigger] ls[i], cs) == Bracket::Plain,
        forall|i: int| 0 <= i < ls.len() && all_blank(#[trigger] ls[i]) ==> ls[i] == Seq::<char>::empty(),
    ensures
        unbracket_lines(ls, cs, wc) == ls,
    decreases ls.len(),
{
    if ls.len() > 0 {
        let l0 = ls.drop_last();
        assert forall|i: int| 0 <= i < l0.len() implies bracket_of(#[trigger] l0[i], cs) == Bracket::Plain by {
            assert(l0[i] == ls[i]);
        }
        assert forall|i: int| 0 <= i < l0.len() && all_blank(#[trigger] l0[i]) implies l0[i] == Seq::<char>::empty() by {
            assert(l0[i] == ls[i]);
        }
        lemma_unbracket_plain(l0, cs, wc);
        assert(bracket_of(ls[ls.len() - 1], cs) == Bracket::Plain);
        assert(all_blank(ls[ls.len() - 1]) ==> ls[ls.len() - 1] == Seq::<char>::empty());
        assert(l0.push(ls.last()) =~= ls);
    }
}

/// On a tidy line indented with `wc` only, removing the bracket as bracket
/// removal does and taking it out where it was put give the same line.
proof fn lemma_unbracket_line_is_unmarked(l: Seq<char>, cs: Seq<char>, wc: char)
    requires
        starter_ok(cs),
        bracket_next_to_starter(l, cs),
        all_blank(l) ==> l == Seq::<char>::empty(),
        forall|j: int| 0 <= j < lead_count(l) ==> #[trigger] l[j] == wc,
    ensures
        unbracket_line(l, cs, wc) == unmarked(l, cs),
{
    let b = bracket_of(l, cs);
    if b == Bracket::Open || b == Bracket::Middle {
        let k = lead_count(l);
        let q = comment_text_start(l, cs) as int;
        let m: int = if b == Bracket::Open { 1 } else { 2 };
        lemma_lead_count(l);
        lemma_comment_room(l, cs);
        lemma_starts_with_cs(trimmed(l), cs);
        let ct = comment_text(l, cs);
        assert(starts_with(ct, seq!['>']) || starts_with(ct, seq!['<', '>']));
        assert(m <= ct.len());
        assert(l.take(q) =~= run_of(wc, k) + cs) by {
            assert forall|j: int| k <= j < q implies l[j] == cs[j - k] by {
                assert(trimmed(l)[j - k] == l[j]);
            }
        }
        assert(ct.skip(m) =~= l.skip(q + m));
        assert(run_of(wc, k) + cs + ct.skip(m) =~= l.take(q) + l.skip(q + m));
    }
}

proof fn lemma_unbracket_is_unmarked(a: Seq<Seq<char>>, cs: Seq<char>, wc: char)
    requires
        starter_ok(cs),
        tidy(a, cs),
        indented_only_with(a, wc),
    ensures
        unbracket_lines(a, cs, wc) == unmarked_lines(a, cs),
    decreases a.len(),
{
    if a.len() > 0 {
        let a0 = a.drop_last();
        assert forall|i: int| 0 <= i < a0.len() && all_blank(#[trigger] a0[i]) implies a0[i] == Seq::<char>::empty() by {
            assert(a0[i] == a[i]);
        }
        assert forall|i: int| 0 <= i < a0.len() && bracket_of(#[trigger] a0[i], cs) == Bracket::Close implies i >= 1
            && !all_blank(a0[i - 1]) by {
            assert(a0[i] == a[i]);
            assert(a0[i - 1] == a[i - 1]);
        }
        assert forall|i: int| 0 <= i < a0.len() implies bracket_next_to_starter(#[trigger] a0[i], cs) by {
            assert(a0[i] == a[i]);
        }
        assert forall|i: int, j: int| 0 <= i < a0.len() && 0 <= j < lead_count(a0[i]) implies #[trigger] a0[i][j]
            == wc by {
            assert(a0[i] == a[i]);
            assert(a[i][j] == wc);
        }
        lemma_unbracket_is_unmarked(a0, cs, wc);
        let l = a.last();
        assert(l == a[a.len() - 1]);
        assert(bracket_next_to_starter(a[a.len() - 1], cs));
        assert forall|j: int| 0 <= j < lead_count(l) implies #[trigger] l[j] == wc by {
            assert(a[a.len() - 1][j] == wc);
        }
        lemma_unbracket_line_is_unmarked(l, cs, wc);
    }
}

/// What the facts about the bracketless text `r` that removing brackets
/// from `s` gives: its lines are the unbracketed lines themselves, written
/// out, and their blank lines are empty.
proof fn lemma_removed_lines(s: Seq<char>, cs: Seq<char>)
    requires
        starter_ok(cs),
        remove_text(s, cs) is Ok,
        no_cr_before_lf(remove_text(s, cs)->Ok_0),
    ensures
        ({
            let r = remove_text(s, cs)->Ok_0;
            let u = lines_of(r);
            &&& r == join_lines(u)
            &&& all_no_line_feed(u)
            &&& forall|i: int| 0 <= i < u.len() && all_blank(#[trigger] u[i]) ==> u[i] == Seq::<char>::empty()
        }),
{
    let f = format_text(s, cs)->Ok_0;
    let g = lines_of(f);
    let wc = indent_style(g).0;
    lemma_indent_char(g);
    lemma_lines_no_line_feed(f);
    let u = unbracket_lines(g, cs, wc);
    assert(remove_text(s, cs)->Ok_0 == join_lines(u));
    lemma_unbracket_no_line_feed(g, cs, wc);
    lemma_unbracket_blank_empty(g, cs, wc);
    lemma_read_back(u);
}

/// Removing brackets from a text that removing brackets gave, and that
/// has no bracket comments left (no comment text there starts with `>` or
/// `<`), changes nothing. This holds when the comment starter is non-blank,
/// as every supported file type's is, and no '\r' there comes right before
/// a '\n' (reading the lines back would drop it).
pub proof fn remove_brackets_leaves_bracketless_text(s: Seq<char>, cs: Seq<char>)
    requires
        starter_ok(cs),
        remove_text(s, cs) is Ok,
        no_cr_before_lf(remove_text(s, cs)->Ok_0),
        forall|i: int|
            0 <= i < lines_of(remove_text(s, cs)->Ok_0).len() ==> bracket_of(
                #[trigger] lines_of(remove_text(s, cs)->Ok_0)[i],
                cs,
            ) == Bracket::Plain,
    ensures
        remove_text(remove_text(s, cs)->Ok_0, cs) == remove_text(s, cs),
{
    let r = remove_text(s, cs)->Ok_0;
    lemma_removed_lines(s, cs);
    let u = lines_of(r);
    format_without_brackets_changes_nothing(r, cs);
    assert(blanks_emptied(u) =~= u);
    if u.len() > 0 {
        assert(join_lines(u) == join_lines(u.drop_last()) + u.last() + seq!['\n']);
    }
    assert(format_text(r, cs) == Ok::<Seq<char>, (nat, Problem)>(r));
    lemma_unbracket_plain(u, cs, indent_style(u).0);
}

/// Removing brackets undoes adding them, and adding brackets again adds
/// none: when the bracketless text `r` of `s` has no bracket comments (no
/// comment text there starts with `>` or `<`) and the text `b` that adding
/// brackets gives is already formatted and indents its lines with one
/// character only, removing the brackets of `b` gives `r` and adding
/// brackets to `b` gives `b`. This holds when the comment starter is
/// non-blank, as every supported file type's is, and no '\r' in `r` or `b`
/// comes right before a '\n'.
pub proof fn remove_brackets_undoes_adding(s: Seq<char>, cs: Seq<char>)
    requires
        starter_ok(cs),
        remove_text(s, cs) is Ok,
        no_cr_before_lf(remove_text(s, cs)->Ok_0),
        forall|i: int|
            0 <= i < lines_of(remove_text(s, cs)->Ok_0).len() ==> bracket_of(
                #[trigger] lines_of(remove_text(s, cs)->Ok_0)[i],
                cs,
            ) == Bracket::Plain,
        no_cr_before_lf(add_text(s, cs)->Ok_0),
        format_text(add_text(s, cs)->Ok_0, cs) == add_text(s, cs),
        indented_only_with(lines_of(add_text(s, cs)->Ok_0), indent_style(lines_of(add_text(s, cs)->Ok_0)).0),
    ensures
        remove_text(add_text(s, cs)->Ok_0, cs) == remove_text(s, cs),
        add_text(add_text(s, cs)->Ok_0, cs) == add_text(s, cs),
{
    let r = remove_text(s, cs)->Ok_0;
    lemma_removed_lines(s, cs);
    let u = lines_of(r);
    add_brackets_only_adds_brackets(s, cs);
    let wc = indent_style(u).0;
    lemma_indent_char(u);
    let a = add_lines(u, cs, wc);
    let b = add_text(s, cs)->Ok_0;
    assert(b == join_lines(a));
    lemma_add_lines_balanced(u, cs, wc);
    lemma_read_back(a);
    let wcb = indent_style(a).0;
    lemma_unbracket_is_unmarked(a, cs, wcb);
    assert(blanks_emptied(u) =~= u);
    assert(remove_text(b, cs) == Ok::<Seq<char>, (nat, Problem)>(join_lines(u)));
}

} // verus!
