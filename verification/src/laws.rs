use vstd::prelude::*;
use crate::add::add_text;
use crate::brackets::remove_text;
use crate::comments::{Bracket, bracket_of, comment_text, comment_text_start};
use crate::format::{FmtState, Problem, format_lines, format_prefix, format_step, format_text, reindent};
use crate::lines::{all_blank, indent_style, is_blank, join_lines, lead_count, lemma_lead_count, lemma_lead_count_is, lemma_pieces, lines_of, pieces, run_of, strip_cr, trimmed};

verus! {

/// `after` is `before` (a line of the input) with only its indentation
/// changed: a blank line has become empty, any other line keeps its text
/// after the indentation.
pub open spec fn same_text(before: Seq<char>, after: Seq<char>) -> bool {
    if all_blank(before) {
        after == Seq::<char>::empty()
    } else {
        !all_blank(after) && trimmed(after) == trimmed(before)
    }
}

/// Line by line, `after` differs from `before` in indentation only.
pub open spec fn only_indentation_changed(before: Seq<Seq<char>>, after: Seq<Seq<char>>) -> bool {
    &&& after.len() == before.len()
    &&& forall|i: int| 0 <= i < before.len() ==> same_text(#[trigger] before[i], after[i])
}

pub proof fn lemma_indent_prefix(c: char, d: nat, x: Seq<char>)
    requires
        is_blank(c),
    ensures
        lead_count(run_of(c, d) + x) == d + lead_count(x),
        trimmed(run_of(c, d) + x) == trimmed(x),
        all_blank(run_of(c, d) + x) <==> all_blank(x),
{
    let y = run_of(c, d) + x;
    lemma_lead_count(x);
    let k = d + lead_count(x);
    assert forall|j: int| 0 <= j < k implies is_blank(#[trigger] y[j]) by {
        if j >= d {
            assert(y[j] == x[j - d]);
        }
    }
    if k < y.len() {
        assert(y[k as int] == x[lead_count(x) as int]);
    }
    lemma_lead_count_is(y, k as int);
    lemma_lead_count(y);
    assert(y.skip(k as int) =~= x.skip(lead_count(x) as int));
}

pub proof fn lemma_trimmed_trimmed(x: Seq<char>)
    requires
        !all_blank(x),
    ensures
        trimmed(trimmed(x)) == trimmed(x),
        !all_blank(trimmed(x)),
{
    lemma_lead_count(x);
    let t = trimmed(x);
    assert(t[0] == x[lead_count(x) as int]);
    lemma_lead_count_is(t, 0);
    lemma_lead_count(t);
    assert(t.skip(0) == t);
}

/// A bracket comment is never a blank line.
pub proof fn lemma_bracket_not_blank(line: Seq<char>, cs: Seq<char>)
    requires
        bracket_of(line, cs) != Bracket::Plain,
    ensures
        !all_blank(line),
{
    lemma_lead_count(line);
    if all_blank(line) {
        assert(trimmed(line).len() == 0);
        assert(comment_text_start(line, cs) == line.len());
        assert(comment_text(line, cs).len() == 0);
    }
}

proof fn lemma_reindent_keeps_text(
    ls: Seq<Seq<char>>,
    out: Seq<Seq<char>>,
    from: int,
    target: nat,
    wc: char,
)
    requires
        is_blank(wc),
        only_indentation_changed(ls, out),
    ensures
        only_indentation_changed(ls, reindent(out, from, target, wc)),
{
    let r = reindent(out, from, target, wc);
    assert forall|i: int| 0 <= i < ls.len() implies same_text(#[trigger] ls[i], r[i]) by {
        assert(same_text(ls[i], out[i]));
        if !all_blank(ls[i]) {
            lemma_indent_prefix(wc, (target - crate::format::lowest_lead(out, from, out.len() as int, target)) as nat, out[i]);
        } else {
            assert(all_blank(out[i]));
        }
    }
}

proof fn lemma_format_prefix_keeps_text(ls: Seq<Seq<char>>, n: nat, cs: Seq<char>, wc: char, tab: nat)
    requires
        n <= ls.len(),
        is_blank(wc),
    ensures
        format_prefix(ls, n, cs, wc, tab) matches Ok(st) ==> only_indentation_changed(ls.take(n as int), st.out),
    decreases n,
{
    if n > 0 {
        lemma_format_prefix_keeps_text(ls, (n - 1) as nat, cs, wc, tab);
        if let Ok(st) = format_prefix(ls, (n - 1) as nat, cs, wc, tab) {
            let line = ls[n - 1];
            let prev = ls.take(n - 1);
            assert(ls.take(n as int) == prev.push(line));
            if let Ok(st2) = format_step(st, line, (n - 1) as nat, cs, wc, tab) {
                let b = bracket_of(line, cs);
                if b != Bracket::Plain {
                    lemma_bracket_not_blank(line, cs);
                }
                let out1 = if b == Bracket::Middle || b == Bracket::Close {
                    let top = st.open.last();
                    lemma_reindent_keeps_text(prev, st.out, top.0 + 1 as int, top.1 + tab, wc);
                    lemma_trimmed_trimmed(line);
                    lemma_indent_prefix(wc, top.1, trimmed(line));
                    reindent(st.out, top.0 + 1 as int, top.1 + tab, wc)
                } else {
                    st.out
                };
                assert(st2.out == out1.push(st2.out.last()));
                assert(same_text(line, st2.out.last()));
                assert forall|i: int| 0 <= i < n implies same_text(#[trigger] ls.take(n as int)[i], st2.out[i]) by {
                    if i < n - 1 {
                        assert(ls.take(n as int)[i] == prev[i]);
                    }
                }
            }
        }
    }
}

/// Formatting changes nothing but indentation: on success there is one
/// formatted line per input line, blank lines have become empty, and every
/// other line keeps its text after the indentation. The formatted text is
/// these lines, each ended by '\n', without the last '\n' when the input
/// did not end with one.
pub proof fn format_only_changes_indentation(s: Seq<char>, cs: Seq<char>)
    ensures
        format_text(s, cs) is Ok ==> (format_lines(lines_of(s), cs) matches Ok(out)
            && only_indentation_changed(lines_of(s), out)),
{
    let ls = lines_of(s);
    let (wc, tab) = indent_style(ls);
    lemma_indent_style_blank(ls);
    lemma_format_prefix_keeps_text(ls, ls.len(), cs, wc, tab);
    assert(ls.take(ls.len() as int) == ls);
}

pub proof fn lemma_indent_style_blank(ls: Seq<Seq<char>>)
    ensures
        is_blank(indent_style(ls).0),
    decreases ls.len(),
{
    if ls.len() > 0 {
        lemma_indent_style_blank(ls.drop_first());
    }
}

/// The lines with blank ones emptied.
pub open spec fn blanks_emptied(ls: Seq<Seq<char>>) -> Seq<Seq<char>> {
    ls.map_values(|l: Seq<char>| if all_blank(l) { Seq::<char>::empty() } else { l })
}

proof fn lemma_plain_prefix(ls: Seq<Seq<char>>, n: nat, cs: Seq<char>, wc: char, tab: nat)
    requires
        n <= ls.len(),
        forall|i: int| 0 <= i < ls.len() ==> bracket_of(#[trigger] ls[i], cs) == Bracket::Plain,
    ensures
        format_prefix(ls, n, cs, wc, tab) == Ok::<FmtState, (nat, Problem)>(
            FmtState { out: blanks_emptied(ls.take(n as int)), open: Seq::empty() },
        ),
    decreases n,
{
    if n > 0 {
        lemma_plain_prefix(ls, (n - 1) as nat, cs, wc, tab);
        assert(bracket_of(ls[n - 1], cs) == Bracket::Plain);
        assert(blanks_emptied(ls.take(n as int)) =~= blanks_emptied(ls.take(n - 1)).push(
            if all_blank(ls[n - 1]) { Seq::<char>::empty() } else { ls[n - 1] },
        ));
    } else {
        assert(blanks_emptied(ls.take(0)) =~= Seq::<Seq<char>>::empty());
    }
}

/// A text without bracket comments is left as it is, except that its blank
/// lines become empty.
pub proof fn format_without_brackets_changes_nothing(s: Seq<char>, cs: Seq<char>)
    requires
        forall|i: int| 0 <= i < lines_of(s).len() ==> bracket_of(#[trigger] lines_of(s)[i], cs) == Bracket::Plain,
    ensures
        format_lines(lines_of(s), cs) == Ok::<Seq<Seq<char>>, (nat, Problem)>(blanks_emptied(lines_of(s))),
{
    let ls = lines_of(s);
    let (wc, tab) = indent_style(ls);
    lemma_plain_prefix(ls, ls.len(), cs, wc, tab);
    assert(ls.take(ls.len() as int) == ls);
}

/// Removing brackets fails exactly when formatting fails, with the same
/// line and problem.
pub proof fn remove_fails_as_format_fails(s: Seq<char>, cs: Seq<char>)
    ensures
        remove_text(s, cs) is Err <==> format_text(s, cs) is Err,
        format_text(s, cs) is Err ==> format_text(s, cs)->Err_0 == remove_text(s, cs)->Err_0,
{
}

/// Adding brackets fails exactly when formatting fails, with the same line
/// and problem.
pub proof fn add_fails_as_format_fails(s: Seq<char>, cs: Seq<char>)
    ensures
        add_text(s, cs) is Err <==> format_text(s, cs) is Err,
        format_text(s, cs) is Err ==> format_text(s, cs)->Err_0 == add_text(s, cs)->Err_0,
{
}


/// The non-blank characters of a text, in order.
pub open spec fn solid(s: Seq<char>) -> Seq<char>
    decreases s.len(),
{
    if s.len() == 0 {
        s
    } else if is_blank(s.last()) {
        solid(s.drop_last())
    } else {
        solid(s.drop_last()).push(s.last())
    }
}

/// The non-blank characters of all the lines, in order.
pub open spec fn solid_all(ls: Seq<Seq<char>>) -> Seq<char>
    decreases ls.len(),
{
    if ls.len() == 0 {
        Seq::empty()
    } else {
        solid_all(ls.drop_last()) + solid(ls.last())
    }
}

proof fn lemma_solid_add(a: Seq<char>, b: Seq<char>)
    ensures
        solid(a + b) == solid(a) + solid(b),
    decreases b.len(),
{
    if b.len() == 0 {
        assert(a + b =~= a);
        assert(solid(a) + solid(b) =~= solid(a));
    } else {
        lemma_solid_add(a, b.drop_last());
        assert((a + b).drop_last() =~= a + b.drop_last());
        assert((a + b).last() == b.last());
        if !is_blank(b.last()) {
            assert(solid(a) + solid(b.drop_last()).push(b.last()) =~= (solid(a) + solid(b.drop_last())).push(b.last()));
        }
    }
}

proof fn lemma_solid_blank(a: Seq<char>)
    requires
        all_blank(a),
    ensures
        solid(a) == Seq::<char>::empty(),
    decreases a.len(),
{
    if a.len() > 0 {
        assert(is_blank(a[a.len() - 1]));
        assert forall|j: int| 0 <= j < a.drop_last().len() implies is_blank(#[trigger] a.drop_last()[j]) by {
            assert(a.drop_last()[j] == a[j]);
        }
        lemma_solid_blank(a.drop_last());
    }
}

/// Indentation holds no non-blank character.
proof fn lemma_solid_trimmed(x: Seq<char>)
    ensures
        solid(x) == solid(trimmed(x)),
{
    lemma_lead_count(x);
    let k = lead_count(x) as int;
    assert(x =~= x.take(k) + trimmed(x));
    assert forall|j: int| 0 <= j < x.take(k).len() implies is_blank(#[trigger] x.take(k)[j]) by {
        assert(x.take(k)[j] == x[j]);
    }
    lemma_solid_blank(x.take(k));
    lemma_solid_add(x.take(k), trimmed(x));
    assert(Seq::<char>::empty() + solid(trimmed(x)) =~= solid(trimmed(x)));
}

proof fn lemma_solid_single(c: char)
    ensures
        solid(seq![c]) == (if is_blank(c) {
            Seq::<char>::empty()
        } else {
            seq![c]
        }),
{
    let e = seq![c].drop_last();
    assert(e =~= Seq::<char>::empty());
    assert(seq![c].last() == c);
    assert(solid(e) == e);
    assert(Seq::<char>::empty().push(c) =~= seq![c]);
}

proof fn lemma_solid_all_pieces(s: Seq<char>)
    ensures
        solid_all(pieces(s)) == solid(s),
    decreases s.len(),
{
    if s.len() == 0 {
        let p: Seq<Seq<char>> = seq![seq![]];
        assert(pieces(s) == p);
        assert(p.drop_last() =~= Seq::<Seq<char>>::empty());
        assert(solid(p.last()) == p.last());
        assert(solid_all(p.drop_last()) == Seq::<char>::empty());
        assert(solid_all(p) == solid_all(p.drop_last()) + solid(p.last()));
        assert(solid(s) == s);
        assert(solid_all(p) =~= solid(s));
    } else {
        let t = s.drop_last();
        let c = s.last();
        lemma_solid_all_pieces(t);
        lemma_pieces(t);
        let p = pieces(t);
        assert(s =~= t + seq![c]);
        lemma_solid_add(t, seq![c]);
        lemma_solid_single(c);
        if c == '\n' {
            assert(pieces(s) == p.push(seq![]));
            assert(pieces(s).drop_last() =~= p);
            assert(solid(t) + Seq::<char>::empty() =~= solid(t));
        } else {
            let q = p.update(p.len() - 1, p.last().push(c));
            assert(pieces(s) == q);
            assert(q.drop_last() =~= p.drop_last());
            assert(p.last().push(c) =~= p.last() + seq![c]);
            lemma_solid_add(p.last(), seq![c]);
            assert(solid_all(p) == solid_all(p.drop_last()) + solid(p.last()));
            assert(solid_all(q) =~= solid_all(p) + solid(seq![c]));
        }
    }
}

proof fn lemma_solid_all_strip(ls: Seq<Seq<char>>)
    ensures
        solid_all(ls.map_values(|l: Seq<char>| strip_cr(l))) == solid_all(ls),
    decreases ls.len(),
{
    let m = ls.map_values(|l: Seq<char>| strip_cr(l));
    if ls.len() > 0 {
        lemma_solid_all_strip(ls.drop_last());
        assert(m.drop_last() =~= ls.drop_last().map_values(|l: Seq<char>| strip_cr(l)));
        let l = ls.last();
        if l.len() > 0 && l.last() == '\r' {
            assert(solid(l) == solid(l.drop_last()));
        }
    } else {
        assert(m =~= Seq::<Seq<char>>::empty());
    }
}

/// The lines of a text hold its non-blank characters.
proof fn lemma_solid_lines(s: Seq<char>)
    ensures
        solid_all(lines_of(s)) == solid(s),
{
    lemma_pieces(s);
    lemma_solid_all_pieces(s);
    let p = pieces(s);
    lemma_solid_all_strip(p.drop_last());
    let ended = p.drop_last().map_values(|l: Seq<char>| strip_cr(l));
    if p.last().len() == 0 {
        assert(solid(p.last()) == Seq::<char>::empty());
        assert(solid_all(ended) + Seq::<char>::empty() =~= solid_all(ended));
    } else {
        assert(ended.push(p.last()).drop_last() =~= ended);
    }
}

proof fn lemma_solid_join(ls: Seq<Seq<char>>)
    ensures
        solid(join_lines(ls)) == solid_all(ls),
    decreases ls.len(),
{
    if ls.len() > 0 {
        lemma_solid_join(ls.drop_last());
        let a = join_lines(ls.drop_last());
        lemma_solid_add(a + ls.last(), seq!['\n']);
        lemma_solid_add(a, ls.last());
        lemma_solid_single('\n');
        assert(solid(a) + solid(ls.last()) + Seq::<char>::empty() =~= solid(a) + solid(ls.last()));
    }
}

proof fn lemma_solid_all_same(a: Seq<Seq<char>>, b: Seq<Seq<char>>)
    requires
        a.len() == b.len(),
        forall|i: int| 0 <= i < a.len() ==> solid(#[trigger] a[i]) == solid(b[i]),
    ensures
        solid_all(a) == solid_all(b),
    decreases a.len(),
{
    if a.len() > 0 {
        assert forall|i: int| 0 <= i < a.drop_last().len() implies solid(#[trigger] a.drop_last()[i]) == solid(b.drop_last()[i]) by {
            assert(a.drop_last()[i] == a[i]);
            assert(b.drop_last()[i] == b[i]);
        }
        lemma_solid_all_same(a.drop_last(), b.drop_last());
        assert(solid(a.last()) == solid(b[b.len() - 1]));
    }
}

/// Formatting changes only whitespace: the formatted text holds exactly the
/// non-blank characters of the input, in the same order.
pub proof fn format_keeps_non_blank_characters(s: Seq<char>, cs: Seq<char>)
    ensures
        format_text(s, cs) matches Ok(t) ==> solid(t) == solid(s),
{
    format_only_changes_indentation(s, cs);
    if let Ok(t) = format_text(s, cs) {
        let ls = lines_of(s);
        let out = format_lines(ls, cs)->Ok_0;
        assert forall|i: int| 0 <= i < ls.len() implies solid(#[trigger] ls[i]) == solid(out[i]) by {
            assert(same_text(ls[i], out[i]));
            lemma_solid_trimmed(ls[i]);
            lemma_solid_trimmed(out[i]);
            if all_blank(ls[i]) {
                lemma_solid_blank(ls[i]);
                lemma_solid_blank(out[i]);
            }
        }
        lemma_solid_all_same(ls, out);
        lemma_solid_lines(s);
        lemma_solid_join(out);
        let j = join_lines(out);
        if j.len() > 0 {
            assert(j.last() == '\n');
        }
    }
}

} // verus!
