use vstd::prelude::*;
use crate::comments::{Bracket, bracket_of, comment_text, comment_text_start, is_comment};
use crate::brackets::remove_text;
use crate::format::{format_lines, format_prefix, format_text};
use crate::add::{AddState, add_lines, add_prefix, add_text, add_step, pass_new, add_open_bracket, close_line, closes_before, end_blocks, insert_after_starter, last_solid_before, pop_line};
use crate::lines::{all_blank, indent_style, is_blank, join_lines, lead_count, lemma_lead_count, lemma_lead_count_is, lemma_pieces, lines_of, pieces, starts_with, strip_cr, trimmed, blank_tail_len, without_blank_tail, lemma_blank_tail, empty_lines};

verus! {

/// How many blocks are open after a line, starting from `d` open blocks
/// (`None`: a closing comment with no block open).
pub open spec fn depth_step(d: Option<nat>, line: Seq<char>, cs: Seq<char>) -> Option<nat> {
    match d {
        None => None,
        Some(k) => match bracket_of(line, cs) {
            Bracket::Open => Some(k + 1),
            Bracket::Middle => if k > 0 {
                Some(k)
            } else {
                None
            },
            Bracket::Close => if k > 0 {
                Some((k - 1) as nat)
            } else {
                None
            },
            Bracket::Plain => Some(k),
        },
    }
}

/// How many blocks are open after the lines, starting from `d` open blocks.
pub open spec fn depth_from(d: Option<nat>, ls: Seq<Seq<char>>, cs: Seq<char>) -> Option<nat>
    decreases ls.len(),
{
    if ls.len() == 0 {
        d
    } else {
        depth_step(depth_from(d, ls.drop_last(), cs), ls.last(), cs)
    }
}

pub proof fn lemma_depth_concat(d: Option<nat>, a: Seq<Seq<char>>, b: Seq<Seq<char>>, cs: Seq<char>)
    ensures
        depth_from(d, a + b, cs) == depth_from(depth_from(d, a, cs), b, cs),
    decreases b.len(),
{
    if b.len() == 0 {
        assert(a + b =~= a);
    } else {
        lemma_depth_concat(d, a, b.drop_last(), cs);
        assert((a + b).drop_last() =~= a + b.drop_last());
        assert((a + b).last() == b.last());
    }
}

pub proof fn lemma_depth_push(d: Option<nat>, a: Seq<Seq<char>>, l: Seq<char>, cs: Seq<char>)
    ensures
        depth_from(d, a.push(l), cs) == depth_step(depth_from(d, a, cs), l, cs),
{
    assert(a.push(l).drop_last() =~= a);
}

/// Blank lines are never bracket comments (with a non-empty comment starter).
pub proof fn lemma_blank_plain(l: Seq<char>, cs: Seq<char>)
    requires
        all_blank(l),
        cs.len() > 0,
    ensures
        bracket_of(l, cs) == Bracket::Plain,
{
    lemma_lead_count(l);
    assert(trimmed(l).len() == 0);
}

pub proof fn lemma_depth_blanks(d: Option<nat>, ls: Seq<Seq<char>>, cs: Seq<char>)
    requires
        cs.len() > 0,
        forall|i: int| 0 <= i < ls.len() ==> all_blank(#[trigger] ls[i]),
    ensures
        depth_from(d, ls, cs) == d,
    decreases ls.len(),
{
    if ls.len() > 0 {
        assert(all_blank(ls[ls.len() - 1]));
        lemma_blank_plain(ls.last(), cs);
        assert forall|i: int| 0 <= i < ls.drop_last().len() implies all_blank(#[trigger] ls.drop_last()[i]) by {
            assert(ls.drop_last()[i] == ls[i]);
        }
        lemma_depth_blanks(d, ls.drop_last(), cs);
    }
}

proof fn lemma_depth_format_prefix(ls: Seq<Seq<char>>, n: nat, cs: Seq<char>, wc: char, tab: nat)
    requires
        n <= ls.len(),
        depth_from(Some(0), ls.take(n as int), cs) is Some,
    ensures
        format_prefix(ls, n, cs, wc, tab) is Ok,
        format_prefix(ls, n, cs, wc, tab)->Ok_0.open.len() == depth_from(Some(0), ls.take(n as int), cs)->Some_0,
    decreases n,
{
    if n > 0 {
        let m = (n - 1) as nat;
        assert(ls.take(n as int).drop_last() =~= ls.take(m as int));
        assert(ls.take(n as int).last() == ls[m as int]);
        lemma_depth_format_prefix(ls, m, cs, wc, tab);
    }
}

/// The formatter accepts a list of lines whose bracket comments all match.
pub proof fn lemma_depth_zero_formats(ls: Seq<Seq<char>>, cs: Seq<char>)
    requires
        depth_from(Some(0), ls, cs) == Some(0nat),
    ensures
        format_lines(ls, cs) is Ok,
{
    let (wc, tab) = indent_style(ls);
    assert(ls.take(ls.len() as int) =~= ls);
    lemma_depth_format_prefix(ls, ls.len(), cs, wc, tab);
}


/// A comment starter made of one or more non-blank characters (as every
/// supported file type has).
pub open spec fn starter_ok(cs: Seq<char>) -> bool {
    cs.len() > 0 && forall|i: int| 0 <= i < cs.len() ==> !is_blank(#[trigger] cs[i])
}

/// A line that holds no line feed.
pub open spec fn no_line_feed(l: Seq<char>) -> bool {
    forall|i: int| 0 <= i < l.len() ==> #[trigger] l[i] != '\n'
}

pub proof fn lemma_starts_with_cs(t: Seq<char>, cs: Seq<char>)
    requires
        starts_with(t, cs),
    ensures
        forall|i: int| 0 <= i < cs.len() ==> t[i] == #[trigger] cs[i],
{
    assert forall|i: int| 0 <= i < cs.len() implies t[i] == #[trigger] cs[i] by {
        assert(t.take(cs.len() as int)[i] == t[i]);
    }
}

/// Putting `mark` (not starting with a space) right after the comment
/// starter keeps the indentation and makes `mark` the start of the comment
/// text.
pub proof fn lemma_insert_after_starter(line: Seq<char>, cs: Seq<char>, mark: Seq<char>)
    requires
        starter_ok(cs),
        is_comment(line, cs),
        mark.len() > 0,
        mark[0] != ' ',
    ensures
        ({
            let r = insert_after_starter(line, cs, mark);
            &&& lead_count(r) == lead_count(line)
            &&& !all_blank(r)
            &&& is_comment(r, cs)
            &&& comment_text_start(r, cs) == lead_count(line) + cs.len()
            &&& comment_text(r, cs) == mark + line.skip((lead_count(line) + cs.len()) as int)
        }),
{
    let r = insert_after_starter(line, cs, mark);
    let k = lead_count(line);
    let p = k + cs.len();
    lemma_lead_count(line);
    let t = trimmed(line);
    lemma_starts_with_cs(t, cs);
    assert(t[0] == line[k as int]);
    assert(p <= line.len());
    assert forall|j: int| 0 <= j < k implies is_blank(#[trigger] r[j]) by {
        assert(r[j] == line[j]);
    }
    assert(r[k as int] == line[k as int]);
    lemma_lead_count_is(r, k as int);
    lemma_lead_count(r);
    let tr = trimmed(r);
    assert(tr =~= cs + mark + line.skip(p as int)) by {
        assert forall|j: int| 0 <= j < cs.len() implies tr[j] == cs[j] by {
            assert(tr[j] == r[k + j]);
            assert(r[k + j] == line[k + j]);
            assert(t[j] == line[k + j]);
        }
    }
    assert(tr.take(cs.len() as int) =~= cs);
    if starts_with(tr, cs.push(' ')) {
        assert(tr.take((cs.len() + 1) as int)[cs.len() as int] == ' ');
        assert(tr[cs.len() as int] == mark[0]);
    }
    assert(comment_text_start(r, cs) == p);
    assert(r.skip(p as int) =~= mark + line.skip(p as int));
}

/// A closing line is a closing bracket comment indented `d`.
pub proof fn lemma_close_line(d: nat, cs: Seq<char>, wc: char)
    requires
        starter_ok(cs),
        is_blank(wc),
    ensures
        bracket_of(close_line(d, cs, wc), cs) == Bracket::Close,
        lead_count(close_line(d, cs, wc)) == d,
        !all_blank(close_line(d, cs, wc)),
{
    let r = close_line(d, cs, wc);
    assert forall|j: int| 0 <= j < d implies is_blank(#[trigger] r[j]) by {
        assert(r[j] == wc);
    }
    assert(r[d as int] == cs[0]);
    lemma_lead_count_is(r, d as int);
    lemma_lead_count(r);
    let tr = trimmed(r);
    assert(tr =~= cs + seq!['<']);
    assert(tr.take(cs.len() as int) =~= cs);
    if starts_with(tr, cs.push(' ')) {
        assert(tr.take((cs.len() + 1) as int)[cs.len() as int] == ' ');
    }
    let ct = comment_text(r, cs);
    assert(ct =~= seq!['<']);
    assert(ct.take(1) =~= seq!['<']);
    assert(is_comment(r, cs));
    if starts_with(ct, seq!['>']) {
        assert(ct.take(1)[0] == '>');
    }
    assert(!starts_with(ct, seq!['<', '>']));
}

proof fn lemma_starts_with_push(x: Seq<char>, p: Seq<char>, c: char)
    requires
        forall|i: int| 0 <= i < p.len() ==> #[trigger] p[i] != c,
    ensures
        starts_with(x.push(c), p) <==> starts_with(x, p),
{
    if starts_with(x.push(c), p) {
        if p.len() == x.len() + 1 {
            assert(x.push(c).take(p.len() as int)[x.len() as int] == p[x.len() as int]);
        }
        assert(x.take(p.len() as int) =~= x.push(c).take(p.len() as int));
    }
    if starts_with(x, p) {
        assert(x.take(p.len() as int) =~= x.push(c).take(p.len() as int));
    }
}

/// Dropping a final '\r' changes no line's role.
pub proof fn lemma_strip_cr_bracket(l: Seq<char>, cs: Seq<char>)
    requires
        starter_ok(cs),
    ensures
        bracket_of(strip_cr(l), cs) == bracket_of(l, cs),
{
    if l.len() > 0 && l.last() == '\r' {
        let m = l.drop_last();
        assert(l =~= m.push('\r'));
        if all_blank(m) {
            assert(all_blank(l)) by {
                assert forall|j: int| 0 <= j < l.len() implies is_blank(#[trigger] l[j]) by {
                    if j < m.len() {
                        assert(l[j] == m[j]);
                    }
                }
            }
            lemma_blank_plain(l, cs);
            lemma_blank_plain(m, cs);
        } else {
            lemma_lead_count(m);
            let k = lead_count(m);
            assert forall|j: int| 0 <= j < k implies is_blank(#[trigger] l[j]) by {
                assert(l[j] == m[j]);
            }
            assert(l[k as int] == m[k as int]);
            lemma_lead_count_is(l, k as int);
            assert(trimmed(l) =~= trimmed(m).push('\r'));
            lemma_starts_with_push(trimmed(m), cs, '\r');
            assert forall|i: int| 0 <= i < cs.push(' ').len() implies #[trigger] cs.push(' ')[i] != '\r' by {
                if i < cs.len() {
                    assert(cs.push(' ')[i] == cs[i]);
                }
            }
            lemma_starts_with_push(trimmed(m), cs.push(' '), '\r');
            if is_comment(m, cs) {
                let st = comment_text_start(m, cs);
                assert(st <= m.len()) by {
                    if starts_with(trimmed(m), cs.push(' ')) {
                    } else {
                    }
                }
                assert(comment_text(l, cs) =~= comment_text(m, cs).push('\r'));
                lemma_starts_with_push(comment_text(m, cs), seq!['>'], '\r');
                lemma_starts_with_push(comment_text(m, cs), seq!['<', '>'], '\r');
                lemma_starts_with_push(comment_text(m, cs), seq!['<'], '\r');
            }
        }
    }
}


/// With `>` or `<>` put after its starter, a comment opens or continues a
/// block.
pub proof fn lemma_inserted_brackets(line: Seq<char>, cs: Seq<char>)
    requires
        starter_ok(cs),
        is_comment(line, cs),
    ensures
        bracket_of(insert_after_starter(line, cs, seq!['>']), cs) == Bracket::Open,
        bracket_of(insert_after_starter(line, cs, seq!['<', '>']), cs) == Bracket::Middle,
        lead_count(insert_after_starter(line, cs, seq!['>'])) == lead_count(line),
        lead_count(insert_after_starter(line, cs, seq!['<', '>'])) == lead_count(line),
        !all_blank(insert_after_starter(line, cs, seq!['>'])),
        !all_blank(insert_after_starter(line, cs, seq!['<', '>'])),
{
    let rest = line.skip((lead_count(line) + cs.len()) as int);
    lemma_insert_after_starter(line, cs, seq!['>']);
    lemma_insert_after_starter(line, cs, seq!['<', '>']);
    let t1 = seq!['>'] + rest;
    assert(t1.take(1) =~= seq!['>']);
    let t2 = seq!['<', '>'] + rest;
    assert(t2.take(2) =~= seq!['<', '>']);
    if starts_with(t2, seq!['>']) {
        assert(t2.take(1)[0] == '>');
    }
}

pub proof fn lemma_pieces_append(x: Seq<char>, y: Seq<char>)
    requires
        no_line_feed(y),
    ensures
        pieces(x + y) == pieces(x).update(pieces(x).len() - 1, pieces(x).last() + y),
    decreases y.len(),
{
    lemma_pieces(x);
    if y.len() == 0 {
        assert(x + y =~= x);
        assert(pieces(x).last() + y =~= pieces(x).last());
        assert(pieces(x).update(pieces(x).len() - 1, pieces(x).last()) =~= pieces(x));
    } else {
        let y0 = y.drop_last();
        assert(no_line_feed(y0)) by {
            assert forall|i: int| 0 <= i < y0.len() implies #[trigger] y0[i] != '\n' by {
                assert(y0[i] == y[i]);
            }
        }
        lemma_pieces_append(x, y0);
        assert((x + y).drop_last() =~= x + y0);
        assert((x + y).last() == y.last());
        assert(y.last() != '\n');
        let p = pieces(x);
        let q = p.update(p.len() - 1, p.last() + y0);
        assert(q.last() == p.last() + y0);
        assert((p.last() + y0).push(y.last()) =~= p.last() + y);
        assert(q.update(q.len() - 1, q.last().push(y.last())) =~= p.update(p.len() - 1, p.last() + y));
    }
}

/// Written out and read back, lines without line feeds come back, each
/// without a final '\r'.
pub proof fn lemma_lines_of_join(a: Seq<Seq<char>>)
    requires
        forall|i: int| 0 <= i < a.len() ==> no_line_feed(#[trigger] a[i]),
    ensures
        pieces(join_lines(a)) == a.push(Seq::<char>::empty()),
        lines_of(join_lines(a)) == a.map_values(|l: Seq<char>| strip_cr(l)),
    decreases a.len(),
{
    if a.len() == 0 {
        assert(pieces(join_lines(a)) =~= a.push(Seq::<char>::empty()));
    } else {
        let b = a.drop_last();
        assert forall|i: int| 0 <= i < b.len() implies no_line_feed(#[trigger] b[i]) by {
            assert(b[i] == a[i]);
        }
        lemma_lines_of_join(b);
        assert(no_line_feed(a[a.len() - 1]));
        let x = join_lines(b);
        lemma_pieces_append(x, a.last());
        let z = x + a.last();
        assert(join_lines(a) == z + seq!['\n']);
        assert((z + seq!['\n']).drop_last() =~= z);
        assert((z + seq!['\n']).last() == '\n');
        let p = b.push(Seq::<char>::empty());
        assert(p.update(p.len() - 1, p.last() + a.last()) =~= a);
    }
    let p = pieces(join_lines(a));
    assert(p.drop_last() =~= a);
}

pub proof fn lemma_depth_same_brackets(d: Option<nat>, a: Seq<Seq<char>>, b: Seq<Seq<char>>, cs: Seq<char>)
    requires
        a.len() == b.len(),
        forall|i: int| 0 <= i < a.len() ==> bracket_of(#[trigger] a[i], cs) == bracket_of(b[i], cs),
    ensures
        depth_from(d, a, cs) == depth_from(d, b, cs),
    decreases a.len(),
{
    if a.len() > 0 {
        assert forall|i: int| 0 <= i < a.drop_last().len() implies bracket_of(#[trigger] a.drop_last()[i], cs)
            == bracket_of(b.drop_last()[i], cs) by {
            assert(a.drop_last()[i] == a[i]);
            assert(b.drop_last()[i] == b[i]);
        }
        lemma_depth_same_brackets(d, a.drop_last(), b.drop_last(), cs);
        assert(bracket_of(a[a.len() - 1], cs) == bracket_of(b[b.len() - 1], cs));
    }
}


/// The index of the first non-blank line at or after index `i`.
pub open spec fn next_solid(ll: Seq<Seq<char>>, i: int) -> Option<nat>
    decreases ll.len() - i,
{
    if i < 0 || i >= ll.len() {
        None
    } else if !all_blank(ll[i]) {
        Some(i as nat)
    } else {
        next_solid(ll, i + 1)
    }
}

pub proof fn lemma_next_solid_is(ll: Seq<Seq<char>>, i: int, n: int)
    requires
        0 <= i <= n < ll.len(),
        forall|k: int| i <= k < n ==> all_blank(#[trigger] ll[k]),
        !all_blank(ll[n]),
    ensures
        next_solid(ll, i) == Some(n as nat),
    decreases n - i,
{
    if i < n {
        lemma_next_solid_is(ll, i + 1, n);
    }
}

pub proof fn lemma_next_solid_props(ll: Seq<Seq<char>>, i: int)
    requires
        0 <= i,
    ensures
        next_solid(ll, i) matches Some(n) ==> i <= n < ll.len() && !all_blank(ll[n as int]) && forall|k: int|
            i <= k < n ==> all_blank(#[trigger] ll[k]),
    decreases ll.len() - i,
{
    if 0 <= i < ll.len() && all_blank(ll[i]) {
        lemma_next_solid_props(ll, i + 1);
    }
}

pub proof fn lemma_last_solid_props(ll: Seq<Seq<char>>, idx: int)
    requires
        idx <= ll.len(),
    ensures
        last_solid_before(ll, idx) matches Some(j) ==> j < idx && !all_blank(ll[j as int]) && forall|k: int|
            j < k < idx ==> all_blank(#[trigger] ll[k]),
    decreases idx,
{
    if idx > 0 && all_blank(ll[idx - 1]) {
        lemma_last_solid_props(ll, idx - 1);
    }
}

/// Blank lines at the end: when line `i` is the last non-blank one, the
/// blank tail is what comes after it.
pub proof fn lemma_blank_tail_after(a: Seq<Seq<char>>, i: int)
    requires
        0 <= i < a.len(),
        !all_blank(a[i]),
        forall|k: int| i < k < a.len() ==> all_blank(#[trigger] a[k]),
    ensures
        blank_tail_len(a) == a.len() - i - 1,
        without_blank_tail(a) == a.take(i + 1),
{
    lemma_blank_tail(a);
    let t = a.len() - blank_tail_len(a);
    if t <= i {
        assert(all_blank(a[i]));
    }
    if t > i + 1 {
        assert(!all_blank(a[t - 1]));
    }
}

/// The line list as the part before the blank tail and the tail.
pub proof fn lemma_split_blank_tail(a: Seq<Seq<char>>)
    ensures
        a == without_blank_tail(a) + a.skip(without_blank_tail(a).len() as int),
        forall|k: int| 0 <= k < a.skip(without_blank_tail(a).len() as int).len() ==> all_blank(
            #[trigger] a.skip(without_blank_tail(a).len() as int)[k],
        ),
{
    lemma_blank_tail(a);
    let w = without_blank_tail(a);
    let t = a.skip(w.len() as int);
    assert(a =~= w + t);
    assert forall|k: int| 0 <= k < t.len() implies all_blank(#[trigger] t[k]) by {
        assert(t[k] == a[w.len() + k]);
    }
}


/// Every `<>` comment is followed, blank lines aside, by a line indented
/// deeper.
pub open spec fn middles_followed(ll: Seq<Seq<char>>, cs: Seq<char>) -> bool {
    forall|m: int|
        0 <= m < ll.len() && bracket_of(#[trigger] ll[m], cs) == Bracket::Middle ==> next_solid(ll, m + 1) is Some
            && lead_count(ll[next_solid(ll, m + 1)->Some_0 as int]) > lead_count(ll[m])
}

/// No line holds a line feed.
pub open spec fn all_no_line_feed(ll: Seq<Seq<char>>) -> bool {
    forall|i: int| 0 <= i < ll.len() ==> no_line_feed(#[trigger] ll[i])
}

pub proof fn lemma_next_solid_append(a: Seq<Seq<char>>, b: Seq<Seq<char>>, i: int)
    requires
        0 <= i,
        next_solid(a, i) is Some,
    ensures
        next_solid(a + b, i) == next_solid(a, i),
{
    lemma_next_solid_props(a, i);
    let n = next_solid(a, i)->Some_0 as int;
    assert forall|k: int| i <= k < n implies all_blank(#[trigger] (a + b)[k]) by {
        assert((a + b)[k] == a[k]);
    }
    assert((a + b)[n] == a[n]);
    lemma_next_solid_is(a + b, i, n);
}

proof fn lemma_middles_append(a: Seq<Seq<char>>, b: Seq<Seq<char>>, cs: Seq<char>)
    requires
        middles_followed(a, cs),
        forall|i: int| 0 <= i < b.len() ==> bracket_of(#[trigger] b[i], cs) != Bracket::Middle,
    ensures
        middles_followed(a + b, cs),
{
    let c = a + b;
    assert forall|m: int| 0 <= m < c.len() && bracket_of(#[trigger] c[m], cs) == Bracket::Middle implies next_solid(c, m + 1) is Some
        && lead_count(c[next_solid(c, m + 1)->Some_0 as int]) > lead_count(c[m]) by {
        if m < a.len() {
            assert(c[m] == a[m]);
            lemma_next_solid_append(a, b, m + 1);
            lemma_next_solid_props(a, m + 1);
            let n = next_solid(a, m + 1)->Some_0 as int;
            assert(c[n] == a[n]);
        } else {
            assert(c[m] == b[m - a.len()]);
        }
    }
}

proof fn lemma_middles_take(a: Seq<Seq<char>>, t: int, cs: Seq<char>)
    requires
        middles_followed(a, cs),
        0 <= t <= a.len(),
        forall|k: int| t <= k < a.len() ==> all_blank(#[trigger] a[k]),
    ensures
        middles_followed(a.take(t), cs),
{
    let c = a.take(t);
    assert forall|m: int| 0 <= m < c.len() && bracket_of(#[trigger] c[m], cs) == Bracket::Middle implies next_solid(c, m + 1) is Some
        && lead_count(c[next_solid(c, m + 1)->Some_0 as int]) > lead_count(c[m]) by {
        assert(c[m] == a[m]);
        lemma_next_solid_props(a, m + 1);
        let n = next_solid(a, m + 1)->Some_0 as int;
        assert(n < t);
        assert forall|k: int| m + 1 <= k < n implies all_blank(#[trigger] c[k]) by {
            assert(c[k] == a[k]);
        }
        assert(c[n] == a[n]);
        lemma_next_solid_is(c, m + 1, n);
    }
}

/// A closing line holds no line feed.
proof fn lemma_close_line_no_line_feed(d: nat, cs: Seq<char>, wc: char)
    requires
        starter_ok(cs),
        wc == ' ' || wc == '\t',
    ensures
        no_line_feed(close_line(d, cs, wc)),
{
    let r = close_line(d, cs, wc);
    assert forall|i: int| 0 <= i < r.len() implies #[trigger] r[i] != '\n' by {
        if i < d {
            assert(r[i] == wc);
        } else if i < d + cs.len() {
            assert(r[i] == cs[i - d]);
            assert(!is_blank(cs[i - d]));
        } else {
            assert(r[i] == '<');
        }
    }
}

/// Closing one block at indentation `d`.
pub proof fn lemma_close_one(ll: Seq<Seq<char>>, k: nat, d: nat, cs: Seq<char>, wc: char)
    requires
        starter_ok(cs),
        wc == ' ' || wc == '\t',
        depth_from(Some(0), ll, cs) == Some(k + 1),
        middles_followed(ll, cs),
        all_no_line_feed(ll),
    ensures
        ({
            let ll2 = without_blank_tail(ll).push(close_line(d, cs, wc)) + empty_lines(blank_tail_len(ll));
            &&& depth_from(Some(0), ll2, cs) == Some(k)
            &&& middles_followed(ll2, cs)
            &&& all_no_line_feed(ll2)
        }),
{
    let w = without_blank_tail(ll);
    let tail = ll.skip(w.len() as int);
    let cl = close_line(d, cs, wc);
    let e = empty_lines(blank_tail_len(ll));
    let ll2 = w.push(cl) + e;
    assert(depth_from(Some(0), w, cs) == Some(k + 1)) by {
        lemma_split_blank_tail(ll);
        lemma_depth_concat(Some(0), w, tail, cs);
        lemma_depth_blanks(depth_from(Some(0), w, cs), tail, cs);
    }
    lemma_close_line(d, cs, wc);
    lemma_close_line_no_line_feed(d, cs, wc);
    assert(depth_from(Some(0), ll2, cs) == Some(k)) by {
        lemma_depth_push(Some(0), w, cl, cs);
        lemma_depth_concat(Some(0), w.push(cl), e, cs);
        assert forall|i: int| 0 <= i < e.len() implies all_blank(#[trigger] e[i]) by {}
        lemma_depth_blanks(depth_from(Some(0), w.push(cl), cs), e, cs);
    }
    assert(middles_followed(ll2, cs)) by {
        lemma_blank_tail(ll);
        lemma_middles_take(ll, w.len() as int, cs);
        assert forall|i: int| 0 <= i < seq![cl].len() implies bracket_of(#[trigger] seq![cl][i], cs) != Bracket::Middle by {
            assert(seq![cl][i] == cl);
        }
        lemma_middles_append(w, seq![cl], cs);
        assert(w.push(cl) =~= w + seq![cl]);
        assert forall|i: int| 0 <= i < e.len() implies bracket_of(#[trigger] e[i], cs) != Bracket::Middle by {
            lemma_blank_plain(e[i], cs);
        }
        lemma_middles_append(w.push(cl), e, cs);
    }
    assert forall|i: int| 0 <= i < ll2.len() implies no_line_feed(#[trigger] ll2[i]) by {
        lemma_blank_tail(ll);
        if i < w.len() {
            assert(ll2[i] == ll[i]);
        } else if i == w.len() {
            assert(ll2[i] == cl);
        } else {
            assert(ll2[i] == e[i - w.len() - 1]);
        }
    }
}

/// Closing blocks keeps the count of open blocks equal to the blocks still
/// tracked.
pub proof fn lemma_end_blocks(
    ll: Seq<Seq<char>>,
    tr: Seq<(nat, nat)>,
    x: nat,
    cs: Seq<char>,
    wc: char,
)
    requires
        starter_ok(cs),
        wc == ' ' || wc == '\t',
        depth_from(Some(0), ll, cs) == Some(tr.len()),
        middles_followed(ll, cs),
        all_no_line_feed(ll),
    ensures
        ({
            let (l2, t2) = end_blocks(ll, tr, x, cs, wc);
            &&& depth_from(Some(0), l2, cs) == Some(t2.len())
            &&& middles_followed(l2, cs)
            &&& all_no_line_feed(l2)
            &&& x == 0 ==> t2.len() == 0
        }),
    decreases tr.len(),
{
    if tr.len() > 0 && x <= tr.last().1 {
        lemma_close_one(ll, (tr.len() - 1) as nat, tr.last().1, cs, wc);
        let ll2 = without_blank_tail(ll).push(close_line(tr.last().1, cs, wc)) + empty_lines(blank_tail_len(ll));
        lemma_end_blocks(ll2, tr.drop_last(), x, cs, wc);
    }
}


/// Every `<>` comment but the one at index `q` is followed, blank lines
/// aside, by a line indented deeper.
pub open spec fn middles_followed_but(ll: Seq<Seq<char>>, cs: Seq<char>, q: int) -> bool {
    forall|m: int|
        0 <= m < ll.len() && m != q && bracket_of(#[trigger] ll[m], cs) == Bracket::Middle ==> next_solid(ll, m + 1) is Some
            && lead_count(ll[next_solid(ll, m + 1)->Some_0 as int]) > lead_count(ll[m])
}

/// The facts about the line list that adding a bracket to the pending
/// comment at index `lc` relies on.
pub open spec fn pending_comment(ll: Seq<Seq<char>>, lc: int, cs: Seq<char>) -> bool {
    &&& 0 <= lc < ll.len()
    &&& is_comment(ll[lc], cs)
    &&& !all_blank(ll[lc])
    &&& bracket_of(ll[lc], cs) == Bracket::Plain
    &&& forall|j: int| lc < j < ll.len() ==> all_blank(#[trigger] ll[j])
}

/// What adding a bracket leaves: one more open block, the bracketed comment
/// at index `q` with its indentation kept and only blank lines after it.
pub open spec fn bracket_added(ll: Seq<Seq<char>>, r: Seq<Seq<char>>, q: int, d: nat, k: nat, cs: Seq<char>) -> bool {
    &&& depth_from(Some(0), r, cs) == Some(k + 1)
    &&& all_no_line_feed(r)
    &&& 0 <= q < r.len()
    &&& !all_blank(r[q])
    &&& lead_count(r[q]) == d
    &&& forall|j: int| q < j < r.len() ==> all_blank(#[trigger] r[j])
    &&& middles_followed_but(r, cs, q)
}

proof fn lemma_insert_no_line_feed(line: Seq<char>, cs: Seq<char>, mark: Seq<char>)
    requires
        no_line_feed(line),
        no_line_feed(mark),
        lead_count(line) + cs.len() <= line.len(),
    ensures
        no_line_feed(insert_after_starter(line, cs, mark)),
{
    let p = (lead_count(line) + cs.len()) as int;
    let r = insert_after_starter(line, cs, mark);
    assert forall|i: int| 0 <= i < r.len() implies #[trigger] r[i] != '\n' by {
        if i < p {
            assert(r[i] == line[i]);
        } else if i < p + mark.len() {
            assert(r[i] == mark[i - p]);
        } else {
            assert(r[i] == line[i - mark.len()]);
        }
    }
}

pub proof fn lemma_comment_room(line: Seq<char>, cs: Seq<char>)
    requires
        is_comment(line, cs),
    ensures
        lead_count(line) + cs.len() <= line.len(),
{
    lemma_lead_count(line);
}

/// The pending comment's part of the line list: what comes before it
/// counts `k` open blocks.
pub proof fn lemma_depth_before_pending(ll: Seq<Seq<char>>, lc: int, k: nat, cs: Seq<char>)
    requires
        pending_comment(ll, lc, cs),
        starter_ok(cs),
        depth_from(Some(0), ll, cs) == Some(k),
    ensures
        depth_from(Some(0), ll.take(lc), cs) == Some(k),
        ll == ll.take(lc) + seq![ll[lc]] + ll.skip(lc + 1),
{
    let a = ll.take(lc);
    let b = ll.skip(lc + 1);
    assert(ll =~= a + seq![ll[lc]] + b);
    assert forall|i: int| 0 <= i < b.len() implies all_blank(#[trigger] b[i]) by {
        assert(b[i] == ll[lc + 1 + i]);
    }
    lemma_depth_concat(Some(0), a + seq![ll[lc]], b, cs);
    lemma_depth_blanks(depth_from(Some(0), a + seq![ll[lc]], cs), b, cs);
    assert(a + seq![ll[lc]] =~= a.push(ll[lc]));
    lemma_depth_push(Some(0), a, ll[lc], cs);
}

/// Adding `>` to the pending comment.
proof fn lemma_add_open_plain(ll: Seq<Seq<char>>, lc: int, k: nat, cs: Seq<char>)
    requires
        starter_ok(cs),
        pending_comment(ll, lc, cs),
        !closes_before(ll, lc as nat, cs),
        depth_from(Some(0), ll, cs) == Some(k),
        middles_followed(ll, cs),
        all_no_line_feed(ll),
    ensures
        bracket_added(ll, add_open_bracket(ll, lc as nat, cs), lc, lead_count(ll[lc]), k, cs),
{
    let r = add_open_bracket(ll, lc as nat, cs);
    let op = insert_after_starter(ll[lc], cs, seq!['>']);
    assert(r == ll.update(lc, op));
    lemma_inserted_brackets(ll[lc], cs);
    lemma_depth_before_pending(ll, lc, k, cs);
    let a = ll.take(lc);
    let b = ll.skip(lc + 1);
    assert(r =~= a + seq![op] + b);
    assert forall|i: int| 0 <= i < b.len() implies all_blank(#[trigger] b[i]) by {
        assert(b[i] == ll[lc + 1 + i]);
    }
    assert(depth_from(Some(0), r, cs) == Some(k + 1)) by {
        lemma_depth_concat(Some(0), a + seq![op], b, cs);
        lemma_depth_blanks(depth_from(Some(0), a + seq![op], cs), b, cs);
        assert(a + seq![op] =~= a.push(op));
        lemma_depth_push(Some(0), a, op, cs);
    }
    lemma_comment_room(ll[lc], cs);
    assert(no_line_feed(seq!['>'])) by {
        assert forall|i: int| 0 <= i < seq!['>'].len() implies #[trigger] seq!['>'][i] != '\n' by {}
    }
    lemma_insert_no_line_feed(ll[lc], cs, seq!['>']);
    assert forall|m: int| 0 <= m < r.len() && m != lc && bracket_of(#[trigger] r[m], cs) == Bracket::Middle implies next_solid(r, m + 1) is Some
        && lead_count(r[next_solid(r, m + 1)->Some_0 as int]) > lead_count(r[m]) by {
        assert(r[m] == ll[m]);
        lemma_next_solid_props(ll, m + 1);
        let n = next_solid(ll, m + 1)->Some_0 as int;
        assert forall|j: int| m + 1 <= j < n implies all_blank(#[trigger] r[j]) by {
            assert(r[j] == ll[j]);
        }
        lemma_next_solid_is(r, m + 1, n);
    }
}


/// The closing comment right before the pending comment (blank lines
/// aside) is a `<` comment, never a `<>` one.
pub proof fn lemma_closer_before(ll: Seq<Seq<char>>, lc: int, cs: Seq<char>)
    requires
        starter_ok(cs),
        pending_comment(ll, lc, cs),
        closes_before(ll, lc as nat, cs),
        middles_followed(ll, cs),
    ensures
        last_solid_before(ll, lc) is Some,
        ({
            let j = last_solid_before(ll, lc)->Some_0 as int;
            &&& 0 <= j < lc
            &&& !all_blank(ll[j])
            &&& bracket_of(ll[j], cs) == Bracket::Close
            &&& lead_count(ll[j]) == lead_count(ll[lc])
            &&& forall|k: int| j < k < lc ==> all_blank(#[trigger] ll[k])
        }),
{
    lemma_last_solid_props(ll, lc);
    let j = last_solid_before(ll, lc)->Some_0 as int;
    let t = comment_text(ll[j], cs);
    assert(t.take(1)[0] == '<');
    if starts_with(t, seq!['>']) {
        assert(t.take(1)[0] == '>');
    }
    if bracket_of(ll[j], cs) == Bracket::Middle {
        lemma_next_solid_is(ll, j + 1, lc);
    }
}

/// The result of adding `<>`: the lines before the closing comment, the
/// blank lines that were between it and the pending comment, the pending
/// comment with `<>`, and the blank lines after it.
pub proof fn lemma_add_open_close_shape(ll: Seq<Seq<char>>, lc: int, cs: Seq<char>)
    requires
        starter_ok(cs),
        pending_comment(ll, lc, cs),
        closes_before(ll, lc as nat, cs),
        middles_followed(ll, cs),
    ensures
        ({
            let j = last_solid_before(ll, lc)->Some_0 as int;
            add_open_bracket(ll, lc as nat, cs) == ll.take(j) + empty_lines((lc - j - 1) as nat) + seq![
                insert_after_starter(ll[lc], cs, seq!['<', '>'])
            ] + empty_lines((ll.len() - lc - 1) as nat)
        }),
{
    lemma_closer_before(ll, lc, cs);
    let j = last_solid_before(ll, lc)->Some_0 as int;
    lemma_blank_tail_after(ll, lc);
    assert(pop_line(ll.take(lc + 1)) =~= ll.take(lc));
    let l1 = ll.take(lc);
    assert forall|i: int| j < i < l1.len() implies all_blank(#[trigger] l1[i]) by {
        assert(l1[i] == ll[i]);
    }
    assert(l1[j] == ll[j]);
    lemma_blank_tail_after(l1, j);
    assert(l1.take(j + 1) =~= ll.take(j + 1));
    assert(pop_line(ll.take(j + 1)) =~= ll.take(j));
}

#[verifier::rlimit(60)]
proof fn lemma_add_open_close_depth(ll: Seq<Seq<char>>, lc: int, k: nat, cs: Seq<char>)
    requires
        starter_ok(cs),
        pending_comment(ll, lc, cs),
        closes_before(ll, lc as nat, cs),
        depth_from(Some(0), ll, cs) == Some(k),
        middles_followed(ll, cs),
    ensures
        depth_from(Some(0), add_open_bracket(ll, lc as nat, cs), cs) == Some(k + 1),
{
    lemma_closer_before(ll, lc, cs);
    lemma_add_open_close_shape(ll, lc, cs);
    let j = last_solid_before(ll, lc)->Some_0 as int;
    let mid = insert_after_starter(ll[lc], cs, seq!['<', '>']);
    lemma_inserted_brackets(ll[lc], cs);
    let a = ll.take(j);
    let e1 = empty_lines((lc - j - 1) as nat);
    let e2 = empty_lines((ll.len() - lc - 1) as nat);
    lemma_depth_before_pending(ll, lc, k, cs);
    let l1 = ll.take(lc);
    let between = ll.subrange(j + 1, lc);
    assert(l1 =~= a.push(ll[j]) + between);
    assert forall|i: int| 0 <= i < between.len() implies all_blank(#[trigger] between[i]) by {
        assert(between[i] == ll[j + 1 + i]);
    }
    lemma_depth_concat(Some(0), a.push(ll[j]), between, cs);
    lemma_depth_blanks(depth_from(Some(0), a.push(ll[j]), cs), between, cs);
    lemma_depth_push(Some(0), a, ll[j], cs);
    assert(depth_from(Some(0), a, cs) == Some(k + 1));
    assert forall|i: int| 0 <= i < e1.len() implies all_blank(#[trigger] e1[i]) by {}
    assert forall|i: int| 0 <= i < e2.len() implies all_blank(#[trigger] e2[i]) by {}
    lemma_depth_concat(Some(0), a, e1, cs);
    lemma_depth_blanks(Some(k + 1), e1, cs);
    lemma_depth_push(Some(0), a + e1, mid, cs);
    assert((a + e1).push(mid) =~= a + e1 + seq![mid]);
    lemma_depth_concat(Some(0), a + e1 + seq![mid], e2, cs);
    lemma_depth_blanks(Some(k + 1), e2, cs);
}

#[verifier::rlimit(60)]
proof fn lemma_add_open_close_middles(ll: Seq<Seq<char>>, lc: int, cs: Seq<char>)
    requires
        starter_ok(cs),
        pending_comment(ll, lc, cs),
        closes_before(ll, lc as nat, cs),
        middles_followed(ll, cs),
    ensures
        middles_followed_but(add_open_bracket(ll, lc as nat, cs), cs, lc - 1),
{
    lemma_closer_before(ll, lc, cs);
    lemma_add_open_close_shape(ll, lc, cs);
    let j = last_solid_before(ll, lc)->Some_0 as int;
    let mid = insert_after_starter(ll[lc], cs, seq!['<', '>']);
    lemma_inserted_brackets(ll[lc], cs);
    let e1 = empty_lines((lc - j - 1) as nat);
    let e2 = empty_lines((ll.len() - lc - 1) as nat);
    let r = add_open_bracket(ll, lc as nat, cs);
    let q = lc - 1;
    assert(r[q] == mid);
    assert forall|m: int| 0 <= m < r.len() && m != q && bracket_of(#[trigger] r[m], cs) == Bracket::Middle implies next_solid(r, m + 1) is Some
        && lead_count(r[next_solid(r, m + 1)->Some_0 as int]) > lead_count(r[m]) by {
        if m < j {
            assert(r[m] == ll[m]);
            lemma_next_solid_props(ll, m + 1);
            let nn = next_solid(ll, m + 1)->Some_0 as int;
            if nn < j {
                assert forall|i: int| m + 1 <= i < nn implies all_blank(#[trigger] r[i]) by {
                    assert(r[i] == ll[i]);
                }
                assert(r[nn] == ll[nn]);
                lemma_next_solid_is(r, m + 1, nn);
            } else {
                assert(nn == j);
                assert forall|i: int| m + 1 <= i < q implies all_blank(#[trigger] r[i]) by {
                    if i < j {
                        assert(r[i] == ll[i]);
                    } else {
                        assert(r[i] == e1[i - j]);
                    }
                }
                lemma_next_solid_is(r, m + 1, q);
            }
        } else if m < q {
            assert(r[m] == e1[m - j]);
            lemma_blank_plain(r[m], cs);
        } else {
            assert(r[m] == e2[m - lc]);
            lemma_blank_plain(r[m], cs);
        }
    }
}

/// Adding `<>` to the pending comment in place of the closing comment
/// before it.
#[verifier::rlimit(60)]
proof fn lemma_add_open_close(ll: Seq<Seq<char>>, lc: int, k: nat, cs: Seq<char>)
    requires
        starter_ok(cs),
        pending_comment(ll, lc, cs),
        closes_before(ll, lc as nat, cs),
        depth_from(Some(0), ll, cs) == Some(k),
        middles_followed(ll, cs),
        all_no_line_feed(ll),
    ensures
        bracket_added(ll, add_open_bracket(ll, lc as nat, cs), lc - 1, lead_count(ll[lc]), k, cs),
{
    lemma_closer_before(ll, lc, cs);
    lemma_add_open_close_shape(ll, lc, cs);
    lemma_add_open_close_depth(ll, lc, k, cs);
    lemma_add_open_close_middles(ll, lc, cs);
    let j = last_solid_before(ll, lc)->Some_0 as int;
    let mid = insert_after_starter(ll[lc], cs, seq!['<', '>']);
    lemma_inserted_brackets(ll[lc], cs);
    let e1 = empty_lines((lc - j - 1) as nat);
    let e2 = empty_lines((ll.len() - lc - 1) as nat);
    lemma_comment_room(ll[lc], cs);
    let mk = seq!['<', '>'];
    assert(no_line_feed(mk)) by {
        assert forall|i: int| 0 <= i < mk.len() implies #[trigger] mk[i] != '\n' by {}
    }
    lemma_insert_no_line_feed(ll[lc], cs, mk);
    let r = add_open_bracket(ll, lc as nat, cs);
    let q = lc - 1;
    assert(r[q] == mid);
    assert forall|i: int| 0 <= i < r.len() implies no_line_feed(#[trigger] r[i]) by {
        if i < j {
            assert(r[i] == ll[i]);
        } else if i < q {
            assert(r[i] == e1[i - j]);
        } else if i > q {
            assert(r[i] == e2[i - lc]);
        }
    }
    assert forall|i: int| q < i < r.len() implies all_blank(#[trigger] r[i]) by {
        assert(r[i] == e2[i - lc]);
    }
}


/// Pushing a line that is no `<>` comment.
proof fn lemma_push_line(ll: Seq<Seq<char>>, line: Seq<char>, cs: Seq<char>)
    requires
        middles_followed(ll, cs),
        all_no_line_feed(ll),
        no_line_feed(line),
        bracket_of(line, cs) != Bracket::Middle,
    ensures
        middles_followed(ll.push(line), cs),
        all_no_line_feed(ll.push(line)),
{
    let b = seq![line];
    assert forall|i: int| 0 <= i < b.len() implies bracket_of(#[trigger] b[i], cs) != Bracket::Middle by {
        assert(b[i] == line);
    }
    lemma_middles_append(ll, b, cs);
    assert(ll.push(line) =~= ll + b);
    assert forall|i: int| 0 <= i < ll.push(line).len() implies no_line_feed(#[trigger] ll.push(line)[i]) by {
        if i < ll.len() {
            assert(ll.push(line)[i] == ll[i]);
        }
    }
}

/// Pushing a line indented deeper than the bracketed comment at index `q`
/// gives that comment the line it needs after it.
proof fn lemma_follow_bracket(r: Seq<Seq<char>>, q: int, d: nat, line: Seq<char>, cs: Seq<char>)
    requires
        0 <= q < r.len(),
        lead_count(r[q]) == d,
        forall|j: int| q < j < r.len() ==> all_blank(#[trigger] r[j]),
        middles_followed_but(r, cs, q),
        all_no_line_feed(r),
        !all_blank(line),
        lead_count(line) > d,
        no_line_feed(line),
        bracket_of(line, cs) != Bracket::Middle,
    ensures
        middles_followed(r.push(line), cs),
        all_no_line_feed(r.push(line)),
{
    let c = r.push(line);
    assert forall|m: int| 0 <= m < c.len() && bracket_of(#[trigger] c[m], cs) == Bracket::Middle implies next_solid(c, m + 1) is Some
        && lead_count(c[next_solid(c, m + 1)->Some_0 as int]) > lead_count(c[m]) by {
        if m == q {
            assert(c[m] == r[q]);
            assert forall|j: int| q + 1 <= j < r.len() implies all_blank(#[trigger] c[j]) by {
                assert(c[j] == r[j]);
            }
            lemma_next_solid_is(c, q + 1, r.len() as int);
        } else if m < r.len() {
            assert(c[m] == r[m]);
            lemma_next_solid_append(r, seq![line], m + 1);
            assert(c =~= r + seq![line]);
            lemma_next_solid_props(r, m + 1);
            let n = next_solid(r, m + 1)->Some_0 as int;
            assert(c[n] == r[n]);
        } else {
            assert(c[m] == line);
        }
    }
    assert forall|i: int| 0 <= i < c.len() implies no_line_feed(#[trigger] c[i]) by {
        if i < r.len() {
            assert(c[i] == r[i]);
        }
    }
}

/// How many of the tracked comments are known to open a block.
pub open spec fn structured(st: AddState) -> nat {
    if st.unsure && st.open.len() > 0 {
        (st.open.len() - 1) as nat
    } else {
        st.open.len()
    }
}

/// What holds of the bracket adder's state after every line: the blocks
/// opened so far are exactly the tracked comments known to open one, every
/// `<>` comment is followed by a deeper line, no line holds a line feed,
/// and a comment still in doubt is a plain comment with nothing but blank
/// lines after it.
pub open spec fn add_inv(st: AddState, cs: Seq<char>) -> bool {
    &&& depth_from(Some(0), st.lines, cs) == Some(structured(st))
    &&& middles_followed(st.lines, cs)
    &&& all_no_line_feed(st.lines)
    &&& (st.unsure && st.open.len() > 0 ==> pending_comment(st.lines, st.open.last().0 as int, cs) && lead_count(
        st.lines[st.open.last().0 as int],
    ) == st.open.last().1)
}

proof fn lemma_pass_new(lines: Seq<Seq<char>>, open: Seq<(nat, nat)>, line: Seq<char>, cs: Seq<char>)
    requires
        starter_ok(cs),
        depth_from(Some(0), lines, cs) == Some(open.len()),
        middles_followed(lines.push(line), cs),
        all_no_line_feed(lines.push(line)),
        is_comment(line, cs),
        !all_blank(line),
        bracket_of(line, cs) == Bracket::Plain,
    ensures
        add_inv(pass_new(lines, open, lead_count(line), line), cs),
{
    let st = pass_new(lines, open, lead_count(line), line);
    lemma_depth_push(Some(0), lines, line, cs);
    assert(st.lines[lines.len() as int] == line);
}

/// Adding a bracket to the pending comment, then the line after it.
proof fn lemma_bracket_then(st: AddState, line: Seq<char>, cs: Seq<char>) -> (r: Seq<Seq<char>>)
    requires
        starter_ok(cs),
        add_inv(st, cs),
        st.unsure,
        st.open.len() > 0,
        !all_blank(line),
        lead_count(line) > st.open.last().1,
        no_line_feed(line),
        bracket_of(line, cs) == Bracket::Plain,
    ensures
        r == add_open_bracket(st.lines, st.open.last().0, cs),
        depth_from(Some(0), r, cs) == Some(st.open.len()),
        depth_from(Some(0), r.push(line), cs) == Some(st.open.len()),
        middles_followed(r.push(line), cs),
        all_no_line_feed(r.push(line)),
{
    let lc = st.open.last().0 as int;
    let k = structured(st);
    let r = add_open_bracket(st.lines, st.open.last().0, cs);
    let q = if closes_before(st.lines, lc as nat, cs) {
        lemma_add_open_close(st.lines, lc, k, cs);
        lc - 1
    } else {
        lemma_add_open_plain(st.lines, lc, k, cs);
        lc
    };
    lemma_follow_bracket(r, q, st.open.last().1, line, cs);
    lemma_depth_push(Some(0), r, line, cs);
    r
}


/// After closing blocks, the open blocks are the tracked ones left.
proof fn lemma_end_then_push(lines: Seq<Seq<char>>, tr: Seq<(nat, nat)>, x: nat, line: Seq<char>, cs: Seq<char>, wc: char)
    requires
        starter_ok(cs),
        wc == ' ' || wc == '\t',
        depth_from(Some(0), lines, cs) == Some(tr.len()),
        middles_followed(lines, cs),
        all_no_line_feed(lines),
        no_line_feed(line),
        bracket_of(line, cs) == Bracket::Plain,
    ensures
        ({
            let (l2, t2) = end_blocks(lines, tr, x, cs, wc);
            &&& depth_from(Some(0), l2, cs) == Some(t2.len())
            &&& depth_from(Some(0), l2.push(line), cs) == Some(t2.len())
            &&& middles_followed(l2.push(line), cs)
            &&& all_no_line_feed(l2.push(line))
        }),
{
    lemma_end_blocks(lines, tr, x, cs, wc);
    let (l2, t2) = end_blocks(lines, tr, x, cs, wc);
    lemma_push_line(l2, line, cs);
    lemma_depth_push(Some(0), l2, line, cs);
}

proof fn lemma_add_step_comment(st: AddState, line: Seq<char>, cs: Seq<char>, wc: char)
    requires
        starter_ok(cs),
        wc == ' ' || wc == '\t',
        add_inv(st, cs),
        !all_blank(line),
        is_comment(line, cs),
        no_line_feed(line),
        bracket_of(line, cs) == Bracket::Plain,
    ensures
        add_inv(add_step(st, line, cs, wc), cs),
{
    let x = lead_count(line);
    if st.open.len() > 0 {
        let top = st.open.last();
        if st.unsure {
            if x > top.1 {
                let r = lemma_bracket_then(st, line, cs);
                lemma_pass_new(r, st.open, line, cs);
            } else {
                lemma_end_then_push(st.lines, st.open.drop_last(), x, line, cs, wc);
                let (l2, t2) = end_blocks(st.lines, st.open.drop_last(), x, cs, wc);
                lemma_pass_new(l2, t2, line, cs);
            }
        } else if x > top.1 {
            lemma_push_line(st.lines, line, cs);
            lemma_pass_new(st.lines, st.open, line, cs);
        } else {
            lemma_end_then_push(st.lines, st.open, x, line, cs, wc);
            let (l2, t2) = end_blocks(st.lines, st.open, x, cs, wc);
            lemma_pass_new(l2, t2, line, cs);
        }
    } else {
        lemma_push_line(st.lines, line, cs);
        lemma_pass_new(st.lines, st.open, line, cs);
    }
}

proof fn lemma_add_step_other(st: AddState, line: Seq<char>, cs: Seq<char>, wc: char)
    requires
        starter_ok(cs),
        wc == ' ' || wc == '\t',
        add_inv(st, cs),
        !all_blank(line),
        !is_comment(line, cs),
        no_line_feed(line),
        bracket_of(line, cs) == Bracket::Plain,
    ensures
        add_inv(add_step(st, line, cs, wc), cs),
{
    let x = lead_count(line);
    if st.open.len() > 0 {
        let top = st.open.last();
        if st.unsure {
            if x > top.1 {
                let r = lemma_bracket_then(st, line, cs);
            } else {
                lemma_end_then_push(st.lines, st.open.drop_last(), x, line, cs, wc);
            }
        } else if x > top.1 {
            lemma_push_line(st.lines, line, cs);
            lemma_depth_push(Some(0), st.lines, line, cs);
        } else {
            lemma_end_then_push(st.lines, st.open, x, line, cs, wc);
        }
    } else {
        lemma_push_line(st.lines, line, cs);
        lemma_depth_push(Some(0), st.lines, line, cs);
    }
}

proof fn lemma_add_step_blank(st: AddState, line: Seq<char>, cs: Seq<char>, wc: char)
    requires
        starter_ok(cs),
        add_inv(st, cs),
        all_blank(line),
    ensures
        add_inv(add_step(st, line, cs, wc), cs),
{
    let e = Seq::<char>::empty();
    lemma_blank_plain(e, cs);
    assert(no_line_feed(e));
    lemma_push_line(st.lines, e, cs);
    lemma_depth_push(Some(0), st.lines, e, cs);
    let st2 = add_step(st, line, cs, wc);
    if st.unsure && st.open.len() > 0 {
        let lc = st.open.last().0 as int;
        assert(st2.lines[lc] == st.lines[lc]);
        assert forall|j: int| lc < j < st2.lines.len() implies all_blank(#[trigger] st2.lines[j]) by {
            if j < st.lines.len() {
                assert(st2.lines[j] == st.lines[j]);
            }
        }
    }
}

/// Every step of bracket adding keeps `add_inv`.
pub proof fn lemma_add_step_inv(st: AddState, line: Seq<char>, cs: Seq<char>, wc: char)
    requires
        starter_ok(cs),
        wc == ' ' || wc == '\t',
        add_inv(st, cs),
        no_line_feed(line),
        bracket_of(line, cs) == Bracket::Plain,
    ensures
        add_inv(add_step(st, line, cs, wc), cs),
{
    if all_blank(line) {
        lemma_add_step_blank(st, line, cs, wc);
    } else if is_comment(line, cs) {
        lemma_add_step_comment(st, line, cs, wc);
    } else {
        lemma_add_step_other(st, line, cs, wc);
    }
}


proof fn lemma_pieces_no_line_feed(s: Seq<char>)
    ensures
        forall|k: int| 0 <= k < pieces(s).len() ==> no_line_feed(#[trigger] pieces(s)[k]),
    decreases s.len(),
{
    lemma_pieces(s);
    if s.len() > 0 {
        let t = s.drop_last();
        lemma_pieces_no_line_feed(t);
        lemma_pieces(t);
        let p = pieces(t);
        if s.last() == '\n' {
            assert(pieces(s) == p.push(seq![]));
            assert forall|k: int| 0 <= k < pieces(s).len() implies no_line_feed(#[trigger] pieces(s)[k]) by {
                if k < p.len() {
                    assert(pieces(s)[k] == p[k]);
                }
            }
        } else {
            let q = p.update(p.len() - 1, p.last().push(s.last()));
            assert(pieces(s) == q);
            assert forall|k: int| 0 <= k < q.len() implies no_line_feed(#[trigger] q[k]) by {
                if k < p.len() - 1 {
                    assert(q[k] == p[k]);
                } else {
                    let l = p.last().push(s.last());
                    assert(no_line_feed(p[p.len() - 1]));
                    assert forall|i: int| 0 <= i < l.len() implies #[trigger] l[i] != '\n' by {
                        if i < l.len() - 1 {
                            assert(l[i] == p.last()[i]);
                        }
                    }
                }
            }
        }
    }
}

/// The lines of a text hold no line feed.
pub proof fn lemma_lines_no_line_feed(s: Seq<char>)
    ensures
        all_no_line_feed(lines_of(s)),
{
    lemma_pieces(s);
    lemma_pieces_no_line_feed(s);
    let p = pieces(s);
    let ls = lines_of(s);
    assert forall|k: int| 0 <= k < ls.len() implies no_line_feed(#[trigger] ls[k]) by {
        assert(no_line_feed(p[k]));
        let l = strip_cr(p[k]);
        assert forall|i: int| 0 <= i < l.len() implies #[trigger] l[i] != '\n' by {
            assert(l[i] == p[k][i]);
        }
    }
}

pub proof fn lemma_indent_char(ls: Seq<Seq<char>>)
    ensures
        indent_style(ls).0 == ' ' || indent_style(ls).0 == '\t',
    decreases ls.len(),
{
    if ls.len() > 0 {
        lemma_indent_char(ls.drop_first());
    }
}

pub proof fn lemma_add_prefix_inv(ls: Seq<Seq<char>>, n: nat, cs: Seq<char>, wc: char)
    requires
        n <= ls.len(),
        starter_ok(cs),
        wc == ' ' || wc == '\t',
        all_no_line_feed(ls),
        forall|i: int| 0 <= i < ls.len() ==> bracket_of(#[trigger] ls[i], cs) == Bracket::Plain,
    ensures
        add_inv(add_prefix(ls, n, cs, wc), cs),
    decreases n,
{
    if n == 0 {
        let st = add_prefix(ls, 0, cs, wc);
        assert(st.lines.len() == 0);
        assert(depth_from(Some(0), st.lines, cs) == Some(0nat));
    } else {
        lemma_add_prefix_inv(ls, (n - 1) as nat, cs, wc);
        assert(no_line_feed(ls[n - 1]));
        assert(bracket_of(ls[n - 1], cs) == Bracket::Plain);
        lemma_add_step_inv(add_prefix(ls, (n - 1) as nat, cs, wc), ls[n - 1], cs, wc);
    }
}

/// The lines bracket adding ends with open no block and close none that
/// is not open.
pub proof fn lemma_add_lines_balanced(ls: Seq<Seq<char>>, cs: Seq<char>, wc: char)
    requires
        starter_ok(cs),
        wc == ' ' || wc == '\t',
        all_no_line_feed(ls),
        forall|i: int| 0 <= i < ls.len() ==> bracket_of(#[trigger] ls[i], cs) == Bracket::Plain,
    ensures
        depth_from(Some(0), add_lines(ls, cs, wc), cs) == Some(0nat),
        all_no_line_feed(add_lines(ls, cs, wc)),
{
    lemma_add_prefix_inv(ls, ls.len(), cs, wc);
    let st = add_prefix(ls, ls.len(), cs, wc);
    let open = if st.unsure && st.open.len() > 0 {
        st.open.drop_last()
    } else {
        st.open
    };
    lemma_end_blocks(st.lines, open, 0, cs, wc);
}


/// Brackets added are accepted by the formatter: when the bracketless
/// text has no bracket comments (no comment text there starts with `>` or
/// `<`), every block that adding brackets opens is closed again, so
/// formatting the result reports no problem. The comment starter must be
/// non-blank, as every supported file type's is.
pub proof fn add_brackets_output_formats(s: Seq<char>, cs: Seq<char>)
    requires
        starter_ok(cs),
        remove_text(s, cs) is Ok,
        forall|i: int|
            0 <= i < lines_of(remove_text(s, cs)->Ok_0).len() ==> bracket_of(
                #[trigger] lines_of(remove_text(s, cs)->Ok_0)[i],
                cs,
            ) == Bracket::Plain,
    ensures
        add_text(s, cs) is Ok,
        format_text(add_text(s, cs)->Ok_0, cs) is Ok,
{
    let ls = lines_of(remove_text(s, cs)->Ok_0);
    let wc = indent_style(ls).0;
    lemma_indent_char(ls);
    lemma_lines_no_line_feed(remove_text(s, cs)->Ok_0);
    lemma_add_lines_balanced(ls, cs, wc);
    let a = add_lines(ls, cs, wc);
    lemma_lines_of_join(a);
    let b = a.map_values(|l: Seq<char>| strip_cr(l));
    assert forall|i: int| 0 <= i < b.len() implies bracket_of(#[trigger] b[i], cs) == bracket_of(a[i], cs) by {
        lemma_strip_cr_bracket(a[i], cs);
    }
    lemma_depth_same_brackets(Some(0), b, a, cs);
    lemma_depth_zero_formats(b, cs);
}

} // verus!
