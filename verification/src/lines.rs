use vstd::prelude::*;

verus! {

/// Whitespace in the sense of the formatter: every character whose code is
/// at most 32 (space, tab, line breaks and the other control characters).
pub open spec fn is_blank(c: char) -> bool {
    (c as u32) <= 32
}

/// True when every character of `s` is blank (also for the empty line).
pub open spec fn all_blank(s: Seq<char>) -> bool {
    forall|j: int| 0 <= j < s.len() ==> is_blank(#[trigger] s[j])
}

/// The number of blank characters at the start of `s`.
pub open spec fn lead_count(s: Seq<char>) -> nat
    decreases s.len(),
{
    if s.len() == 0 {
        0
    } else if is_blank(s[0]) {
        1 + lead_count(s.drop_first())
    } else {
        0
    }
}

/// `s` begins with `p`.
pub open spec fn starts_with(s: Seq<char>, p: Seq<char>) -> bool {
    p.len() <= s.len() && s.take(p.len() as int) == p
}

/// `n` copies of the character `c`.
pub open spec fn run_of(c: char, n: nat) -> Seq<char> {
    Seq::new(n, |_i: int| c)
}

/// The line with its leading blank characters removed.
pub open spec fn trimmed(s: Seq<char>) -> Seq<char> {
    s.skip(lead_count(s) as int)
}

pub proof fn lemma_lead_count(s: Seq<char>)
    ensures
        lead_count(s) <= s.len(),
        forall|j: int| 0 <= j < lead_count(s) ==> is_blank(#[trigger] s[j]),
        lead_count(s) < s.len() ==> !is_blank(s[lead_count(s) as int]),
        all_blank(s) <==> lead_count(s) == s.len(),
    decreases s.len(),
{
    if s.len() > 0 && is_blank(s[0]) {
        let t = s.drop_first();
        lemma_lead_count(t);
        assert forall|j: int| 0 <= j < lead_count(s) implies is_blank(#[trigger] s[j]) by {
            if j > 0 {
                assert(s[j] == t[j - 1]);
            }
        }
        if all_blank(s) {
            assert forall|j: int| 0 <= j < t.len() implies is_blank(#[trigger] t[j]) by {
                assert(t[j] == s[j + 1]);
            }
        }
    }
}

/// Any position with only blanks before it and a non-blank at it (or at the
/// end) is the leading blank count.
pub proof fn lemma_lead_count_is(s: Seq<char>, k: int)
    requires
        0 <= k <= s.len(),
        forall|j: int| 0 <= j < k ==> is_blank(#[trigger] s[j]),
        k < s.len() ==> !is_blank(s[k]),
    ensures
        lead_count(s) == k,
    decreases k,
{
    if k > 0 {
        let t = s.drop_first();
        assert forall|j: int| 0 <= j < k - 1 implies is_blank(#[trigger] t[j]) by {
            assert(t[j] == s[j + 1]);
        }
        if k - 1 < t.len() {
            assert(t[k - 1] == s[k]);
        }
        lemma_lead_count_is(t, k - 1);
    }
}

/// The number of leading blank characters of a line.
pub fn lead(line: &Vec<char>) -> (k: usize)
    ensures
        k == lead_count(line@),
{
    let n = line.len();
    let mut k: usize = 0;
    while k < n && (line[k] as u32) <= 32
        invariant
            n == line.len(),
            k <= n,
            forall|j: int| 0 <= j < k ==> is_blank(#[trigger] line@[j]),
        decreases n - k,
    {
        k = k + 1;
    }
    proof {
        lemma_lead_count_is(line@, k as int);
    }
    k
}

/// True when the line holds nothing but blank characters.
pub fn line_is_blank(line: &Vec<char>) -> (b: bool)
    ensures
        b == all_blank(line@),
{
    proof {
        lemma_lead_count(line@);
    }
    lead(line) == line.len()
}

/// True when `s`, read from position `from`, begins with `p`.
pub fn starts_with_at(s: &Vec<char>, from: usize, p: &Vec<char>) -> (b: bool)
    requires
        from <= s.len(),
    ensures
        b == starts_with(s@.skip(from as int), p@),
{
    let n = p.len();
    if s.len() - from < n {
        return false;
    }
    let mut i: usize = 0;
    while i < n
        invariant
            n == p.len(),
            from <= s.len(),
            from + n <= s.len(),
            i <= n,
            forall|j: int| 0 <= j < i ==> s@[from + j] == p@[j],
        decreases n - i,
    {
        if s[from + i] != p[i] {
            assert(s@.skip(from as int).take(n as int)[i as int] != p@[i as int]);
            return false;
        }
        i = i + 1;
    }
    assert(s@.skip(from as int).take(n as int) =~= p@);
    true
}

/// Appends `n` copies of `c` to `v`.
pub fn push_run(v: &mut Vec<char>, c: char, n: usize)
    ensures
        final(v)@ == old(v)@ + run_of(c, n as nat),
{
    let ghost start = v@;
    for i in 0..n
        invariant
            v@ == start + run_of(c, i as nat),
    {
        v.push(c);
        assert(start + run_of(c, (i + 1) as nat) =~= (start + run_of(c, i as nat)).push(c));
    }
}

/// Appends the characters of `w` from position `from` on to `v`.
pub fn push_from(v: &mut Vec<char>, w: &Vec<char>, from: usize)
    requires
        from <= w.len(),
    ensures
        final(v)@ == old(v)@ + w@.skip(from as int),
{
    let ghost start = v@;
    let n = w.len();
    let mut i = from;
    while i < n
        invariant
            n == w.len(),
            from <= i <= n,
            v@ == start + w@.subrange(from as int, i as int),
        decreases n - i,
    {
        v.push(w[i]);
        assert(start + w@.subrange(from as int, i + 1) =~= (start + w@.subrange(from as int, i as int)).push(w@[i as int]));
        i = i + 1;
    }
    assert(w@.subrange(from as int, n as int) =~= w@.skip(from as int));
}


/// The abstract value of a list of lines.
pub open spec fn lines_view(v: Seq<Vec<char>>) -> Seq<Seq<char>> {
    v.map_values(|l: Vec<char>| l@)
}

/// The pieces of `s` between its '\n' characters, the last one possibly
/// empty: always one piece more than `s` has line feeds.
pub open spec fn pieces(s: Seq<char>) -> Seq<Seq<char>>
    decreases s.len(),
{
    if s.len() == 0 {
        seq![seq![]]
    } else {
        let p = pieces(s.drop_last());
        if s.last() == '\n' {
            p.push(seq![])
        } else {
            p.update(p.len() - 1, p.last().push(s.last()))
        }
    }
}

/// A line ended by "\r\n" loses its '\r'.
pub open spec fn strip_cr(l: Seq<char>) -> Seq<char> {
    if l.len() > 0 && l.last() == '\r' {
        l.drop_last()
    } else {
        l
    }
}

/// The lines of a text as std's `str::lines` yields them: split at '\n',
/// a '\r' right before a '\n' dropped, and no line after a final '\n'.
pub open spec fn lines_of(s: Seq<char>) -> Seq<Seq<char>> {
    let p = pieces(s);
    let ended = p.drop_last().map_values(|l: Seq<char>| strip_cr(l));
    if p.last().len() == 0 {
        ended
    } else {
        ended.push(p.last())
    }
}

/// Each line followed by a '\n', all put together.
pub open spec fn join_lines(ls: Seq<Seq<char>>) -> Seq<char>
    decreases ls.len(),
{
    if ls.len() == 0 {
        seq![]
    } else {
        join_lines(ls.drop_last()) + ls.last() + seq!['\n']
    }
}

pub proof fn lemma_pieces(s: Seq<char>)
    ensures
        pieces(s).len() >= 1,
        forall|k: int| 0 <= k < pieces(s).len() ==> (#[trigger] pieces(s)[k]).len() <= s.len(),
    decreases s.len(),
{
    if s.len() > 0 {
        lemma_pieces(s.drop_last());
    }
}

/// No line is longer than the text it comes from.
pub proof fn lemma_lines_short(s: Seq<char>)
    ensures
        forall|k: int| 0 <= k < lines_of(s).len() ==> (#[trigger] lines_of(s)[k]).len() <= s.len(),
        s.len() > 0 ==> lines_of(s).len() >= 1,
{
    lemma_pieces(s);
    let p = pieces(s);
    assert forall|k: int| 0 <= k < lines_of(s).len() implies (#[trigger] lines_of(s)[k]).len() <= s.len() by {
        assert(p[k].len() <= s.len());
    }
    if s.len() > 0 {
        lemma_pieces(s.drop_last());
        let q = pieces(s.drop_last());
        if s.last() == '\n' {
            assert(p == q.push(seq![]));
            assert(p.len() >= 2);
        } else {
            assert(p == q.update(q.len() - 1, q.last().push(s.last())));
            assert(p.last().len() > 0);
        }
    }
}

/// Removes a '\r' from the end of a line.
fn drop_cr(line: &mut Vec<char>)
    ensures
        final(line)@ == strip_cr(old(line)@),
{
    let n = line.len();
    if n > 0 && line[n - 1] == '\r' {
        line.pop();
    }
}

/// Splits a text into its lines (see `lines_of`).
pub fn split_lines(s: &Vec<char>) -> (ls: Vec<Vec<char>>)
    ensures
        lines_view(ls@) == lines_of(s@),
{
    let mut done: Vec<Vec<char>> = Vec::new();
    let mut cur: Vec<char> = Vec::new();
    let n = s.len();
    proof {
        lemma_pieces(s@.take(0));
    }
    for i in 0..n
        invariant
            n == s.len(),
            pieces(s@.take(i as int)).len() >= 1,
            lines_view(done@) == pieces(s@.take(i as int)).drop_last().map_values(
                |l: Seq<char>| strip_cr(l),
            ),
            cur@ == pieces(s@.take(i as int)).last(),
    {
        let c = s[i];
        let ghost p = pieces(s@.take(i as int));
        assert(s@.take(i + 1).drop_last() == s@.take(i as int));
        assert(s@.take(i + 1).last() == c);
        if c == '\n' {
            let mut line = cur;
            drop_cr(&mut line);
            let ghost before = done@;
            done.push(line);
            assert(lines_view(done@) =~= lines_view(before).push(strip_cr(p.last())));
            assert(p.push(seq![]).drop_last() == p);
            assert(p.drop_last().map_values(|l: Seq<char>| strip_cr(l)).push(strip_cr(p.last()))
                =~= p.map_values(|l: Seq<char>| strip_cr(l)));
            cur = Vec::new();
        } else {
            cur.push(c);
            let ghost q = p.update(p.len() - 1, p.last().push(c));
            assert(q.drop_last() =~= p.drop_last());
        }
    }
    assert(s@.take(n as int) == s@);
    let ghost p = pieces(s@);
    if cur.len() > 0 {
        let ghost before = done@;
        done.push(cur);
        assert(lines_view(done@) =~= lines_view(before).push(p.last()));
    }
    done
}

/// Writes each line followed by a '\n' into one text.
pub fn join(ls: &Vec<Vec<char>>) -> (out: Vec<char>)
    ensures
        out@ == join_lines(lines_view(ls@)),
{
    let mut out: Vec<char> = Vec::new();
    let n = ls.len();
    for i in 0..n
        invariant
            n == ls.len(),
            out@ == join_lines(lines_view(ls@).take(i as int)),
    {
        push_from(&mut out, &ls[i], 0);
        out.push('\n');
        assert(lines_view(ls@).take(i + 1).drop_last() == lines_view(ls@).take(i as int));
        assert(ls@[i as int]@.skip(0) == ls@[i as int]@);
    }
    assert(lines_view(ls@).take(n as int) == lines_view(ls@));
    out
}


/// The number of blank lines at the end of a list of lines.
pub open spec fn blank_tail_len(ls: Seq<Seq<char>>) -> nat
    decreases ls.len(),
{
    if ls.len() > 0 && all_blank(ls.last()) {
        1 + blank_tail_len(ls.drop_last())
    } else {
        0
    }
}

/// The list without its trailing blank lines.
pub open spec fn without_blank_tail(ls: Seq<Seq<char>>) -> Seq<Seq<char>> {
    ls.take(ls.len() - blank_tail_len(ls))
}

pub proof fn lemma_blank_tail(ls: Seq<Seq<char>>)
    ensures
        blank_tail_len(ls) <= ls.len(),
        forall|j: int| ls.len() - blank_tail_len(ls) <= j < ls.len() ==> all_blank(#[trigger] ls[j]),
        blank_tail_len(ls) < ls.len() ==> !all_blank(ls[ls.len() - blank_tail_len(ls) - 1]),
    decreases ls.len(),
{
    if ls.len() > 0 && all_blank(ls.last()) {
        lemma_blank_tail(ls.drop_last());
        assert forall|j: int| ls.len() - blank_tail_len(ls) <= j < ls.len() implies all_blank(#[trigger] ls[j]) by {
            if j < ls.len() - 1 {
                assert(ls[j] == ls.drop_last()[j]);
            }
        }
        if blank_tail_len(ls) < ls.len() {
            assert(ls[ls.len() - blank_tail_len(ls) - 1] == ls.drop_last()[ls.len() - blank_tail_len(ls) - 1]);
        }
    }
}

/// The number of blank lines at the end of `ls`.
pub fn count_blank_tail(ls: &Vec<Vec<char>>) -> (k: usize)
    ensures
        k == blank_tail_len(lines_view(ls@)),
{
    let ghost all = lines_view(ls@);
    let mut i = ls.len();
    let mut k: usize = 0;
    assert(all.take(i as int) == all);
    while i > 0 && line_is_blank(&ls[i - 1])
        invariant
            i <= ls.len(),
            all == lines_view(ls@),
            k + i == ls.len(),
            blank_tail_len(all) == k + blank_tail_len(all.take(i as int)),
        decreases i,
    {
        assert(all.take(i as int).drop_last() == all.take(i - 1));
        assert(all.take(i as int).last() == all[i - 1]);
        i = i - 1;
        k = k + 1;
    }
    if i > 0 {
        assert(all.take(i as int).last() == all[i - 1]);
    }
    k
}

/// Drops the trailing blank lines of `ls`.
pub fn drop_blank_tail(ls: &mut Vec<Vec<char>>)
    ensures
        lines_view(final(ls)@) == without_blank_tail(lines_view(old(ls)@)),
{
    let k = count_blank_tail(ls);
    proof {
        lemma_blank_tail(lines_view(ls@));
    }
    let n = ls.len();
    ls.truncate(n - k);
    assert(lines_view(ls@) =~= without_blank_tail(lines_view(old(ls)@)));
}

/// `n` empty lines.
pub open spec fn empty_lines(n: nat) -> Seq<Seq<char>> {
    Seq::new(n, |_i: int| Seq::<char>::empty())
}

/// Appends `n` empty lines.
pub fn push_empty_lines(ls: &mut Vec<Vec<char>>, n: usize)
    ensures
        lines_view(final(ls)@) == lines_view(old(ls)@) + empty_lines(n as nat),
{
    let ghost start = lines_view(ls@);
    for i in 0..n
        invariant
            lines_view(ls@) == start + Seq::new(i as nat, |_i: int| Seq::<char>::empty()),
    {
        let ghost before = ls@;
        ls.push(Vec::new());
        assert(lines_view(ls@) =~= lines_view(before).push(Seq::<char>::empty()));
        assert(start + Seq::new((i + 1) as nat, |_i: int| Seq::<char>::empty()) =~= (start + Seq::new(i as nat, |_i: int| Seq::<char>::empty())).push(Seq::<char>::empty()));
    }
}

/// How the text indents: by the first line that starts with a space and
/// holds more than blanks (spaces, as many as it has leading blanks), or by
/// the first line that starts with a tab (one tab), whichever comes first;
/// four spaces when there is neither.
pub open spec fn indent_style(ls: Seq<Seq<char>>) -> (char, nat)
    decreases ls.len(),
{
    if ls.len() == 0 {
        (' ', 4)
    } else {
        let l = ls[0];
        if l.len() > 0 && l[0] == ' ' && !all_blank(l) {
            (' ', lead_count(l))
        } else if l.len() > 0 && l[0] == '\t' {
            ('\t', 1)
        } else {
            indent_style(ls.drop_first())
        }
    }
}

/// The indentation character and width of a text (see `indent_style`).
pub fn determine_whitespace_type(ls: &Vec<Vec<char>>) -> (r: (char, usize))
    ensures
        (r.0, r.1 as nat) == indent_style(lines_view(ls@)),
{
    let ghost all = lines_view(ls@);
    let n = ls.len();
    let mut i: usize = 0;
    assert(all.skip(0) == all);
    while i < n
        invariant
            n == ls.len(),
            all == lines_view(ls@),
            i <= n,
            indent_style(all) == indent_style(all.skip(i as int)),
        decreases n - i,
    {
        let line = &ls[i];
        assert(all.skip(i as int)[0] == line@);
        assert(all.skip(i as int).drop_first() == all.skip(i + 1));
        if line.len() > 0 && line[0] == ' ' {
            if !line_is_blank(line) {
                return (' ', lead(line));
            }
        } else if line.len() > 0 && line[0] == '\t' {
            return ('\t', 1);
        }
        i = i + 1;
    }
    (' ', 4)
}


/// The indentation width found is 4, 1, or the indentation of some line.
pub proof fn lemma_indent_style_bound(ls: Seq<Seq<char>>, b: nat)
    requires
        forall|k: int| 0 <= k < ls.len() ==> (#[trigger] ls[k]).len() <= b,
        b >= 4,
    ensures
        indent_style(ls).1 <= b,
    decreases ls.len(),
{
    if ls.len() > 0 {
        lemma_lead_count(ls[0]);
        assert forall|k: int| 0 <= k < ls.drop_first().len() implies (#[trigger] ls.drop_first()[k]).len() <= b by {
            assert(ls.drop_first()[k] == ls[k + 1]);
        }
        lemma_indent_style_bound(ls.drop_first(), b);
    }
}

/// A copy of a line.
pub fn copy_line(line: &Vec<char>) -> (r: Vec<char>)
    ensures
        r@ == line@,
{
    let mut r: Vec<char> = Vec::new();
    push_from(&mut r, line, 0);
    assert(line@.skip(0) == line@);
    r
}

} // verus!
