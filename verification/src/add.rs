use vstd::prelude::*;
use crate::comments::{char_at_is, comment_start, comment_text, is_comment};
use crate::brackets::{remove_chars, remove_text};
use crate::format::{CommentDetail, Problem, marks};
use crate::lines::{all_blank, blank_tail_len, copy_line, count_blank_tail, drop_blank_tail, empty_lines, lead, lead_count, lemma_lead_count, line_is_blank, lines_view, push_empty_lines, push_from, push_run, run_of, starts_with, trimmed, without_blank_tail, determine_whitespace_type, indent_style, join, join_lines, lines_of, split_lines};

verus! {

/// The comment that closes a block opened at indentation `depth`.
pub open spec fn close_line(depth: nat, cs: Seq<char>, wc: char) -> Seq<char> {
    run_of(wc, depth) + cs + seq!['<']
}

/// Closes every open block, innermost first, whose opening comment is
/// indented at least `x`: each closing comment goes right after the last
/// non-blank line, before the blank lines that end the list.
pub open spec fn end_blocks(
    ll: Seq<Seq<char>>,
    tr: Seq<(nat, nat)>,
    x: nat,
    cs: Seq<char>,
    wc: char,
) -> (Seq<Seq<char>>, Seq<(nat, nat)>)
    decreases tr.len(),
{
    if tr.len() > 0 && x <= tr.last().1 {
        let ll2 = without_blank_tail(ll).push(close_line(tr.last().1, cs, wc)) + empty_lines(
            blank_tail_len(ll),
        );
        end_blocks(ll2, tr.drop_last(), x, cs, wc)
    } else {
        (ll, tr)
    }
}

/// The index of the last non-blank line before index `idx`.
pub open spec fn last_solid_before(ll: Seq<Seq<char>>, idx: int) -> Option<nat>
    decreases idx,
{
    if idx <= 0 {
        None
    } else if !all_blank(ll[idx - 1]) {
        Some((idx - 1) as nat)
    } else {
        last_solid_before(ll, idx - 1)
    }
}

/// A comment line with `mark` put right after its comment starter.
pub open spec fn insert_after_starter(line: Seq<char>, cs: Seq<char>, mark: Seq<char>) -> Seq<char> {
    let p = lead_count(line) + cs.len();
    line.take(p as int) + mark + line.skip(p as int)
}

/// The last non-blank line before the comment at index `lc` is a closing
/// (`<`) comment at the same indentation.
pub open spec fn closes_before(ll: Seq<Seq<char>>, lc: nat, cs: Seq<char>) -> bool {
    match last_solid_before(ll, lc as int) {
        None => false,
        Some(j) => {
            let b = ll[j as int];
            let l = ll[lc as int];
            &&& is_comment(b, cs)
            &&& starts_with(comment_text(b, cs), seq!['<'])
            &&& (if all_blank(l) {
                0
            } else {
                lead_count(l)
            }) == lead_count(b)
        },
    }
}

/// The list without its last line, if it has one.
pub open spec fn pop_line(ll: Seq<Seq<char>>) -> Seq<Seq<char>> {
    if ll.len() > 0 {
        ll.drop_last()
    } else {
        ll
    }
}

/// Turns the comment at index `lc` into a block opener: when a closing
/// comment at the same indentation comes right before it (blank lines
/// aside), that closer is dropped and the comment gets `<>`, keeping the
/// blank lines around; otherwise the comment gets `>`.
pub open spec fn add_open_bracket(ll: Seq<Seq<char>>, lc: nat, cs: Seq<char>) -> Seq<Seq<char>> {
    let lwb = ll[lc as int];
    if closes_before(ll, lc, cs) {
        let after = blank_tail_len(ll);
        let l1 = pop_line(without_blank_tail(ll));
        let before = blank_tail_len(l1);
        let l2 = pop_line(without_blank_tail(l1));
        l2 + empty_lines(before) + seq![insert_after_starter(lwb, cs, seq!['<', '>'])] + empty_lines(
            after,
        )
    } else {
        ll.update(lc as int, insert_after_starter(lwb, cs, seq!['>']))
    }
}

/// The state of bracket adding: the lines so far, the comments that may
/// open or do open a block (line index, indentation), and whether it is
/// still open whether the last of them opens a block.
pub struct AddState {
    pub lines: Seq<Seq<char>>,
    pub open: Seq<(nat, nat)>,
    pub unsure: bool,
}

/// The abstract state of the bracket adder's variables.
pub open spec fn state_of(ll: Seq<Vec<char>>, tr: Seq<CommentDetail>, unsure: bool) -> AddState {
    AddState { lines: lines_view(ll), open: marks(tr), unsure }
}

/// What the tracked comment must be for the steps to come.
pub open spec fn add_state_ok(st: AddState, cs: Seq<char>) -> bool {
    st.unsure && st.open.len() > 0 ==> {
        let lc = st.open.last().0;
        &&& lc < st.lines.len()
        &&& is_comment(st.lines[lc as int], cs)
        &&& !all_blank(st.lines[lc as int])
    }
}

/// A new comment at indentation `x`, not yet known to open a block.
pub open spec fn pass_new(lines: Seq<Seq<char>>, open: Seq<(nat, nat)>, x: nat, line: Seq<char>) -> AddState {
    AddState { lines: lines.push(line), open: open.push((lines.len(), x)), unsure: true }
}

/// One step of bracket adding. A comment opens a block exactly when the
/// next non-blank line is indented deeper; a block ends before the first
/// non-blank line indented no deeper than its comment.
pub open spec fn add_step(st: AddState, line: Seq<char>, cs: Seq<char>, wc: char) -> AddState {
    if all_blank(line) {
        AddState { lines: st.lines.push(Seq::<char>::empty()), ..st }
    } else {
        let x = lead_count(line);
        if is_comment(line, cs) {
            if st.open.len() > 0 {
                let top = st.open.last();
                if st.unsure {
                    if x > top.1 {
                        pass_new(add_open_bracket(st.lines, top.0, cs), st.open, x, line)
                    } else {
                        let (l2, t2) = end_blocks(st.lines, st.open.drop_last(), x, cs, wc);
                        pass_new(l2, t2, x, line)
                    }
                } else if x > top.1 {
                    pass_new(st.lines, st.open, x, line)
                } else {
                    let (l2, t2) = end_blocks(st.lines, st.open, x, cs, wc);
                    pass_new(l2, t2, x, line)
                }
            } else {
                pass_new(st.lines, st.open, x, line)
            }
        } else if st.open.len() > 0 {
            let top = st.open.last();
            if st.unsure {
                if x > top.1 {
                    AddState {
                        lines: add_open_bracket(st.lines, top.0, cs).push(line),
                        open: st.open,
                        unsure: false,
                    }
                } else {
                    let (l2, t2) = end_blocks(st.lines, st.open.drop_last(), x, cs, wc);
                    AddState { lines: l2.push(line), open: t2, unsure: false }
                }
            } else if x > top.1 {
                AddState { lines: st.lines.push(line), ..st }
            } else {
                let (l2, t2) = end_blocks(st.lines, st.open, x, cs, wc);
                AddState { lines: l2.push(line), open: t2, unsure: st.unsure }
            }
        } else {
            AddState { lines: st.lines.push(line), ..st }
        }
    }
}

/// The state after the first `n` lines.
pub open spec fn add_prefix(ls: Seq<Seq<char>>, n: nat, cs: Seq<char>, wc: char) -> AddState
    decreases n,
{
    if n == 0 {
        AddState { lines: Seq::empty(), open: Seq::empty(), unsure: true }
    } else {
        add_step(add_prefix(ls, (n - 1) as nat, cs, wc), ls[n - 1], cs, wc)
    }
}

/// The lines with brackets added: after the last line, a comment still in
/// doubt opens nothing and every open block is closed (before the blank
/// lines that end the list, which are kept).
pub open spec fn add_lines(ls: Seq<Seq<char>>, cs: Seq<char>, wc: char) -> Seq<Seq<char>> {
    let st = add_prefix(ls, ls.len(), cs, wc);
    let open = if st.unsure && st.open.len() > 0 {
        st.open.drop_last()
    } else {
        st.open
    };
    end_blocks(st.lines, open, 0, cs, wc).0
}

/// The closing comment line for a block opened at indentation `depth`.
fn new_comment_closed_bracket(depth: usize, cs: &Vec<char>, wc: char) -> (r: Vec<char>)
    ensures
        r@ == close_line(depth as nat, cs@, wc),
{
    let mut r: Vec<char> = Vec::new();
    push_run(&mut r, wc, depth);
    push_from(&mut r, cs, 0);
    r.push('<');
    assert(cs@.skip(0) == cs@);
    r
}

/// Closes the open blocks indented at least `x` (see `end_blocks`).
fn end_the_last_structured_comments(
    ll: &mut Vec<Vec<char>>,
    tr: &mut Vec<CommentDetail>,
    x: usize,
    cs: &Vec<char>,
    wc: char,
)
    ensures
        (lines_view(final(ll)@), marks(final(tr)@)) == end_blocks(
            lines_view(old(ll)@),
            marks(old(tr)@),
            x as nat,
            cs@,
            wc,
        ),
{
    let ghost goal = end_blocks(lines_view(ll@), marks(tr@), x as nat, cs@, wc);
    while tr.len() > 0 && x <= tr[tr.len() - 1].depth
        invariant
            goal == end_blocks(lines_view(ll@), marks(tr@), x as nat, cs@, wc),
        decreases tr.len(),
    {
        let ghost l0 = lines_view(ll@);
        let ghost t0 = marks(tr@);
        let last = tr.len() - 1;
        let d = tr[last].depth;
        assert(t0.last().1 == d);
        let e = count_blank_tail(ll);
        drop_blank_tail(ll);
        let cl = new_comment_closed_bracket(d, cs, wc);
        let ghost l1 = lines_view(ll@);
        ll.push(cl);
        assert(lines_view(ll@) =~= l1.push(cl@));
        tr.pop();
        assert(marks(tr@) =~= t0.drop_last());
        push_empty_lines(ll, e);
    }
}

/// The index of the last non-blank line before `idx`.
fn last_non_empty_line_before_index(idx: usize, ll: &Vec<Vec<char>>) -> (r: Option<usize>)
    requires
        idx <= ll.len(),
    ensures
        r matches Some(j) ==> last_solid_before(lines_view(ll@), idx as int) == Some(j as nat),
        r is None ==> last_solid_before(lines_view(ll@), idx as int) is None,
{
    let ghost all = lines_view(ll@);
    let mut i = idx;
    while i > 0
        invariant
            i <= idx <= ll.len(),
            all == lines_view(ll@),
            last_solid_before(all, idx as int) == last_solid_before(all, i as int),
        decreases i,
    {
        assert(all[i - 1] == ll@[i - 1]@);
        if !line_is_blank(&ll[i - 1]) {
            return Some(i - 1);
        }
        i = i - 1;
    }
    None
}

/// A comment line with `mark` put right after its comment starter.
fn insert_after_starter_exec(line: &Vec<char>, cs: &Vec<char>, mark: &Vec<char>) -> (r: Vec<char>)
    requires
        is_comment(line@, cs@),
    ensures
        r@ == insert_after_starter(line@, cs@, mark@),
{
    let k = lead(line);
    proof {
        lemma_lead_count(line@);
        assert(trimmed(line@).len() == line.len() - k);
    }
    let p = k + cs.len();
    let mut r: Vec<char> = Vec::new();
    let mut i: usize = 0;
    while i < p
        invariant
            p <= line.len(),
            i <= p,
            r@ == line@.take(i as int),
        decreases p - i,
    {
        r.push(line[i]);
        assert(line@.take(i + 1) == line@.take(i as int).push(line@[i as int]));
        i = i + 1;
    }
    push_from(&mut r, mark, 0);
    push_from(&mut r, line, p);
    assert(mark@.skip(0) == mark@);
    r
}


proof fn lemma_last_solid_before(ll: Seq<Seq<char>>, idx: int)
    ensures
        last_solid_before(ll, idx) matches Some(j) ==> j < idx && !all_blank(ll[j as int]),
    decreases idx,
{
    if idx > 0 {
        lemma_last_solid_before(ll, idx - 1);
    }
}

/// Turns the tracked comment at index `lc` into a block opener (see
/// `add_open_bracket`).
fn add_open_bracket_to_last_comment(ll: &mut Vec<Vec<char>>, lc: usize, cs: &Vec<char>)
    requires
        lc < old(ll).len(),
        is_comment(old(ll)@[lc as int]@, cs@),
    ensures
        lines_view(final(ll)@) == add_open_bracket(lines_view(old(ll)@), lc as nat, cs@),
{
    let ghost l0 = lines_view(ll@);
    assert(l0[lc as int] == ll@[lc as int]@);
    let mut should = false;
    match last_non_empty_line_before_index(lc, ll) {
        Some(j) => {
            proof {
                lemma_last_solid_before(l0, lc as int);
            }
            let b = &ll[j];
            assert(l0[j as int] == b@);
            match comment_start(b, cs) {
                Some(k) => {
                    if char_at_is(b, k, '<') {
                        let lt = if line_is_blank(&ll[lc]) {
                            0
                        } else {
                            lead(&ll[lc])
                        };
                        if lt == lead(b) {
                            should = true;
                        }
                    }
                },
                None => {},
            }
        },
        None => {},
    }
    assert(should == closes_before(l0, lc as nat, cs@));
    let lwb = copy_line(&ll[lc]);
    if should {
        let after = count_blank_tail(ll);
        drop_blank_tail(ll);
        ll.pop();
        let ghost l1 = lines_view(ll@);
        assert(l1 =~= pop_line(without_blank_tail(l0)));
        let before = count_blank_tail(ll);
        drop_blank_tail(ll);
        ll.pop();
        assert(lines_view(ll@) =~= pop_line(without_blank_tail(l1)));
        push_empty_lines(ll, before);
        let mark = vec!['<', '>'];
        assert(mark@ =~= seq!['<', '>']);
        let nl = insert_after_starter_exec(&lwb, cs, &mark);
        let ghost l2 = lines_view(ll@);
        ll.push(nl);
        assert(lines_view(ll@) =~= l2.push(nl@));
        push_empty_lines(ll, after);
        assert(lines_view(ll@) =~= add_open_bracket(l0, lc as nat, cs@));
    } else {
        let mark = vec!['>'];
        assert(mark@ =~= seq!['>']);
        let nl = insert_after_starter_exec(&lwb, cs, &mark);
        ll.set(lc, nl);
        assert(lines_view(ll@) =~= l0.update(lc as int, nl@));
    }
}

/// Tracks a new comment at indentation `x`, not yet known to open a block.
fn pass_a_new_comment_that_we_dont_know_if_its_structured(
    ll: &mut Vec<Vec<char>>,
    tr: &mut Vec<CommentDetail>,
    unsure: &mut bool,
    x: usize,
    line: &Vec<char>,
)
    ensures
        state_of(final(ll)@, final(tr)@, *final(unsure))
            == pass_new(lines_view(old(ll)@), marks(old(tr)@), x as nat, line@),
{
    let ghost t0 = marks(tr@);
    let ghost l0 = lines_view(ll@);
    tr.push(CommentDetail { line: ll.len(), depth: x });
    *unsure = true;
    ll.push(copy_line(line));
    assert(marks(tr@) =~= t0.push((l0.len(), x as nat)));
    assert(lines_view(ll@) =~= l0.push(line@));
}

/// One step of bracket adding (see `add_step`).
fn add_line(
    ll: &mut Vec<Vec<char>>,
    tr: &mut Vec<CommentDetail>,
    unsure: &mut bool,
    line: &Vec<char>,
    cs: &Vec<char>,
    wc: char,
)
    requires
        add_state_ok(
            state_of(old(ll)@, old(tr)@, *old(unsure)),
            cs@,
        ),
    ensures
        state_of(final(ll)@, final(tr)@, *final(unsure))
            == add_step(
            state_of(old(ll)@, old(tr)@, *old(unsure)),
            line@,
            cs@,
            wc,
        ),
        add_state_ok(
            state_of(final(ll)@, final(tr)@, *final(unsure)),
            cs@,
        ),
{
    let ghost st = AddState { lines: lines_view(ll@), open: marks(tr@), unsure: *unsure };
    if line_is_blank(line) {
        let ghost l0 = lines_view(ll@);
        ll.push(Vec::new());
        assert(lines_view(ll@) =~= l0.push(Seq::<char>::empty()));
        return;
    }
    let x = lead(line);
    let is_comment_line = comment_start(line, cs).is_some();
    if tr.len() > 0 {
        let last = tr.len() - 1;
        let top = tr[last];
        assert(st.open.last() == (top.line as nat, top.depth as nat));
        if is_comment_line {
            if *unsure {
                if x > top.depth {
                    add_open_bracket_to_last_comment(ll, top.line, cs);
                    pass_a_new_comment_that_we_dont_know_if_its_structured(ll, tr, unsure, x, line);
                } else {
                    tr.pop();
                    assert(marks(tr@) =~= st.open.drop_last());
                    end_the_last_structured_comments(ll, tr, x, cs, wc);
                    pass_a_new_comment_that_we_dont_know_if_its_structured(ll, tr, unsure, x, line);
                }
            } else if x > top.depth {
                pass_a_new_comment_that_we_dont_know_if_its_structured(ll, tr, unsure, x, line);
            } else {
                end_the_last_structured_comments(ll, tr, x, cs, wc);
                pass_a_new_comment_that_we_dont_know_if_its_structured(ll, tr, unsure, x, line);
            }
        } else {
            if *unsure {
                if x > top.depth {
                    add_open_bracket_to_last_comment(ll, top.line, cs);
                } else {
                    tr.pop();
                    assert(marks(tr@) =~= st.open.drop_last());
                    end_the_last_structured_comments(ll, tr, x, cs, wc);
                }
                *unsure = false;
            } else if x > top.depth {
            } else {
                end_the_last_structured_comments(ll, tr, x, cs, wc);
            }
            let ghost l0 = lines_view(ll@);
            ll.push(copy_line(line));
            assert(lines_view(ll@) =~= l0.push(line@));
        }
    } else if is_comment_line {
        pass_a_new_comment_that_we_dont_know_if_its_structured(ll, tr, unsure, x, line);
    } else {
        let ghost l0 = lines_view(ll@);
        ll.push(copy_line(line));
        assert(lines_view(ll@) =~= l0.push(line@));
    }
}


/// The text with brackets added: its brackets are removed first (a
/// problem there is the answer), then the lines get brackets as
/// `add_lines` says, each ended by '\n'.
pub open spec fn add_text(s: Seq<char>, cs: Seq<char>) -> Result<Seq<char>, (nat, Problem)> {
    match remove_text(s, cs) {
        Err(e) => Err(e),
        Ok(r) => {
            let ls = lines_of(r);
            Ok(join_lines(add_lines(ls, cs, indent_style(ls).0)))
        },
    }
}

/// Adds brackets to a text (see `add_text`).
pub fn add_chars(s: &Vec<char>, cs: &Vec<char>) -> (r: Result<Vec<char>, (usize, Problem)>)
    requires
        s.len() <= isize::MAX,
    ensures
        r is Ok <==> add_text(s@, cs@) is Ok,
        r matches Ok(o) ==> add_text(s@, cs@) == Ok::<Seq<char>, (nat, Problem)>(o@),
        r matches Err(e) ==> add_text(s@, cs@) == Err::<Seq<char>, (nat, Problem)>((e.0 as nat, e.1)),
{
    let rm = match remove_chars(s, cs) {
        Ok(r) => r,
        Err(e) => return Err(e),
    };
    let ls = split_lines(&rm);
    let ghost all = lines_view(ls@);
    let (wc, _tab) = determine_whitespace_type(&ls);
    let mut ll: Vec<Vec<char>> = Vec::new();
    let mut tr: Vec<CommentDetail> = Vec::new();
    let mut unsure = true;
    let n = ls.len();
    assert(lines_view(ll@) =~= Seq::<Seq<char>>::empty());
    assert(marks(tr@) =~= Seq::<(nat, nat)>::empty());
    for i in 0..n
        invariant
            n == ls.len(),
            all == lines_view(ls@),
            state_of(ll@, tr@, unsure) == add_prefix(all, i as nat, cs@, wc),
            add_state_ok(state_of(ll@, tr@, unsure), cs@),
    {
        assert(all[i as int] == ls@[i as int]@);
        add_line(&mut ll, &mut tr, &mut unsure, &ls[i], cs, wc);
    }
    let ghost st = add_prefix(all, n as nat, cs@, wc);
    if unsure && tr.len() > 0 {
        tr.pop();
        assert(marks(tr@) =~= st.open.drop_last());
    }
    end_the_last_structured_comments(&mut ll, &mut tr, 0, cs, wc);
    Ok(join(&ll))
}

} // verus!
