use vstd::prelude::*;
use crate::comments::{Bracket, bracket, bracket_of, comment_start, comment_text};
use crate::format::{Problem, format_chars, format_text};
use crate::lines::{all_blank, copy_line, determine_whitespace_type, indent_style, join, join_lines, lead, lead_count, line_is_blank, lines_of, lines_view, push_from, push_run, run_of, split_lines};

verus! {

/// A formatted line with its bracket taken away: `<>` and `>` are removed
/// from the comment text (together with a space right after the comment
/// starter), a `<` line is dropped (`None`), blank lines become empty and
/// every other line stays as it is.
pub open spec fn unbracket_line(line: Seq<char>, cs: Seq<char>, wc: char) -> Option<Seq<char>> {
    match bracket_of(line, cs) {
        Bracket::Middle => Some(run_of(wc, lead_count(line)) + cs + comment_text(line, cs).skip(2)),
        Bracket::Open => Some(run_of(wc, lead_count(line)) + cs + comment_text(line, cs).skip(1)),
        Bracket::Close => None,
        Bracket::Plain => Some(
            if all_blank(line) {
                Seq::<char>::empty()
            } else {
                line
            },
        ),
    }
}

/// `unbracket_line` applied to every line, the dropped ones left out.
pub open spec fn unbracket_lines(ls: Seq<Seq<char>>, cs: Seq<char>, wc: char) -> Seq<Seq<char>>
    decreases ls.len(),
{
    if ls.len() == 0 {
        Seq::empty()
    } else {
        let r = unbracket_lines(ls.drop_last(), cs, wc);
        match unbracket_line(ls.last(), cs, wc) {
            Some(l) => r.push(l),
            None => r,
        }
    }
}

/// The text without brackets: it is formatted first (a problem there is
/// the answer), then every line loses its bracket and each line is ended
/// by '\n'. Empty lines, those at the end too, are kept.
pub open spec fn remove_text(s: Seq<char>, cs: Seq<char>) -> Result<Seq<char>, (nat, Problem)> {
    match format_text(s, cs) {
        Err(e) => Err(e),
        Ok(f) => {
            let ls = lines_of(f);
            let wc = indent_style(ls).0;
            Ok(join_lines(unbracket_lines(ls, cs, wc)))
        },
    }
}

/// The indentation `wc` repeated `d` times, the comment starter, and the
/// line from `from` on.
fn rebuild_comment(line: &Vec<char>, d: usize, wc: char, cs: &Vec<char>, from: usize) -> (r: Vec<char>)
    requires
        from <= line.len(),
    ensures
        r@ == run_of(wc, d as nat) + cs@ + line@.skip(from as int),
{
    let mut r: Vec<char> = Vec::new();
    push_run(&mut r, wc, d);
    push_from(&mut r, cs, 0);
    push_from(&mut r, line, from);
    assert(cs@.skip(0) == cs@);
    r
}

/// Removes the brackets of a text (see `remove_text`).
pub fn remove_chars(s: &Vec<char>, cs: &Vec<char>) -> (r: Result<Vec<char>, (usize, Problem)>)
    requires
        s.len() <= isize::MAX,
    ensures
        r is Ok <==> remove_text(s@, cs@) is Ok,
        r matches Ok(o) ==> remove_text(s@, cs@) == Ok::<Seq<char>, (nat, Problem)>(o@),
        r matches Err(e) ==> remove_text(s@, cs@) == Err::<Seq<char>, (nat, Problem)>((e.0 as nat, e.1)),
{
    let f = match format_chars(s, cs) {
        Ok(f) => f,
        Err(e) => return Err(e),
    };
    let ls = split_lines(&f);
    let ghost all = lines_view(ls@);
    let (wc, _tab) = determine_whitespace_type(&ls);
    let mut out: Vec<Vec<char>> = Vec::new();
    let n = ls.len();
    assert(all.take(0) =~= Seq::<Seq<char>>::empty());
    for i in 0..n
        invariant
            n == ls.len(),
            all == lines_view(ls@),
            lines_view(out@) == unbracket_lines(all.take(i as int), cs@, wc),
    {
        let line = &ls[i];
        assert(all.take(i + 1).drop_last() == all.take(i as int));
        assert(all.take(i + 1).last() == line@);
        let ghost before = lines_view(out@);
        match bracket(line, cs) {
            Bracket::Middle => {
                let k = comment_start(line, cs).unwrap();
                let d = lead(line);
                assert(line@.skip(k as int).len() >= 2);
                let nl = rebuild_comment(line, d, wc, cs, k + 2);
                assert(line@.skip(k as int).skip(2) =~= line@.skip(k + 2));
                out.push(nl);
                assert(lines_view(out@) =~= before.push(nl@));
            },
            Bracket::Open => {
                let k = comment_start(line, cs).unwrap();
                let d = lead(line);
                assert(line@.skip(k as int).len() >= 1);
                let nl = rebuild_comment(line, d, wc, cs, k + 1);
                assert(line@.skip(k as int).skip(1) =~= line@.skip(k + 1));
                out.push(nl);
                assert(lines_view(out@) =~= before.push(nl@));
            },
            Bracket::Close => {},
            Bracket::Plain => {
                let nl = if line_is_blank(line) {
                    Vec::new()
                } else {
                    copy_line(line)
                };
                out.push(nl);
                assert(lines_view(out@) =~= before.push(nl@));
            },
        }
    }
    assert(all.take(n as int) == all);
    Ok(join(&out))
}

} // verus!
