use vstd::prelude::*;
use crate::lines::{lead, lead_count, lemma_lead_count, starts_with, starts_with_at, trimmed};

verus! {

/// The line holds a non-blank character and, past its indentation,
/// begins with the comment starter.
pub open spec fn is_comment(line: Seq<char>, cs: Seq<char>) -> bool {
    lead_count(line) < line.len() && starts_with(trimmed(line), cs)
}

/// Where the text of a comment line begins: past the indentation, the
/// comment starter and one space right after it, if there is one.
pub open spec fn comment_text_start(line: Seq<char>, cs: Seq<char>) -> nat {
    if starts_with(trimmed(line), cs.push(' ')) {
        lead_count(line) + cs.len() + 1
    } else {
        lead_count(line) + cs.len()
    }
}

/// The text of a comment line (see `comment_text_start`).
pub open spec fn comment_text(line: Seq<char>, cs: Seq<char>) -> Seq<char> {
    line.skip(comment_text_start(line, cs) as int)
}

/// What a line is to structured commenting.
#[derive(PartialEq, Eq, Structural, Clone, Copy, Debug)]
pub enum Bracket {
    /// a comment whose text begins with `>`: opens a block
    Open,
    /// a comment whose text begins with `<>`: closes a block and opens the next
    Middle,
    /// a comment whose text begins with `<` (but not `<>`): closes a block
    Close,
    /// any other line
    Plain,
}

pub open spec fn bracket_of(line: Seq<char>, cs: Seq<char>) -> Bracket {
    if !is_comment(line, cs) {
        Bracket::Plain
    } else {
        let t = comment_text(line, cs);
        if starts_with(t, seq!['>']) {
            Bracket::Open
        } else if starts_with(t, seq!['<', '>']) {
            Bracket::Middle
        } else if starts_with(t, seq!['<']) {
            Bracket::Close
        } else {
            Bracket::Plain
        }
    }
}

/// Where the text of the comment on this line begins, or `None` when the
/// line is no comment.
pub fn comment_start(line: &Vec<char>, cs: &Vec<char>) -> (r: Option<usize>)
    ensures
        r is Some <==> is_comment(line@, cs@),
        r matches Some(k) ==> k == comment_text_start(line@, cs@) && k <= line.len(),
{
    let k = lead(line);
    proof {
        lemma_lead_count(line@);
    }
    if k >= line.len() || !starts_with_at(line, k, cs) {
        return None;
    }
    let ghost t = trimmed(line@);
    assert(t.len() == line.len() - k);
    let m = k + cs.len();
    if m < line.len() && line[m] == ' ' {
        assert(t.take(cs.len() + 1) =~= cs@.push(' '));
        Some(m + 1)
    } else {
        proof {
            if starts_with(t, cs@.push(' ')) {
                assert(t.take(cs.len() + 1)[cs.len() as int] == ' ');
            }
        }
        Some(m)
    }
}

/// True when `line`, read from `from`, begins with the character `c`.
pub fn char_at_is(line: &Vec<char>, from: usize, c: char) -> (b: bool)
    requires
        from <= line.len(),
    ensures
        b == starts_with(line@.skip(from as int), seq![c]),
{
    if from < line.len() && line[from] == c {
        assert(line@.skip(from as int).take(1) =~= seq![c]);
        true
    } else {
        proof {
            if starts_with(line@.skip(from as int), seq![c]) {
                assert(line@.skip(from as int).take(1)[0] == c);
            }
        }
        false
    }
}

/// What the line is to structured commenting (see `bracket_of`).
pub fn bracket(line: &Vec<char>, cs: &Vec<char>) -> (b: Bracket)
    ensures
        b == bracket_of(line@, cs@),
{
    match comment_start(line, cs) {
        None => Bracket::Plain,
        Some(k) => {
            if char_at_is(line, k, '>') {
                Bracket::Open
            } else if char_at_is(line, k, '<') {
                let ghost t = line@.skip(k as int);
                if k + 1 < line.len() && line[k + 1] == '>' {
                    assert(t.take(2) =~= seq!['<', '>']);
                    Bracket::Middle
                } else {
                    proof {
                        if starts_with(t, seq!['<', '>']) {
                            assert(t.take(2)[1] == '>');
                        }
                    }
                    Bracket::Close
                }
            } else {
                proof {
                    if starts_with(line@.skip(k as int), seq!['<', '>']) {
                        assert(line@.skip(k as int).take(2)[0] == '<');
                        assert(line@.skip(k as int).take(1) =~= seq!['<']);
                    }
                }
                Bracket::Plain
            }
        },
    }
}

} // verus!
