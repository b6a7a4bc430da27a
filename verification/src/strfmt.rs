use vstd::prelude::*;
use crate::add::{add_chars, add_text};
use crate::brackets::{remove_chars, remove_text};
use crate::format::{Problem, format_chars, format_text};
use crate::languages::{comment_starter, comment_starter_of};
use crate::text::{char_count_fits, chars_of, string_of};

verus! {

/// The message that reports a problem.
pub open spec fn message(p: Problem) -> Seq<char> {
    match p {
        Problem::IncompatibleFileType => "Incompatible file type"@,
        Problem::MiddleClosedNothing => "<> closed nothing"@,
        Problem::CloseClosedNothing => "< closed nothing"@,
        Problem::UnclosedComment => "unclosed comment"@,
    }
}

/// The message that reports a problem.
pub fn problem_message(p: Problem) -> (m: String)
    ensures
        m@ == message(p),
{
    match p {
        Problem::IncompatibleFileType => "Incompatible file type".to_owned(),
        Problem::MiddleClosedNothing => "<> closed nothing".to_owned(),
        Problem::CloseClosedNothing => "< closed nothing".to_owned(),
        Problem::UnclosedComment => "unclosed comment".to_owned(),
    }
}

/// `r` is the answer `expected` describes: the same text, or the same line
/// number with the problem's message.
pub open spec fn answers(r: Result<String, (usize, String)>, expected: Result<Seq<char>, (nat, Problem)>) -> bool {
    match expected {
        Ok(t) => (r matches Ok(o) && o@ == t),
        Err((n, p)) => (r matches Err(e) && e.0 == n && e.1@ == message(p)),
    }
}

/// What a text transformation answers for a file type: an unknown file
/// type is reported on line 0, otherwise `f` decides with the file type's
/// comment starter.
pub open spec fn for_file_type(
    ft: Seq<char>,
    f: spec_fn(Seq<char>) -> Result<Seq<char>, (nat, Problem)>,
) -> Result<Seq<char>, (nat, Problem)> {
    match comment_starter_of(ft) {
        None => Err((0, Problem::IncompatibleFileType)),
        Some(cs) => f(cs),
    }
}

/// What `format_str` answers (see `format_text`).
pub open spec fn format_spec(s: Seq<char>, ft: Seq<char>) -> Result<Seq<char>, (nat, Problem)> {
    for_file_type(ft, |cs: Seq<char>| format_text(s, cs))
}

/// What `remove_brackets` answers (see `remove_text`).
pub open spec fn remove_spec(s: Seq<char>, ft: Seq<char>) -> Result<Seq<char>, (nat, Problem)> {
    for_file_type(ft, |cs: Seq<char>| remove_text(s, cs))
}

/// What `add_brackets` answers (see `add_text`).
pub open spec fn add_spec(s: Seq<char>, ft: Seq<char>) -> Result<Seq<char>, (nat, Problem)> {
    for_file_type(ft, |cs: Seq<char>| add_text(s, cs))
}

fn to_answer(r: Result<Vec<char>, (usize, Problem)>) -> (a: Result<String, (usize, String)>)
    ensures
        r matches Ok(o) ==> (a matches Ok(t) && t@ == o@),
        r matches Err(e) ==> (a matches Err(f) && f.0 == e.0 && f.1@ == message(e.1)),
{
    match r {
        Ok(o) => Ok(string_of(&o)),
        Err((n, p)) => Err((n, problem_message(p))),
    }
}

/// Indents the contents of bracketed structured comments one level deeper
/// than the comment that opens them, and empties blank lines, with the line
/// comment starter of the file type (see `supported_file_types`).
pub fn format_str(str: &str, filetype: &str) -> (r: Result<String, (usize, String)>)
    ensures
        answers(r, format_spec(str@, filetype@)),
        match comment_starter_of(filetype@) {
            None => answers(r, Err((0, Problem::IncompatibleFileType))),
            Some(cs) => answers(r, format_text(str@, cs)),
        },
{
    let cs = match comment_starter(filetype) {
        None => return Err((0, "Incompatible file type".to_owned())),
        Some(c) => chars_of(c),
    };
    char_count_fits(str);
    let s = chars_of(str);
    to_answer(format_chars(&s, &cs))
}

/// Converts bracketed structured comments into bracketless ones, with the
/// line comment starter of the file type (see `supported_file_types`).
pub fn remove_brackets(str: &str, filetype: &str) -> (r: Result<String, (usize, String)>)
    ensures
        answers(r, remove_spec(str@, filetype@)),
        match comment_starter_of(filetype@) {
            None => answers(r, Err((0, Problem::IncompatibleFileType))),
            Some(cs) => answers(r, remove_text(str@, cs)),
        },
{
    let cs = match comment_starter(filetype) {
        None => return Err((0, "Incompatible file type".to_owned())),
        Some(c) => chars_of(c),
    };
    char_count_fits(str);
    let s = chars_of(str);
    to_answer(remove_chars(&s, &cs))
}

/// Converts bracketless structured comments into bracketed ones, with the
/// line comment starter of the file type (see `supported_file_types`).
pub fn add_brackets(str: &str, filetype: &str) -> (r: Result<String, (usize, String)>)
    ensures
        answers(r, add_spec(str@, filetype@)),
        match comment_starter_of(filetype@) {
            None => answers(r, Err((0, Problem::IncompatibleFileType))),
            Some(cs) => answers(r, add_text(str@, cs)),
        },
{
    let cs = match comment_starter(filetype) {
        None => return Err((0, "Incompatible file type".to_owned())),
        Some(c) => chars_of(c),
    };
    char_count_fits(str);
    let s = chars_of(str);
    to_answer(add_chars(&s, &cs))
}

} // verus!
