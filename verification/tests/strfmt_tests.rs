use scfmt::comments::comment_start;
use scfmt::strfmt;

#[test]
fn format_leaves_last_line_empty() {
    let formatted = strfmt::format_str("", "rs").unwrap();
    assert_eq!(formatted, "");
    let formatted = strfmt::format_str("//>\n//<", "rs").unwrap();
    assert_eq!(formatted, "//>\n//<");
    let formatted = strfmt::format_str("//>\n//<\n", "rs").unwrap();
    assert_eq!(formatted, "//>\n//<\n");
    let formatted = strfmt::format_str("//>\n//<\n\n", "rs").unwrap();
    assert_eq!(formatted, "//>\n//<\n\n");
    let formatted = strfmt::format_str("//>\n//<\n\n ", "rs").unwrap();
    assert_eq!(formatted, "//>\n//<\n\n");
}

#[test]
fn format_indents_block_contents() {
    let formatted = strfmt::format_str("//> a\nx\n//<", "rs").unwrap();
    assert_eq!(formatted, "//> a\n    x\n//<");
}

#[test]
fn format_continues_block_with_middle_bracket() {
    let formatted = strfmt::format_str("//> a\nx\n//<> b\ny\n//<\n", "rs").unwrap();
    assert_eq!(formatted, "//> a\n    x\n//<> b\n    y\n//<\n");
}

#[test]
fn format_keeps_tab_indentation() {
    let formatted = strfmt::format_str("//>\n\tx\n//<\n", "rs").unwrap();
    assert_eq!(formatted, "//>\n\tx\n//<\n");
}

#[test]
fn format_empties_blank_lines() {
    let formatted = strfmt::format_str("//>\n   \n//<\n", "rs").unwrap();
    assert_eq!(formatted, "//>\n\n//<\n");
}

#[test]
fn format_drops_carriage_returns() {
    let formatted = strfmt::format_str("a\r\nb", "rs").unwrap();
    assert_eq!(formatted, "a\nb");
}

#[test]
fn format_reports_close_without_open() {
    let formatted = strfmt::format_str("fn a() {\n//<\n}\n", "rs");
    assert_eq!(formatted, Err((2, "< closed nothing".to_owned())));
}

#[test]
fn format_reports_middle_without_open() {
    let formatted = strfmt::format_str("//<> x\n", "rs");
    assert_eq!(formatted, Err((1, "<> closed nothing".to_owned())));
}

#[test]
fn format_reports_unclosed_block() {
    let formatted = strfmt::format_str("a\n  //> x\nb\n", "rs");
    assert_eq!(formatted, Err((2, "unclosed comment".to_owned())));
}

#[test]
fn format_reports_unknown_file_type() {
    let formatted = strfmt::format_str("x", "zzz");
    assert_eq!(formatted, Err((0, "Incompatible file type".to_owned())));
    let removed = strfmt::remove_brackets("x", "zzz");
    assert_eq!(removed, Err((0, "Incompatible file type".to_owned())));
    let added = strfmt::add_brackets("x", "zzz");
    assert_eq!(added, Err((0, "Incompatible file type".to_owned())));
}

#[test]
fn format_uses_the_file_types_comment_starter() {
    let formatted = strfmt::format_str("#> a\nx\n#<\n", "py");
    assert_eq!(formatted, Err((0, "Incompatible file type".to_owned())));
    let formatted = strfmt::format_str("#> a\nx\n#<\n", "sh").unwrap();
    assert_eq!(formatted, "#> a\n    x\n#<\n");
}

#[test]
fn remove_brackets_drops_closers_and_marks() {
    let removed = strfmt::remove_brackets("//> a\n    x\n//<> b\n    y\n//<\n", "rs").unwrap();
    assert_eq!(removed, "// a\n    x\n// b\n    y\n");
}

#[test]
fn remove_brackets_reports_format_problems() {
    let removed = strfmt::remove_brackets("//> a\nx\n", "rs");
    assert_eq!(removed, Err((1, "unclosed comment".to_owned())));
}

#[test]
fn add_brackets_marks_structured_comments() {
    let added = strfmt::add_brackets("// a\n    x\n// b\n    y\n", "rs").unwrap();
    assert_eq!(added, "//> a\n    x\n//<> b\n    y\n//<\n");
}

#[test]
fn add_brackets_leaves_plain_comments() {
    let added = strfmt::add_brackets("// a\nx\n", "rs").unwrap();
    assert_eq!(added, "// a\nx\n");
}

#[test]
fn format_indents_nested_blocks() {
    let formatted = strfmt::format_str("//> a\n//> b\nx\n//<\n//<\n", "rs").unwrap();
    assert_eq!(formatted, "//> a\n    //> b\n        x\n    //<\n//<\n");
}

fn non_blank(s: &str) -> String {
    s.chars().filter(|c| (*c as u32) > 32).collect()
}

#[test]
fn format_keeps_the_non_blank_characters() {
    let input = "fn main() {\n//> setup\nlet a = 1;\n   \t\n  //<> work\n\tlet b = a;\r\n//<\n}";
    let formatted = strfmt::format_str(input, "rs").unwrap();
    assert_eq!(non_blank(&formatted), non_blank(input));
    assert_eq!(formatted.lines().count(), input.lines().count());
}

#[test]
fn format_without_brackets_changes_only_blank_lines() {
    let input = "fn main() {\n    // plain comment\n    let a = 1;\n   \n}\n";
    let formatted = strfmt::format_str(input, "rs").unwrap();
    assert_eq!(formatted, "fn main() {\n    // plain comment\n    let a = 1;\n\n}\n");
}

#[test]
fn add_brackets_reports_format_problems() {
    let added = strfmt::add_brackets("//< x\n", "rs");
    assert_eq!(added, Err((1, "< closed nothing".to_owned())));
}

#[test]
fn add_brackets_output_is_accepted_by_format() {
    let input = "// a\n    x\n\n// b\n    // c\n        y\n    z\nend\n";
    let added = strfmt::add_brackets(input, "rs").unwrap();
    assert!(strfmt::format_str(&added, "rs").is_ok());
    assert_eq!(
        added,
        "//> a\n    x\n\n//<> b\n    //> c\n        y\n    //<\n    z\n//<\nend\n"
    );
}

fn without_added_brackets(s: &str) -> Vec<String> {
    let mut out: Vec<String> = Vec::new();
    for line in s.lines() {
        let lead = line.len() - line.trim_start().len();
        let rest = &line[lead..];
        if let Some(text) = rest.strip_prefix("//") {
            if let Some(t) = text.strip_prefix("<>") {
                out.push(format!("{}//{}", &line[..lead], t));
            } else if let Some(t) = text.strip_prefix('>') {
                out.push(format!("{}//{}", &line[..lead], t));
            } else if !text.starts_with('<') {
                out.push(line.to_owned());
            }
        } else {
            out.push(line.to_owned());
        }
    }
    out
}

#[test]
fn add_brackets_changes_nothing_but_brackets() {
    let input = "// a\n    x\n   \n// b\n    // c\n        y\n    z\nend\n\n\n";
    let added = strfmt::add_brackets(input, "rs").unwrap();
    let expected: Vec<String> = vec![
        "// a", "    x", "", "// b", "    // c", "        y", "    z", "end", "", "",
    ]
    .into_iter()
    .map(|l| l.to_owned())
    .collect();
    assert_eq!(without_added_brackets(&added), expected);
}

#[test]
fn format_indents_by_the_first_indented_line() {
    let formatted = strfmt::format_str("//>\nx\n//<\n  y\n", "rs").unwrap();
    assert_eq!(formatted, "//>\n  x\n//<\n  y\n");
}

#[test]
fn remove_brackets_changes_nothing_but_brackets_and_indentation() {
    let input = "fn main() {\n    //> setup\n  let a = 1;\n   \n    //<> work\nlet b = a;\n    //<\n}\n\n";
    let removed = strfmt::remove_brackets(input, "rs").unwrap();
    let texts: Vec<&str> = removed.lines().map(|l| l.trim_start()).collect();
    assert_eq!(texts, vec!["fn main() {", "// setup", "let a = 1;", "", "// work", "let b = a;", "}", ""]);
    assert!(removed.ends_with("}\n\n"));
}

#[test]
fn remove_and_add_keep_ending_empty_lines() {
    assert_eq!(strfmt::remove_brackets("a\n\n", "rs"), Ok("a\n\n".to_string()));
    assert_eq!(strfmt::add_brackets("a\n\n", "rs"), Ok("a\n\n".to_string()));
    assert_eq!(strfmt::remove_brackets("//> a\n    x\n//<\n\n\n", "rs"), Ok("// a\n    x\n\n\n".to_string()));
    assert_eq!(strfmt::add_brackets("// a\n    x\n\n", "rs"), Ok("//> a\n    x\n//<\n\n".to_string()));
}

#[test]
fn remove_brackets_twice_changes_nothing_more() {
    let input = "//> a\n    x\n//<> b\n  y\n//<\n\n";
    let once = strfmt::remove_brackets(input, "rs").unwrap();
    assert_eq!(once, "// a\n    x\n// b\n    y\n\n");
    let twice = strfmt::remove_brackets(&once, "rs").unwrap();
    assert_eq!(twice, once);
}

#[test]
fn remove_brackets_undoes_add_brackets() {
    let input = "// a\n    x\n// b\n    // c\n        y\nend\n\n";
    let removed = strfmt::remove_brackets(input, "rs").unwrap();
    let added = strfmt::add_brackets(input, "rs").unwrap();
    assert_eq!(added, "//> a\n    x\n//<> b\n    //> c\n        y\n    //<\n//<\nend\n\n");
    assert_eq!(strfmt::format_str(&added, "rs").unwrap(), added);
    assert_eq!(strfmt::remove_brackets(&added, "rs").unwrap(), removed);
    assert_eq!(strfmt::add_brackets(&added, "rs").unwrap(), added);
}

#[test]
fn add_brackets_marks_only_comments_heading_deeper_lines() {
    let input = "// a\n    x\n// b\nz\n  // c\n\n    w\n// d\n";
    let added = strfmt::add_brackets(input, "rs").unwrap();
    assert_eq!(added, "//> a\n    x\n//<\n// b\nz\n  //> c\n\n    w\n  //<\n// d\n");
}

#[test]
fn blank_line_is_no_comment_even_for_an_empty_starter() {
    assert_eq!(comment_start(&vec![' ', ' '], &Vec::new()), None);
    assert_eq!(comment_start(&vec![' ', 'x'], &Vec::new()), Some(1));
}
