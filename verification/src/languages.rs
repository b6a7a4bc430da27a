use vstd::prelude::*;
use crate::balance::starter_ok;
use crate::text::str_eq;

verus! {

/// The line comment starter of each supported file extension.
pub open spec fn comment_starter_of(ft: Seq<char>) -> Option<Seq<char>> {
    if ft == "adb"@ {
        Some("--"@)
    } else if ft == "ads"@ {
        Some("--"@)
    } else if ft == "asm"@ {
        Some(";"@)
    } else if ft == "al"@ {
        Some("//"@)
    } else if ft == "bib"@ {
        Some("%"@)
    } else if ft == "brs"@ {
        Some("'"@)
    } else if ft == "c"@ {
        Some("//"@)
    } else if ft == "cfc"@ {
        Some("//"@)
    } else if ft == "clj"@ {
        Some(";"@)
    } else if ft == "cls"@ {
        Some("//"@)
    } else if ft == "cpp"@ {
        Some("//"@)
    } else if ft == "cs"@ {
        Some("//"@)
    } else if ft == "csx"@ {
        Some("//"@)
    } else if ft == "d"@ {
        Some("//"@)
    } else if ft == "dart"@ {
        Some("//"@)
    } else if ft == "do"@ {
        Some("*"@)
    } else if ft == "ex"@ {
        Some("#"@)
    } else if ft == "elm"@ {
        Some("--"@)
    } else if ft == "gd"@ {
        Some("#"@)
    } else if ft == "gen"@ {
        Some("\\"@)
    } else if ft == "go"@ {
        Some("//"@)
    } else if ft == "graphql"@ {
        Some("#"@)
    } else if ft == "groovy"@ {
        Some("//"@)
    } else if ft == "hs"@ {
        Some("--"@)
    } else if ft == "lhs"@ {
        Some("--"@)
    } else if ft == "java"@ {
        Some("//"@)
    } else if ft == "js"@ {
        Some("//"@)
    } else if ft == "cjs"@ {
        Some("//"@)
    } else if ft == "mjs"@ {
        Some("//"@)
    } else if ft == "jsonc"@ {
        Some("//"@)
    } else if ft == "lisp"@ {
        Some(";;"@)
    } else if ft == "lua"@ {
        Some("--"@)
    } else if ft == "m"@ {
        Some("%"@)
    } else if ft == "nim"@ {
        Some("#"@)
    } else if ft == "pas"@ {
        Some("//"@)
    } else if ft == "php"@ {
        Some("//"@)
    } else if ft == "pig"@ {
        Some("--"@)
    } else if ft == "plsql"@ {
        Some("--"@)
    } else if ft == "pp"@ {
        Some("//"@)
    } else if ft == "ps1"@ {
        Some("#"@)
    } else if ft == "pu"@ {
        Some("'"@)
    } else if ft == "q"@ {
        Some("--"@)
    } else if ft == "rkt"@ {
        Some(";"@)
    } else if ft == "rs"@ {
        Some("//"@)
    } else if ft == "sas"@ {
        Some("*"@)
    } else if ft == "sass"@ {
        Some("//"@)
    } else if ft == "scss"@ {
        Some("//"@)
    } else if ft == "shader"@ {
        Some("//"@)
    } else if ft == "sh"@ {
        Some("#"@)
    } else if ft == "sol"@ {
        Some("//"@)
    } else if ft == "styl"@ {
        Some("//"@)
    } else if ft == "svelte"@ {
        Some("//"@)
    } else if ft == "tcl"@ {
        Some("#"@)
    } else if ft == "toml"@ {
        Some("#"@)
    } else if ft == "ts"@ {
        Some("//"@)
    } else if ft == "tsx"@ {
        Some("//"@)
    } else if ft == "vala"@ {
        Some("//"@)
    } else if ft == "v"@ {
        Some("//"@)
    } else if ft == "vhdl"@ {
        Some("--"@)
    } else if ft == "vue"@ {
        Some("//"@)
    } else if ft == "yaml"@ {
        Some("#"@)
    } else {
        None
    }
}

/// The line comment starter for files with the extension `filetype`, or
/// `None` when the file type is not supported.
pub fn comment_starter(filetype: &str) -> (r: Option<&'static str>)
    ensures
        match comment_starter_of(filetype@) {
            None => r is None,
            Some(cs) => r matches Some(s) && s@ == cs,
        },
{
    if str_eq(filetype, "adb") {
        Some("--")
    } else if str_eq(filetype, "ads") {
        Some("--")
    } else if str_eq(filetype, "asm") {
        Some(";")
    } else if str_eq(filetype, "al") {
        Some("//")
    } else if str_eq(filetype, "bib") {
        Some("%")
    } else if str_eq(filetype, "brs") {
        Some("'")
    } else if str_eq(filetype, "c") {
        Some("//")
    } else if str_eq(filetype, "cfc") {
        Some("//")
    } else if str_eq(filetype, "clj") {
        Some(";")
    } else if str_eq(filetype, "cls") {
        Some("//")
    } else if str_eq(filetype, "cpp") {
        Some("//")
    } else if str_eq(filetype, "cs") {
        Some("//")
    } else if str_eq(filetype, "csx") {
        Some("//")
    } else if str_eq(filetype, "d") {
        Some("//")
    } else if str_eq(filetype, "dart") {
        Some("//")
    } else if str_eq(filetype, "do") {
        Some("*")
    } else if str_eq(filetype, "ex") {
        Some("#")
    } else if str_eq(filetype, "elm") {
        Some("--")
    } else if str_eq(filetype, "gd") {
        Some("#")
    } else if str_eq(filetype, "gen") {
        Some("\\")
    } else if str_eq(filetype, "go") {
        Some("//")
    } else if str_eq(filetype, "graphql") {
        Some("#")
    } else if str_eq(filetype, "groovy") {
        Some("//")
    } else if str_eq(filetype, "hs") {
        Some("--")
    } else if str_eq(filetype, "lhs") {
        Some("--")
    } else if str_eq(filetype, "java") {
        Some("//")
    } else if str_eq(filetype, "js") {
        Some("//")
    } else if str_eq(filetype, "cjs") {
        Some("//")
    } else if str_eq(filetype, "mjs") {
        Some("//")
    } else if str_eq(filetype, "jsonc") {
        Some("//")
    } else if str_eq(filetype, "lisp") {
        Some(";;")
    } else if str_eq(filetype, "lua") {
        Some("--")
    } else if str_eq(filetype, "m") {
        Some("%")
    } else if str_eq(filetype, "nim") {
        Some("#")
    } else if str_eq(filetype, "pas") {
        Some("//")
    } else if str_eq(filetype, "php") {
        Some("//")
    } else if str_eq(filetype, "pig") {
        Some("--")
    } else if str_eq(filetype, "plsql") {
        Some("--")
    } else if str_eq(filetype, "pp") {
        Some("//")
    } else if str_eq(filetype, "ps1") {
        Some("#")
    } else if str_eq(filetype, "pu") {
        Some("'")
    } else if str_eq(filetype, "q") {
        Some("--")
    } else if str_eq(filetype, "rkt") {
        Some(";")
    } else if str_eq(filetype, "rs") {
        Some("//")
    } else if str_eq(filetype, "sas") {
        Some("*")
    } else if str_eq(filetype, "sass") {
        Some("//")
    } else if str_eq(filetype, "scss") {
        Some("//")
    } else if str_eq(filetype, "shader") {
        Some("//")
    } else if str_eq(filetype, "sh") {
        Some("#")
    } else if str_eq(filetype, "sol") {
        Some("//")
    } else if str_eq(filetype, "styl") {
        Some("//")
    } else if str_eq(filetype, "svelte") {
        Some("//")
    } else if str_eq(filetype, "tcl") {
        Some("#")
    } else if str_eq(filetype, "toml") {
        Some("#")
    } else if str_eq(filetype, "ts") {
        Some("//")
    } else if str_eq(filetype, "tsx") {
        Some("//")
    } else if str_eq(filetype, "vala") {
        Some("//")
    } else if str_eq(filetype, "v") {
        Some("//")
    } else if str_eq(filetype, "vhdl") {
        Some("--")
    } else if str_eq(filetype, "vue") {
        Some("//")
    } else if str_eq(filetype, "yaml") {
        Some("#")
    } else {
        None
    }
}


/// Every supported file type has a comment starter of non-blank
/// characters.
pub proof fn supported_starters_are_non_blank(ft: Seq<char>)
    ensures
        comment_starter_of(ft) matches Some(cs) ==> starter_ok(cs),
{
    reveal_strlit("#");
    reveal_strlit("%");
    reveal_strlit("'");
    reveal_strlit("*");
    reveal_strlit("--");
    reveal_strlit("//");
    reveal_strlit(";");
    reveal_strlit(";;");
    reveal_strlit("\\");
}


/// The supported file types and their line comment starters, entry by
/// entry, and no other file type: the extension table of the formatter.
pub proof fn supported_file_types(ft: Seq<char>)
    ensures
        comment_starter_of("adb"@) == Some("--"@),
        comment_starter_of("ads"@) == Some("--"@),
        comment_starter_of("asm"@) == Some(";"@),
        comment_starter_of("al"@) == Some("//"@),
        comment_starter_of("bib"@) == Some("%"@),
        comment_starter_of("brs"@) == Some("'"@),
        comment_starter_of("c"@) == Some("//"@),
        comment_starter_of("cfc"@) == Some("//"@),
        comment_starter_of("clj"@) == Some(";"@),
        comment_starter_of("cls"@) == Some("//"@),
        comment_starter_of("cpp"@) == Some("//"@),
        comment_starter_of("cs"@) == Some("//"@),
        comment_starter_of("csx"@) == Some("//"@),
        comment_starter_of("d"@) == Some("//"@),
        comment_starter_of("dart"@) == Some("//"@),
        comment_starter_of("do"@) == Some("*"@),
        comment_starter_of("ex"@) == Some("#"@),
        comment_starter_of("elm"@) == Some("--"@),
        comment_starter_of("gd"@) == Some("#"@),
        comment_starter_of("gen"@) == Some("\\"@),
        comment_starter_of("go"@) == Some("//"@),
        comment_starter_of("graphql"@) == Some("#"@),
        comment_starter_of("groovy"@) == Some("//"@),
        comment_starter_of("hs"@) == Some("--"@),
        comment_starter_of("lhs"@) == Some("--"@),
        comment_starter_of("java"@) == Some("//"@),
        comment_starter_of("js"@) == Some("//"@),
        comment_starter_of("cjs"@) == Some("//"@),
        comment_starter_of("mjs"@) == Some("//"@),
        comment_starter_of("jsonc"@) == Some("//"@),
        comment_starter_of("lisp"@) == Some(";;"@),
        comment_starter_of("lua"@) == Some("--"@),
        comment_starter_of("m"@) == Some("%"@),
        comment_starter_of("nim"@) == Some("#"@),
        comment_starter_of("pas"@) == Some("//"@),
        comment_starter_of("php"@) == Some("//"@),
        comment_starter_of("pig"@) == Some("--"@),
        comment_starter_of("plsql"@) == Some("--"@),
        comment_starter_of("pp"@) == Some("//"@),
        comment_starter_of("ps1"@) == Some("#"@),
        comment_starter_of("pu"@) == Some("'"@),
        comment_starter_of("q"@) == Some("--"@),
        comment_starter_of("rkt"@) == Some(";"@),
        comment_starter_of("rs"@) == Some("//"@),
        comment_starter_of("sas"@) == Some("*"@),
        comment_starter_of("sass"@) == Some("//"@),
        comment_starter_of("scss"@) == Some("//"@),
        comment_starter_of("shader"@) == Some("//"@),
        comment_starter_of("sh"@) == Some("#"@),
        comment_starter_of("sol"@) == Some("//"@),
        comment_starter_of("styl"@) == Some("//"@),
        comment_starter_of("svelte"@) == Some("//"@),
        comment_starter_of("tcl"@) == Some("#"@),
        comment_starter_of("toml"@) == Some("#"@),
        comment_starter_of("ts"@) == Some("//"@),
        comment_starter_of("tsx"@) == Some("//"@),
        comment_starter_of("vala"@) == Some("//"@),
        comment_starter_of("v"@) == Some("//"@),
        comment_starter_of("vhdl"@) == Some("--"@),
        comment_starter_of("vue"@) == Some("//"@),
        comment_starter_of("yaml"@) == Some("#"@),
        comment_starter_of(ft) is Some ==> {
            ||| ft == "adb"@
            ||| ft == "ads"@
            ||| ft == "asm"@
            ||| ft == "al"@
            ||| ft == "bib"@
            ||| ft == "brs"@
            ||| ft == "c"@
            ||| ft == "cfc"@
            ||| ft == "clj"@
            ||| ft == "cls"@
            ||| ft == "cpp"@
            ||| ft == "cs"@
            ||| ft == "csx"@
            ||| ft == "d"@
            ||| ft == "dart"@
            ||| ft == "do"@
            ||| ft == "ex"@
            ||| ft == "elm"@
            ||| ft == "gd"@
            ||| ft == "gen"@
            ||| ft == "go"@
            ||| ft == "graphql"@
            ||| ft == "groovy"@
            ||| ft == "hs"@
            ||| ft == "lhs"@
            ||| ft == "java"@
            ||| ft == "js"@
            ||| ft == "cjs"@
            ||| ft == "mjs"@
            ||| ft == "jsonc"@
            ||| ft == "lisp"@
            ||| ft == "lua"@
            ||| ft == "m"@
            ||| ft == "nim"@
            ||| ft == "pas"@
            ||| ft == "php"@
            ||| ft == "pig"@
            ||| ft == "plsql"@
            ||| ft == "pp"@
            ||| ft == "ps1"@
            ||| ft == "pu"@
            ||| ft == "q"@
            ||| ft == "rkt"@
            ||| ft == "rs"@
            ||| ft == "sas"@
            ||| ft == "sass"@
            ||| ft == "scss"@
            ||| ft == "shader"@
            ||| ft == "sh"@
            ||| ft == "sol"@
            ||| ft == "styl"@
            ||| ft == "svelte"@
            ||| ft == "tcl"@
            ||| ft == "toml"@
            ||| ft == "ts"@
            ||| ft == "tsx"@
            ||| ft == "vala"@
            ||| ft == "v"@
            ||| ft == "vhdl"@
            ||| ft == "vue"@
            ||| ft == "yaml"@
        },
{
    reveal_strlit("adb");
    assert("adb"@.len() == 3 && "adb"@[0] == 'a' && "adb"@[1] == 'd' && "adb"@[2] == 'b');
    reveal_strlit("ads");
    assert("ads"@.len() == 3 && "ads"@[0] == 'a' && "ads"@[1] == 'd' && "ads"@[2] == 's');
    reveal_strlit("asm");
    assert("asm"@.len() == 3 && "asm"@[0] == 'a' && "asm"@[1] == 's' && "asm"@[2] == 'm');
    reveal_strlit("al");
    assert("al"@.len() == 2 && "al"@[0] == 'a' && "al"@[1] == 'l');
    reveal_strlit("bib");
    assert("bib"@.len() == 3 && "bib"@[0] == 'b' && "bib"@[1] == 'i' && "bib"@[2] == 'b');
    reveal_strlit("brs");
    assert("brs"@.len() == 3 && "brs"@[0] == 'b' && "brs"@[1] == 'r' && "brs"@[2] == 's');
    reveal_strlit("c");
    assert("c"@.len() == 1 && "c"@[0] == 'c');
    reveal_strlit("cfc");
    assert("cfc"@.len() == 3 && "cfc"@[0] == 'c' && "cfc"@[1] == 'f' && "cfc"@[2] == 'c');
    reveal_strlit("clj");
    assert("clj"@.len() == 3 && "clj"@[0] == 'c' && "clj"@[1] == 'l' && "clj"@[2] == 'j');
    reveal_strlit("cls");
    assert("cls"@.len() == 3 && "cls"@[0] == 'c' && "cls"@[1] == 'l' && "cls"@[2] == 's');
    reveal_strlit("cpp");
    assert("cpp"@.len() == 3 && "cpp"@[0] == 'c' && "cpp"@[1] == 'p' && "cpp"@[2] == 'p');
    reveal_strlit("cs");
    assert("cs"@.len() == 2 && "cs"@[0] == 'c' && "cs"@[1] == 's');
    reveal_strlit("csx");
    assert("csx"@.len() == 3 && "csx"@[0] == 'c' && "csx"@[1] == 's' && "csx"@[2] == 'x');
    reveal_strlit("d");
    assert("d"@.len() == 1 && "d"@[0] == 'd');
    reveal_strlit("dart");
    assert("dart"@.len() == 4 && "dart"@[0] == 'd' && "dart"@[1] == 'a' && "dart"@[2] == 'r' && "dart"@[3] == 't');
    reveal_strlit("do");
    assert("do"@.len() == 2 && "do"@[0] == 'd' && "do"@[1] == 'o');
    reveal_strlit("ex");
    assert("ex"@.len() == 2 && "ex"@[0] == 'e' && "ex"@[1] == 'x');
    reveal_strlit("elm");
    assert("elm"@.len() == 3 && "elm"@[0] == 'e' && "elm"@[1] == 'l' && "elm"@[2] == 'm');
    reveal_strlit("gd");
    assert("gd"@.len() == 2 && "gd"@[0] == 'g' && "gd"@[1] == 'd');
    reveal_strlit("gen");
    assert("gen"@.len() == 3 && "gen"@[0] == 'g' && "gen"@[1] == 'e' && "gen"@[2] == 'n');
    reveal_strlit("go");
    assert("go"@.len() == 2 && "go"@[0] == 'g' && "go"@[1] == 'o');
    reveal_strlit("graphql");
    assert("graphql"@.len() == 7 && "graphql"@[0] == 'g' && "graphql"@[1] == 'r' && "graphql"@[2] == 'a' && "graphql"@[3] == 'p' && "graphql"@[4] == 'h' && "graphql"@[5] == 'q' && "graphql"@[6] == 'l');
    reveal_strlit("groovy");
    assert("groovy"@.len() == 6 && "groovy"@[0] == 'g' && "groovy"@[1] == 'r' && "groovy"@[2] == 'o' && "groovy"@[3] == 'o' && "groovy"@[4] == 'v' && "groovy"@[5] == 'y');
    reveal_strlit("hs");
    assert("hs"@.len() == 2 && "hs"@[0] == 'h' && "hs"@[1] == 's');
    reveal_strlit("lhs");
    assert("lhs"@.len() == 3 && "lhs"@[0] == 'l' && "lhs"@[1] == 'h' && "lhs"@[2] == 's');
    reveal_strlit("java");
    assert("java"@.len() == 4 && "java"@[0] == 'j' && "java"@[1] == 'a' && "java"@[2] == 'v' && "java"@[3] == 'a');
    reveal_strlit("js");
    assert("js"@.len() == 2 && "js"@[0] == 'j' && "js"@[1] == 's');
    reveal_strlit("cjs");
    assert("cjs"@.len() == 3 && "cjs"@[0] == 'c' && "cjs"@[1] == 'j' && "cjs"@[2] == 's');
    reveal_strlit("mjs");
    assert("mjs"@.len() == 3 && "mjs"@[0] == 'm' && "mjs"@[1] == 'j' && "mjs"@[2] == 's');
    reveal_strlit("jsonc");
    assert("jsonc"@.len() == 5 && "jsonc"@[0] == 'j' && "jsonc"@[1] == 's' && "jsonc"@[2] == 'o' && "jsonc"@[3] == 'n' && "jsonc"@[4] == 'c');
    reveal_strlit("lisp");
    assert("lisp"@.len() == 4 && "lisp"@[0] == 'l' && "lisp"@[1] == 'i' && "lisp"@[2] == 's' && "lisp"@[3] == 'p');
    reveal_strlit("lua");
    assert("lua"@.len() == 3 && "lua"@[0] == 'l' && "lua"@[1] == 'u' && "lua"@[2] == 'a');
    reveal_strlit("m");
    assert("m"@.len() == 1 && "m"@[0] == 'm');
    reveal_strlit("nim");
    assert("nim"@.len() == 3 && "nim"@[0] == 'n' && "nim"@[1] == 'i' && "nim"@[2] == 'm');
    reveal_strlit("pas");
    assert("pas"@.len() == 3 && "pas"@[0] == 'p' && "pas"@[1] == 'a' && "pas"@[2] == 's');
    reveal_strlit("php");
    assert("php"@.len() == 3 && "php"@[0] == 'p' && "php"@[1] == 'h' && "php"@[2] == 'p');
    reveal_strlit("pig");
    assert("pig"@.len() == 3 && "pig"@[0] == 'p' && "pig"@[1] == 'i' && "pig"@[2] == 'g');
    reveal_strlit("plsql");
    assert("plsql"@.len() == 5 && "plsql"@[0] == 'p' && "plsql"@[1] == 'l' && "plsql"@[2] == 's' && "plsql"@[3] == 'q' && "plsql"@[4] == 'l');
    reveal_strlit("pp");
    assert("pp"@.len() == 2 && "pp"@[0] == 'p' && "pp"@[1] == 'p');
    reveal_strlit("ps1");
    assert("ps1"@.len() == 3 && "ps1"@[0] == 'p' && "ps1"@[1] == 's' && "ps1"@[2] == '1');
    reveal_strlit("pu");
    assert("pu"@.len() == 2 && "pu"@[0] == 'p' && "pu"@[1] == 'u');
    reveal_strlit("q");
    assert("q"@.len() == 1 && "q"@[0] == 'q');
    reveal_strlit("rkt");
    assert("rkt"@.len() == 3 && "rkt"@[0] == 'r' && "rkt"@[1] == 'k' && "rkt"@[2] == 't');
    reveal_strlit("rs");
    assert("rs"@.len() == 2 && "rs"@[0] == 'r' && "rs"@[1] == 's');
    reveal_strlit("sas");
    assert("sas"@.len() == 3 && "sas"@[0] == 's' && "sas"@[1] == 'a' && "sas"@[2] == 's');
    reveal_strlit("sass");
    assert("sass"@.len() == 4 && "sass"@[0] == 's' && "sass"@[1] == 'a' && "sass"@[2] == 's' && "sass"@[3] == 's');
    reveal_strlit("scss");
    assert("scss"@.len() == 4 && "scss"@[0] == 's' && "scss"@[1] == 'c' && "scss"@[2] == 's' && "scss"@[3] == 's');
    reveal_strlit("shader");
    assert("shader"@.len() == 6 && "shader"@[0] == 's' && "shader"@[1] == 'h' && "shader"@[2] == 'a' && "shader"@[3] == 'd' && "shader"@[4] == 'e' && "shader"@[5] == 'r');
    reveal_strlit("sh");
    assert("sh"@.len() == 2 && "sh"@[0] == 's' && "sh"@[1] == 'h');
    reveal_strlit("sol");
    assert("sol"@.len() == 3 && "sol"@[0] == 's' && "sol"@[1] == 'o' && "sol"@[2] == 'l');
    reveal_strlit("styl");
    assert("styl"@.len() == 4 && "styl"@[0] == 's' && "styl"@[1] == 't' && "styl"@[2] == 'y' && "styl"@[3] == 'l');
    reveal_strlit("svelte");
    assert("svelte"@.len() == 6 && "svelte"@[0] == 's' && "svelte"@[1] == 'v' && "svelte"@[2] == 'e' && "svelte"@[3] == 'l' && "svelte"@[4] == 't' && "svelte"@[5] == 'e');
    reveal_strlit("tcl");
    assert("tcl"@.len() == 3 && "tcl"@[0] == 't' && "tcl"@[1] == 'c' && "tcl"@[2] == 'l');
    reveal_strlit("toml");
    assert("toml"@.len() == 4 && "toml"@[0] == 't' && "toml"@[1] == 'o' && "toml"@[2] == 'm' && "toml"@[3] == 'l');
    reveal_strlit("ts");
    assert("ts"@.len() == 2 && "ts"@[0] == 't' && "ts"@[1] == 's');
    reveal_strlit("tsx");
    assert("tsx"@.len() == 3 && "tsx"@[0] == 't' && "tsx"@[1] == 's' && "tsx"@[2] == 'x');
    reveal_strlit("vala");
    assert("vala"@.len() == 4 && "vala"@[0] == 'v' && "vala"@[1] == 'a' && "vala"@[2] == 'l' && "vala"@[3] == 'a');
    reveal_strlit("v");
    assert("v"@.len() == 1 && "v"@[0] == 'v');
    reveal_strlit("vhdl");
    assert("vhdl"@.len() == 4 && "vhdl"@[0] == 'v' && "vhdl"@[1] == 'h' && "vhdl"@[2] == 'd' && "vhdl"@[3] == 'l');
    reveal_strlit("vue");
    assert("vue"@.len() == 3 && "vue"@[0] == 'v' && "vue"@[1] == 'u' && "vue"@[2] == 'e');
    reveal_strlit("yaml");
    assert("yaml"@.len() == 4 && "yaml"@[0] == 'y' && "yaml"@[1] == 'a' && "yaml"@[2] == 'm' && "yaml"@[3] == 'l');
    reveal_strlit("#");
    reveal_strlit("%");
    reveal_strlit("'");
    reveal_strlit("*");
    reveal_strlit("--");
    reveal_strlit("//");
    reveal_strlit(";");
    reveal_strlit(";;");
    reveal_strlit("\\");
}


} // verus!
