//! File extension → language name, a hint for syntax highlighting.

use vstd::prelude::*;
use crate::strs::{chars_of, is_word};

verus! {

/// The language a source file with extension `e` is written in, if it is one
/// the viewer knows.
pub open spec fn language_of(e: Seq<char>) -> Option<Seq<char>> {
    if e == "rs"@ {
        Some("rust"@)
    } else if e == "py"@ || e == "pyw"@ {
        Some("python"@)
    } else if e == "js"@ || e == "mjs"@ || e == "cjs"@ {
        Some("javascript"@)
    } else if e == "ts"@ || e == "tsx"@ {
        Some("typescript"@)
    } else if e == "sh"@ || e == "bash"@ || e == "zsh"@ {
        Some("bash"@)
    } else if e == "sql"@ {
        Some("sql"@)
    } else if e == "c"@ || e == "h"@ {
        Some("c"@)
    } else if e == "cpp"@ || e == "cc"@ || e == "hpp"@ {
        Some("cpp"@)
    } else if e == "go"@ {
        Some("go"@)
    } else if e == "java"@ {
        Some("java"@)
    } else if e == "rb"@ {
        Some("ruby"@)
    } else if e == "php"@ {
        Some("php"@)
    } else if e == "r"@ {
        Some("r"@)
    } else if e == "jl"@ {
        Some("julia"@)
    } else if e == "html"@ || e == "htm"@ {
        Some("html"@)
    } else if e == "css"@ || e == "scss"@ {
        Some("css"@)
    } else if e == "yaml"@ || e == "yml"@ {
        Some("yaml"@)
    } else if e == "toml"@ {
        Some("toml"@)
    } else if e == "ini"@ || e == "conf"@ || e == "cfg"@ {
        Some("ini"@)
    } else if e == "xml"@ || e == "svg"@ {
        Some("xml"@)
    } else if e == "diff"@ || e == "patch"@ {
        Some("diff"@)
    } else if e == "dockerfile"@ {
        Some("dockerfile"@)
    } else if e == "make"@ || e == "mk"@ {
        Some("makefile"@)
    } else {
        None
    }
}

/// Language name for an extension (lower-case, without the dot); `None` for
/// extensions that are not source code the viewer knows.
pub fn lang_for(ext: &str) -> (r: Option<&'static str>)
    ensures
        match r {
            Some(s) => language_of(ext@) == Some(s@),
            None => language_of(ext@) is None,
        },
{
    let e = chars_of(ext);
    if is_word(&e, "rs") {
        Some("rust")
    } else if is_word(&e, "py") || is_word(&e, "pyw") {
        Some("python")
    } else if is_word(&e, "js") || is_word(&e, "mjs") || is_word(&e, "cjs") {
        Some("javascript")
    } else if is_word(&e, "ts") || is_word(&e, "tsx") {
        Some("typescript")
    } else if is_word(&e, "sh") || is_word(&e, "bash") || is_word(&e, "zsh") {
        Some("bash")
    } else if is_word(&e, "sql") {
        Some("sql")
    } else if is_word(&e, "c") || is_word(&e, "h") {
        Some("c")
    } else if is_word(&e, "cpp") || is_word(&e, "cc") || is_word(&e, "hpp") {
        Some("cpp")
    } else if is_word(&e, "go") {
        Some("go")
    } else if is_word(&e, "java") {
        Some("java")
    } else if is_word(&e, "rb") {
        Some("ruby")
    } else if is_word(&e, "php") {
        Some("php")
    } else if is_word(&e, "r") {
        Some("r")
    } else if is_word(&e, "jl") {
        Some("julia")
    } else if is_word(&e, "html") || is_word(&e, "htm") {
        Some("html")
    } else if is_word(&e, "css") || is_word(&e, "scss") {
        Some("css")
    } else if is_word(&e, "yaml") || is_word(&e, "yml") {
        Some("yaml")
    } else if is_word(&e, "toml") {
        Some("toml")
    } else if is_word(&e, "ini") || is_word(&e, "conf") || is_word(&e, "cfg") {
        Some("ini")
    } else if is_word(&e, "xml") || is_word(&e, "svg") {
        Some("xml")
    } else if is_word(&e, "diff") || is_word(&e, "patch") {
        Some("diff")
    } else if is_word(&e, "dockerfile") {
        Some("dockerfile")
    } else if is_word(&e, "make") || is_word(&e, "mk") {
        Some("makefile")
    } else {
        None
    }
}

} // verus!
