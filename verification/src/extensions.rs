//! File extension to language mapping for syntax highlighting.

use vstd::prelude::*;

use crate::strutil::str_eq;

verus! {

/// The language name for a file extension; empty when unknown.
pub open spec fn language_of(ext: Seq<char>) -> Seq<char> {
    if ext == "py"@ {
        "python"@
    } else if ext == "c"@ {
        "c"@
    } else if ext == "cpp"@ {
        "cpp"@
    } else if ext == "java"@ {
        "java"@
    } else if ext == "js"@ {
        "javascript"@
    } else if ext == "ts"@ {
        "typescript"@
    } else if ext == "html"@ {
        "html"@
    } else if ext == "css"@ {
        "css"@
    } else if ext == "xml"@ {
        "xml"@
    } else if ext == "json"@ {
        "json"@
    } else if ext == "yaml"@ {
        "yaml"@
    } else if ext == "yml"@ {
        "yaml"@
    } else if ext == "sh"@ {
        "bash"@
    } else if ext == "rb"@ {
        "ruby"@
    } else {
        Seq::empty()
    }
}

/// Get the mapping of file extensions to language names.
pub fn get_language_map() -> (r: Vec<(&'static str, &'static str)>)
    ensures
        r@.len() == 14,
        r@[0].0@ == "py"@ && r@[0].1@ == "python"@,
        r@[1].0@ == "c"@ && r@[1].1@ == "c"@,
        r@[2].0@ == "cpp"@ && r@[2].1@ == "cpp"@,
        r@[3].0@ == "java"@ && r@[3].1@ == "java"@,
        r@[4].0@ == "js"@ && r@[4].1@ == "javascript"@,
        r@[5].0@ == "ts"@ && r@[5].1@ == "typescript"@,
        r@[6].0@ == "html"@ && r@[6].1@ == "html"@,
        r@[7].0@ == "css"@ && r@[7].1@ == "css"@,
        r@[8].0@ == "xml"@ && r@[8].1@ == "xml"@,
        r@[9].0@ == "json"@ && r@[9].1@ == "json"@,
        r@[10].0@ == "yaml"@ && r@[10].1@ == "yaml"@,
        r@[11].0@ == "yml"@ && r@[11].1@ == "yaml"@,
        r@[12].0@ == "sh"@ && r@[12].1@ == "bash"@,
        r@[13].0@ == "rb"@ && r@[13].1@ == "ruby"@,
{
    let mut m: Vec<(&'static str, &'static str)> = Vec::new();
    m.push(("py", "python"));
    m.push(("c", "c"));
    m.push(("cpp", "cpp"));
    m.push(("java", "java"));
    m.push(("js", "javascript"));
    m.push(("ts", "typescript"));
    m.push(("html", "html"));
    m.push(("css", "css"));
    m.push(("xml", "xml"));
    m.push(("json", "json"));
    m.push(("yaml", "yaml"));
    m.push(("yml", "yaml"));
    m.push(("sh", "bash"));
    m.push(("rb", "ruby"));
    m
}

/// Get the language name for a given file extension.
pub fn get_language_for_extension(extension: &str) -> (r: &'static str)
    ensures
        r@ == language_of(extension@),
{
    if str_eq(extension, "py") {
        "python"
    } else if str_eq(extension, "c") {
        "c"
    } else if str_eq(extension, "cpp") {
        "cpp"
    } else if str_eq(extension, "java") {
        "java"
    } else if str_eq(extension, "js") {
        "javascript"
    } else if str_eq(extension, "ts") {
        "typescript"
    } else if str_eq(extension, "html") {
        "html"
    } else if str_eq(extension, "css") {
        "css"
    } else if str_eq(extension, "xml") {
        "xml"
    } else if str_eq(extension, "json") {
        "json"
    } else if str_eq(extension, "yaml") {
        "yaml"
    } else if str_eq(extension, "yml") {
        "yaml"
    } else if str_eq(extension, "sh") {
        "bash"
    } else if str_eq(extension, "rb") {
        "ruby"
    } else {
        proof {
            reveal_strlit("");
            assert(""@ =~= Seq::<char>::empty());
        }
        ""
    }
}

} // verus!
