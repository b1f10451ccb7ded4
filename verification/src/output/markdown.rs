//! Markdown output formatter with fenced code blocks.

use vstd::prelude::*;

use crate::extensions::get_language_for_extension;
use crate::extensions::language_of;
use crate::output::body_text;
use crate::output::OutputFormatter;
use crate::strutil::extension_of;
use crate::utils::add_line_numbers;
use crate::utils::determine_backtick_count;
use crate::utils::fence_of;

verus! {

/// The extension used for language lookup: the path's extension, or
/// empty when it has none.
pub open spec fn lookup_ext(path: Seq<char>) -> Seq<char> {
    match extension_of(path) {
        Some(e) => e,
        None => Seq::empty(),
    }
}

/// Markdown formatter that writes each file as its path followed by a
/// fenced code block, the fence long enough not to occur in the content.
pub struct MarkdownFormatter;

impl MarkdownFormatter {
    pub fn new() -> (r: MarkdownFormatter)
        ensures
            r == (MarkdownFormatter {  }),
    {
        MarkdownFormatter {  }
    }
}

impl OutputFormatter for MarkdownFormatter {
    open spec fn format_file_spec(
        self,
        path: Seq<char>,
        content: Seq<char>,
        line_numbers: bool,
    ) -> Seq<char> {
        let body = body_text(content, line_numbers);
        let fence = fence_of(body);
        path + seq!['\n'] + fence + language_of(lookup_ext(path)) + seq!['\n'] + body + seq!['\n']
            + fence
    }

    open spec fn after_format(self) -> Self {
        self
    }

    open spec fn toc_spec(self, toc: Seq<char>) -> Seq<char> {
        "# Table of Contents\n\n```\n"@ + toc + "\n```"@
    }

    open spec fn start_spec(self) -> Seq<char> {
        Seq::empty()
    }

    open spec fn end_spec(self) -> Seq<char> {
        Seq::empty()
    }

    fn format_file(&mut self, path: &str, content: &str, line_numbers: bool) -> (r: String) {
        let ext = match crate::strutil::str_extension(path) {
            Some(e) => e,
            None => String::new(),
        };
        let language = get_language_for_extension(ext.as_str());
        let body = if line_numbers {
            add_line_numbers(content)
        } else {
            String::from_str(content)
        };
        let backticks = determine_backtick_count(body.as_str());
        let mut out = String::new();
        out.append(path);
        out.append("\n");
        out.append(backticks.as_str());
        out.append(language);
        out.append("\n");
        out.append(body.as_str());
        out.append("\n");
        out.append(backticks.as_str());
        proof {
            reveal_strlit("\n");
            assert("\n"@ =~= seq!['\n']);
            assert(out@ =~= old(self).format_file_spec(path@, content@, line_numbers));
        }
        out
    }

    fn format_table_of_contents(&mut self, toc: &str) -> (r: String) {
        let mut out = String::new();
        out.append("# Table of Contents\n\n```\n");
        out.append(toc);
        out.append("\n```");
        proof {
            assert(out@ =~= old(self).toc_spec(toc@));
        }
        out
    }

    fn start_output(&mut self) -> (r: String) {
        let r = String::new();
        proof {
            assert(r@ =~= Seq::<char>::empty());
        }
        r
    }

    fn end_output(&mut self) -> (r: String) {
        let r = String::new();
        proof {
            assert(r@ =~= Seq::<char>::empty());
        }
        r
    }
}

} // verus!
