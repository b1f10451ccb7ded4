//! XML output formatter: one document element per file, wrapped in a
//! documents element, each carrying its running index.

use vstd::prelude::*;

use crate::output::body_text;
use crate::output::OutputFormatter;
use crate::strutil::dec_seq;
use crate::strutil::usize_to_string;
use crate::utils::add_line_numbers;

verus! {

/// XML formatter; `index` numbers the documents from 1, saturating at
/// the machine limit.
pub struct XmlFormatter {
    index: usize,
}

impl Default for XmlFormatter {
    fn default() -> (r: Self)
        ensures
            r.index_spec() == 1,
    {
        Self::new()
    }
}

impl XmlFormatter {
    /// The running document index.
    pub closed spec fn index_spec(self) -> int {
        self.index as int
    }

    pub fn new() -> (r: XmlFormatter)
        ensures
            r.index_spec() == 1,
    {
        XmlFormatter { index: 1 }
    }
}

impl OutputFormatter for XmlFormatter {
    open spec fn format_file_spec(
        self,
        path: Seq<char>,
        content: Seq<char>,
        line_numbers: bool,
    ) -> Seq<char> {
        "<document index=\""@ + dec_seq(self.index_spec()) + "\">\n<source>"@ + path
            + "</source>\n<document_content>\n"@ + body_text(content, line_numbers)
            + "\n</document_content>\n</document>"@
    }

    closed spec fn after_format(self) -> Self {
        XmlFormatter {
            index: if self.index_spec() < usize::MAX {
                (self.index_spec() + 1) as usize
            } else {
                usize::MAX
            },
        }
    }

    open spec fn toc_spec(self, toc: Seq<char>) -> Seq<char> {
        "<table_of_contents>\n"@ + toc + "\n</table_of_contents>"@
    }

    open spec fn start_spec(self) -> Seq<char> {
        "<documents>"@
    }

    open spec fn end_spec(self) -> Seq<char> {
        "</documents>"@
    }

    fn format_file(&mut self, path: &str, content: &str, line_numbers: bool) -> (r: String) {
        let body = if line_numbers {
            add_line_numbers(content)
        } else {
            String::from_str(content)
        };
        let digits = usize_to_string(self.index);
        let mut out = String::new();
        out.append("<document index=\"");
        out.append(digits.as_str());
        out.append("\">\n<source>");
        out.append(path);
        out.append("</source>\n<document_content>\n");
        out.append(body.as_str());
        out.append("\n</document_content>\n</document>");
        self.index = self.index.saturating_add(1);
        proof {
            assert(out@ =~= old(self).format_file_spec(path@, content@, line_numbers));
        }
        out
    }

    fn format_table_of_contents(&mut self, toc: &str) -> (r: String) {
        let mut out = String::new();
        out.append("<table_of_contents>\n");
        out.append(toc);
        out.append("\n</table_of_contents>");
        proof {
            assert(out@ =~= old(self).toc_spec(toc@));
        }
        out
    }

    fn start_output(&mut self) -> (r: String) {
        String::from_str("<documents>")
    }

    fn end_output(&mut self) -> (r: String) {
        String::from_str("</documents>")
    }
}

} // verus!
