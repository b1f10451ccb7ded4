//! Default output formatter: path, separator, content, closing separator.

use vstd::prelude::*;

use crate::output::body_text;
use crate::output::OutputFormatter;
use crate::utils::add_line_numbers;

verus! {

/// Default formatter that writes each file as its path, a separator
/// line, the content, and a closing separator.
pub struct DefaultFormatter;

impl DefaultFormatter {
    pub fn new() -> (r: DefaultFormatter)
        ensures
            r == (DefaultFormatter {  }),
    {
        DefaultFormatter {  }
    }
}

impl OutputFormatter for DefaultFormatter {
    open spec fn format_file_spec(
        self,
        path: Seq<char>,
        content: Seq<char>,
        line_numbers: bool,
    ) -> Seq<char> {
        path + "\n---\n"@ + body_text(content, line_numbers) + "\n\n---"@
    }

    open spec fn after_format(self) -> Self {
        self
    }

    open spec fn toc_spec(self, toc: Seq<char>) -> Seq<char> {
        toc
    }

    open spec fn start_spec(self) -> Seq<char> {
        Seq::empty()
    }

    open spec fn end_spec(self) -> Seq<char> {
        Seq::empty()
    }

    fn format_file(&mut self, path: &str, content: &str, line_numbers: bool) -> (r: String) {
        let body = if line_numbers {
            add_line_numbers(content)
        } else {
            String::from_str(content)
        };
        let mut out = String::new();
        out.append(path);
        out.append("\n---\n");
        out.append(body.as_str());
        out.append("\n\n---");
        proof {
            assert(out@ =~= old(self).format_file_spec(path@, content@, line_numbers));
        }
        out
    }

    fn format_table_of_contents(&mut self, toc: &str) -> (r: String) {
        String::from_str(toc)
    }

    fn start_output(&mut self) -> (r: String) {
        let r = String::new();
        proof {
            assert(r@ =~= Seq::<char>::empty());
        }
        r
    }

    fn end_output(&mut self) -> (r: String) {
        let r = String::new();
        proof {
            assert(r@ =~= Seq::<char>::empty());
        }
        r
    }
}

} // verus!
