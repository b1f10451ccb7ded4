//! Output formatting: a formatter turns selected files into one of the
//! supported output shapes. Each formatter's behaviour is fixed by its
//! spec methods, so callers know the exact text every call returns.

use vstd::prelude::*;

use crate::utils::add_line_numbers_spec;

pub mod default;
pub mod markdown;
pub mod xml;

verus! {

/// The content as emitted: line-numbered on request.
pub open spec fn body_text(content: Seq<char>, line_numbers: bool) -> Seq<char> {
    if line_numbers {
        add_line_numbers_spec(content)
    } else {
        content
    }
}

/// Trait for different output formatters.
pub trait OutputFormatter: Sized {
    /// The text emitted for one file.
    spec fn format_file_spec(self, path: Seq<char>, content: Seq<char>, line_numbers: bool) -> Seq<
        char,
    >;

    /// The formatter's state after emitting one file.
    spec fn after_format(self) -> Self;

    /// The text emitted for the table of contents.
    spec fn toc_spec(self, toc: Seq<char>) -> Seq<char>;

    /// The text emitted at the beginning of the output.
    spec fn start_spec(self) -> Seq<char>;

    /// The text emitted at the end of the output.
    spec fn end_spec(self) -> Seq<char>;

    /// Format a single file's content.
    fn format_file(&mut self, path: &str, content: &str, line_numbers: bool) -> (r: String)
        ensures
            r@ == old(self).format_file_spec(path@, content@, line_numbers),
            *final(self) == old(self).after_format(),
    ;

    /// Format the table of contents tree.
    fn format_table_of_contents(&mut self, toc: &str) -> (r: String)
        ensures
            r@ == old(self).toc_spec(toc@),
            *final(self) == *old(self),
    ;

    /// Get the string to output at the beginning.
    fn start_output(&mut self) -> (r: String)
        ensures
            r@ == old(self).start_spec(),
            *final(self) == *old(self),
    ;

    /// Get the string to output at the end.
    fn end_output(&mut self) -> (r: String)
        ensures
            r@ == old(self).end_spec(),
            *final(self) == *old(self),
    ;
}

} // verus!
