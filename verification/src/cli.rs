//! Command-line options, as plain values, and the decisions derived from
//! them: the table-of-contents mode and the validity of the flag
//! combination. Argument parsing itself lives outside the library.

use vstd::prelude::*;

use crate::TocMode;

verus! {

/// The parsed command-line options.
pub struct Cli {
    /// Files or directories to include.
    pub paths: Vec<String>,
    /// Show full help message.
    pub help: bool,
    /// Only include these extensions.
    pub extensions: Vec<String>,
    /// Include hidden files (starting with a dot).
    pub include_hidden: bool,
    /// Make ignore patterns skip files only, not directories.
    pub ignore_files_only: bool,
    /// Don't use gitignore rules.
    pub ignore_gitignore: bool,
    /// Skip files matching these patterns.
    pub ignore_patterns: Vec<String>,
    /// Output in XML format.
    pub claude_xml: bool,
    /// Output as Markdown code blocks.
    pub markdown: bool,
    /// Add line numbers.
    pub line_numbers: bool,
    /// Save to this file instead of printing.
    pub output_file: Option<String>,
    /// Include a table of contents tree.
    pub table_of_contents: bool,
    /// Table of contents shows directories only.
    pub toc_dirs_only: bool,
    /// Table of contents shows files and directories.
    pub toc_files: bool,
    /// Read null-separated paths from stdin.
    pub null_separator: bool,
}

impl Cli {
    /// The two explicit table-of-contents flags exclude each other.
    pub fn validate_toc_flags(&self) -> (r: bool)
        ensures
            r == !(self.toc_dirs_only && self.toc_files),
    {
        !(self.toc_dirs_only && self.toc_files)
    }

    /// The requested table-of-contents mode: the explicit flags win,
    /// the bare request falls back to auto detection, and without any
    /// flag no table of contents is produced.
    pub fn toc_mode(&self) -> (r: Option<TocMode>)
        ensures
            r == (if self.table_of_contents || self.toc_dirs_only || self.toc_files {
                if self.toc_files {
                    Some(TocMode::FilesAndDirs)
                } else if self.toc_dirs_only {
                    Some(TocMode::DirsOnly)
                } else {
                    Some(TocMode::Auto)
                }
            } else {
                None
            }),
    {
        if self.table_of_contents || self.toc_dirs_only || self.toc_files {
            if self.toc_files {
                Some(TocMode::FilesAndDirs)
            } else if self.toc_dirs_only {
                Some(TocMode::DirsOnly)
            } else {
                Some(TocMode::Auto)
            }
        } else {
            None
        }
    }
}

} // verus!
