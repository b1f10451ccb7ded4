//! Selects, orders, and renders a bounded view of a filesystem subtree.
//!
//! The library decides, for every entry of a directory snapshot, whether it
//! is admitted under layered filtering rules (extension allow-lists,
//! hidden-file suppression, cascading gitignore-style exclusion, and custom
//! glob ignore patterns), and builds both a flattened file listing and a
//! summarized directory tree.

use vstd::prelude::*;

pub mod cli;
pub mod extensions;
pub mod file_processor;
pub mod glob_api;
pub mod ignore;
pub mod output;
pub mod strutil;
pub mod tree;
pub mod utils;
pub mod walker;

pub use file_processor::FileProcessor;
pub use output::default::DefaultFormatter;
pub use output::markdown::MarkdownFormatter;
pub use output::xml::XmlFormatter;
pub use output::OutputFormatter;
pub use tree::TreeGenerator;
pub use tree::TreeNode;

verus! {

/// Main error type for the library.
#[derive(Debug)]
pub enum FilesToPromptError {
    /// A named root path does not exist.
    FileNotFound { path: String },
    /// A path could not be accessed.
    PermissionDenied { path: String },
    /// A file's bytes are not text.
    BinaryFile { path: String },
    /// A directory listing or an ignore file could not be read.
    Io { message: String },
    /// A file's bytes are not valid UTF-8.
    Utf8Error { path: String },
    /// A user-supplied or gitignore pattern has invalid glob syntax.
    PatternError { message: String },
}

impl FilesToPromptError {
    /// The error's message text.
    pub open spec fn message_spec(&self) -> Seq<char> {
        match self {
            FilesToPromptError::FileNotFound { path } => "File not found: "@ + path@,
            FilesToPromptError::PermissionDenied { path } => "Permission denied: "@ + path@,
            FilesToPromptError::BinaryFile { path } => "Binary file detected: "@ + path@,
            FilesToPromptError::Io { message } => "IO error: "@ + message@,
            FilesToPromptError::Utf8Error { path } => "UTF-8 decode error in file: "@ + path@,
            FilesToPromptError::PatternError { message } => "Pattern matching error: "@ + message@,
        }
    }

    /// Renders the error as text.
    pub fn message(&self) -> (r: String)
        ensures
            r@ == self.message_spec(),
    {
        let mut out = String::new();
        match self {
            FilesToPromptError::FileNotFound { path } => {
                out.append("File not found: ");
                out.append(path.as_str());
            },
            FilesToPromptError::PermissionDenied { path } => {
                out.append("Permission denied: ");
                out.append(path.as_str());
            },
            FilesToPromptError::BinaryFile { path } => {
                out.append("Binary file detected: ");
                out.append(path.as_str());
            },
            FilesToPromptError::Io { message } => {
                out.append("IO error: ");
                out.append(message.as_str());
            },
            FilesToPromptError::Utf8Error { path } => {
                out.append("UTF-8 decode error in file: ");
                out.append(path.as_str());
            },
            FilesToPromptError::PatternError { message } => {
                out.append("Pattern matching error: ");
                out.append(message.as_str());
            },
        }
        out
    }
}

/// Table of contents mode for tree generation
#[derive(Debug, Clone, Copy, PartialEq, Eq, Structural)]
pub enum TocMode {
    /// Auto-detect based on estimated output size
    Auto,
    /// Show directories only
    DirsOnly,
    /// Show files and directories
    FilesAndDirs,
}

} // verus!
