use files_to_prompt::cli::Cli;
use files_to_prompt::TocMode;

fn base_cli() -> Cli {
    Cli {
        paths: vec![],
        help: false,
        extensions: vec![],
        include_hidden: false,
        ignore_files_only: false,
        ignore_gitignore: false,
        ignore_patterns: vec![],
        claude_xml: false,
        markdown: false,
        line_numbers: false,
        output_file: None,
        table_of_contents: false,
        toc_dirs_only: false,
        toc_files: false,
        null_separator: false,
    }
}

#[test]
fn test_toc_mode_selection() {
    let mut cli = base_cli();
    assert_eq!(cli.toc_mode(), None);
    cli.table_of_contents = true;
    assert_eq!(cli.toc_mode(), Some(TocMode::Auto));
    cli.toc_dirs_only = true;
    assert_eq!(cli.toc_mode(), Some(TocMode::DirsOnly));
    cli.toc_files = true;
    assert_eq!(cli.toc_mode(), Some(TocMode::FilesAndDirs));
}

#[test]
fn test_validate_toc_flags() {
    let mut cli = base_cli();
    assert!(cli.validate_toc_flags());
    cli.toc_dirs_only = true;
    assert!(cli.validate_toc_flags());
    cli.toc_files = true;
    assert!(!cli.validate_toc_flags());
}
