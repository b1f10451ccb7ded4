use files_to_prompt::ignore::CustomIgnore;
use files_to_prompt::ignore::IgnoreChecker;
use files_to_prompt::ignore::IgnorePattern;

#[test]
fn test_empty_checker() {
    let checker = IgnoreChecker::new(false);
    let path = "test.txt";
    assert!(!checker.should_ignore_gitignore(path, false));
    assert!(!checker.should_ignore_custom(path, true));
}

#[test]
fn test_custom_patterns() {
    let mut checker = IgnoreChecker::new(false);
    checker
        .add_custom_patterns(&vec!["*.log".to_string(), "temp*".to_string()])
        .unwrap();

    assert!(checker.should_ignore_custom("test.log", true));
    assert!(checker.should_ignore_custom("temp_file", true));
    assert!(!checker.should_ignore_custom("test.txt", true));
}

#[test]
fn test_ignore_files_only() {
    let mut checker = IgnoreChecker::new(true);
    checker.add_custom_patterns(&vec!["test*".to_string()]).unwrap();

    // Should ignore files matching pattern
    assert!(checker.should_ignore_custom("test.txt", true));
    // Should NOT ignore directories when ignore_files_only is true
    assert!(!checker.should_ignore_custom("test_dir", false));
}

#[test]
fn test_pattern_matching() {
    let patterns = vec![
        IgnorePattern::compile("*.txt").unwrap(),
        IgnorePattern::compile("temp*").unwrap(),
    ];

    assert!(IgnoreChecker::matches_any_pattern("test.txt", false, &patterns));
    assert!(IgnoreChecker::matches_any_pattern("temp_file", false, &patterns));
    assert!(!IgnoreChecker::matches_any_pattern("test.py", false, &patterns));
}

#[test]
fn test_gitignore_content_parsing() {
    let mut checker = IgnoreChecker::new(false);
    checker
        .add_gitignore_content("# a comment\n\n  *.log  \nbuild\n")
        .unwrap();
    assert!(checker.should_ignore_gitignore("debug.log", false));
    assert!(checker.should_ignore_gitignore("build", true));
    assert!(!checker.should_ignore_gitignore("keep.txt", false));
}

#[test]
fn test_custom_ignore_matches_full_path() {
    let ci = CustomIgnore::new(vec!["*.log".to_string()], false).unwrap();
    assert!(ci.should_ignore_file("dir/deep/error.log"));
    assert!(!ci.should_ignore_file("dir/deep/error.txt"));
}

#[test]
fn test_custom_ignore_directory_only_pattern() {
    let ci = CustomIgnore::new(vec!["build/".to_string()], false).unwrap();
    // a directory-only pattern matches the bare directory name
    assert!(ci.should_ignore_dir("build"));
    assert!(ci.should_ignore_dir("root/build"));
    // and never a file
    assert!(!ci.should_ignore_file("build"));
}

#[test]
fn test_custom_ignore_rejects_bad_glob() {
    assert!(CustomIgnore::new(vec!["[".to_string()], false).is_err());
    // blank patterns are skipped, never compiled
    assert!(CustomIgnore::new(vec!["  ".to_string()], false).is_ok());
}

#[test]
fn test_ignore_pattern_roundtrip() {
    let p = IgnorePattern::compile("te?t.*").unwrap();
    assert!(p.matches("test.txt", true));
    assert!(p.matches("text.log", true));
    assert!(!p.matches("toast.txt", true));
}

#[test]
fn test_custom_patterns_skip_blank_entries() {
    let mut checker = IgnoreChecker::new(false);
    checker
        .add_custom_patterns(&vec![" ".to_string(), "\t".to_string(), "*.log".to_string()])
        .unwrap();
    // the blank entries are never compiled, so nothing matches a space
    assert!(!checker.should_ignore_custom(" ", true));
    assert!(checker.should_ignore_custom("a.log", true));
}

#[test]
fn test_should_ignore_custom_matches_full_path() {
    let mut checker = IgnoreChecker::new(false);
    checker.add_custom_patterns(&vec!["src/*.rs".to_string()]).unwrap();
    assert!(checker.should_ignore_custom("src/main.rs", true));
    assert!(!checker.should_ignore_custom("other/main.rs", true));
}
