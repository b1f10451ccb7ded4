use files_to_prompt::utils::add_line_numbers;
use files_to_prompt::utils::determine_backtick_count;
use files_to_prompt::utils::split_paths;

#[test]
fn test_add_line_numbers() {
    let content = "line 1\nline 2\nline 3";
    let result = add_line_numbers(content);
    assert_eq!(result, "1  line 1\n2  line 2\n3  line 3");
}

#[test]
fn test_add_line_numbers_padding() {
    let content = "1\n2\n3\n4\n5\n6\n7\n8\n9\n10";
    let result = add_line_numbers(content);
    assert!(result.contains(" 1  1\n"));
    assert!(result.contains("10  10"));
}

#[test]
fn test_determine_backtick_count_simple() {
    let content = "hello world";
    assert_eq!(determine_backtick_count(content), "```");
}

#[test]
fn test_determine_backtick_count_with_backticks() {
    let content = "code with ``` in it";
    assert_eq!(determine_backtick_count(content), "````");
}

#[test]
fn test_determine_backtick_count_multiple() {
    let content = "code with ``` and ```` in it";
    assert_eq!(determine_backtick_count(content), "`````");
}

#[test]
fn test_empty_content() {
    assert_eq!(add_line_numbers(""), "");
    assert_eq!(determine_backtick_count(""), "```");
}

#[test]
fn test_split_paths_whitespace() {
    let r = split_paths("a.txt  b.txt\nsub/c.txt\t", false);
    assert_eq!(r, vec!["a.txt", "b.txt", "sub/c.txt"]);
}

#[test]
fn test_split_paths_null_separated() {
    let r = split_paths("a b.txt\0c.txt\0\0d", true);
    assert_eq!(r, vec!["a b.txt", "c.txt", "d"]);
}

#[test]
fn test_split_paths_empty() {
    assert!(split_paths("", false).is_empty());
    assert!(split_paths("  \n ", false).is_empty());
    assert!(split_paths("\0\0", true).is_empty());
}
