use files_to_prompt::DefaultFormatter;
use files_to_prompt::MarkdownFormatter;
use files_to_prompt::OutputFormatter;
use files_to_prompt::XmlFormatter;

#[test]
fn test_default_format() {
    let mut formatter = DefaultFormatter::new();
    let path = "test.txt";
    let content = "Hello, world!";

    let result = formatter.format_file(path, content, false);
    assert_eq!(result, "test.txt\n---\nHello, world!\n\n---");
}

#[test]
fn test_default_format_with_line_numbers() {
    let mut formatter = DefaultFormatter::new();
    let path = "test.txt";
    let content = "line 1\nline 2";

    let result = formatter.format_file(path, content, true);
    assert_eq!(result, "test.txt\n---\n1  line 1\n2  line 2\n\n---");
}

#[test]
fn default_test_start_end_output() {
    let mut formatter = DefaultFormatter::new();
    assert_eq!(formatter.start_output(), "");
    assert_eq!(formatter.end_output(), "");
}

#[test]
fn test_markdown_format() {
    let mut formatter = MarkdownFormatter::new();
    let path = "test.py";
    let content = "print('hello')";

    let result = formatter.format_file(path, content, false);
    let expected = "test.py\n```python\nprint('hello')\n```";
    assert_eq!(result, expected);
}

#[test]
fn test_markdown_format_unknown_extension() {
    let mut formatter = MarkdownFormatter::new();
    let path = "test.unknown";
    let content = "some content";

    let result = formatter.format_file(path, content, false);
    let expected = "test.unknown\n```\nsome content\n```";
    assert_eq!(result, expected);
}

#[test]
fn test_markdown_format_with_backticks() {
    let mut formatter = MarkdownFormatter::new();
    let path = "test.md";
    let content = "This has ``` in it";

    let result = formatter.format_file(path, content, false);
    // Should use 4 backticks since content has 3
    assert!(result.contains("````"));
    assert!(result.contains("This has ``` in it"));
}

#[test]
fn test_markdown_format_with_line_numbers() {
    let mut formatter = MarkdownFormatter::new();
    let path = "test.py";
    let content = "line 1\nline 2";

    let result = formatter.format_file(path, content, true);
    assert!(result.contains("```python"));
    assert!(result.contains("1  line 1\n2  line 2"));
}

#[test]
fn markdown_test_start_end_output() {
    let mut formatter = MarkdownFormatter::new();
    assert_eq!(formatter.start_output(), "");
    assert_eq!(formatter.end_output(), "");
}

#[test]
fn test_markdown_table_of_contents() {
    let mut formatter = MarkdownFormatter::new();
    let toc = "root/\n└── a.txt";
    let result = formatter.format_table_of_contents(toc);
    assert_eq!(result, "# Table of Contents\n\n```\nroot/\n└── a.txt\n```");
}

#[test]
fn xml_test_xml_format() {
    let mut formatter = XmlFormatter::new();
    let path = "test.txt";
    let content = "Hello, world!";

    let result = formatter.format_file(path, content, false);
    let expected = "<document index=\"1\">\n<source>test.txt</source>\n<document_content>\nHello, world!\n</document_content>\n</document>";
    assert_eq!(result, expected);
}

#[test]
fn test_xml_format_multiple_files() {
    let mut formatter = XmlFormatter::new();

    let result1 = formatter.format_file("test1.txt", "content1", false);
    let result2 = formatter.format_file("test2.txt", "content2", false);

    assert!(result1.contains("index=\"1"));
    assert!(result2.contains("index=\"2"));
}

#[test]
fn test_xml_format_with_line_numbers() {
    let mut formatter = XmlFormatter::new();
    let path = "test.txt";
    let content = "line 1\nline 2";

    let result = formatter.format_file(path, content, true);
    assert!(result.contains("1  line 1\n2  line 2"));
}

#[test]
fn xml_test_start_end_output() {
    let mut formatter = XmlFormatter::new();
    assert_eq!(formatter.start_output(), "<documents>");
    assert_eq!(formatter.end_output(), "</documents>");
}

#[test]
fn test_xml_table_of_contents() {
    let mut formatter = XmlFormatter::new();
    let result = formatter.format_table_of_contents("tree");
    assert_eq!(result, "<table_of_contents>\ntree\n</table_of_contents>");
}
