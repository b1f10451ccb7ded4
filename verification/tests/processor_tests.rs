use files_to_prompt::FileProcessor;
use files_to_prompt::FilesToPromptError;

#[test]
fn test_should_include_file_by_extension() {
    let processor = FileProcessor::new(
        vec!["txt".to_string(), "py".to_string()],
        false,
        false,
        false,
        vec![],
        false,
        None,
    )
    .unwrap();

    assert!(processor.should_include_file_by_extension("test.txt"));
    assert!(processor.should_include_file_by_extension("test.py"));
    assert!(!processor.should_include_file_by_extension("test.rs"));
}

#[test]
fn test_should_include_file_no_extensions() {
    let processor = FileProcessor::new(vec![], false, false, false, vec![], false, None).unwrap();

    assert!(processor.should_include_file_by_extension("test.txt"));
    assert!(processor.should_include_file_by_extension("test.py"));
    assert!(processor.should_include_file_by_extension("test.rs"));
}

#[test]
fn test_is_hidden_file() {
    let processor = FileProcessor::new(vec![], false, false, false, vec![], false, None).unwrap();

    assert!(processor.is_hidden_file(".hidden"));
    assert!(processor.is_hidden_file(".gitignore"));
    assert!(!processor.is_hidden_file("visible.txt"));
}

#[test]
fn test_dotted_extension_filter() {
    let processor =
        FileProcessor::new(vec![".txt".to_string()], false, false, false, vec![], false, None)
            .unwrap();
    assert!(processor.should_include_file_by_extension("a.txt"));
    assert!(!processor.should_include_file_by_extension("a.py"));
    assert!(!processor.should_include_file_by_extension("noext"));
}

#[test]
fn test_new_rejects_invalid_pattern() {
    let r = FileProcessor::new(
        vec![],
        false,
        false,
        false,
        vec!["[".to_string()],
        false,
        None,
    );
    match r {
        Err(FilesToPromptError::PatternError { .. }) => {}
        _ => panic!("expected a pattern error"),
    }
}

#[test]
fn test_new_skips_blank_patterns() {
    let r = FileProcessor::new(
        vec![],
        false,
        false,
        false,
        vec!["".to_string(), "   ".to_string()],
        false,
        None,
    );
    assert!(r.is_ok());
}

#[test]
fn test_is_binary_zero_byte() {
    assert!(FileProcessor::is_binary(&[b'h', 0u8, b'i']));
}

#[test]
fn test_is_binary_plain_text() {
    assert!(!FileProcessor::is_binary(b"hello world\nplain text\n"));
    assert!(!FileProcessor::is_binary(&[]));
}

#[test]
fn test_is_binary_control_ratio() {
    // 2 of 10 bytes are control bytes: 20% > 10% means binary
    let bytes = [0x01u8, 0x02, b'a', b'b', b'c', b'd', b'e', b'f', b'g', b'h'];
    assert!(FileProcessor::is_binary(&bytes));
    // 1 of 10: 10% is not strictly above the threshold
    let bytes2 = [0x01u8, b'a', b'b', b'c', b'd', b'e', b'f', b'g', b'h', b'i'];
    assert!(!FileProcessor::is_binary(&bytes2));
}

#[test]
fn test_error_messages() {
    let e = FilesToPromptError::FileNotFound { path: "x".to_string() };
    assert_eq!(e.message(), "File not found: x");
    let e = FilesToPromptError::Io { message: "broken".to_string() };
    assert_eq!(e.message(), "IO error: broken");
    let e = FilesToPromptError::PatternError { message: "bad".to_string() };
    assert_eq!(e.message(), "Pattern matching error: bad");
    let e = FilesToPromptError::BinaryFile { path: "b".to_string() };
    assert_eq!(e.message(), "Binary file detected: b");
    let e = FilesToPromptError::PermissionDenied { path: "p".to_string() };
    assert_eq!(e.message(), "Permission denied: p");
    let e = FilesToPromptError::Utf8Error { path: "u".to_string() };
    assert_eq!(e.message(), "UTF-8 decode error in file: u");
}
