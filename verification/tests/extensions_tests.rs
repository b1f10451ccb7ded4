use files_to_prompt::extensions::get_language_for_extension;
use files_to_prompt::extensions::get_language_map;

#[test]
fn test_known_extensions() {
    assert_eq!(get_language_for_extension("py"), "python");
    assert_eq!(get_language_for_extension("js"), "javascript");
    assert_eq!(get_language_for_extension("rs"), ""); // Not in the map
}

#[test]
fn test_yaml_extensions() {
    assert_eq!(get_language_for_extension("yaml"), "yaml");
    assert_eq!(get_language_for_extension("yml"), "yaml");
}

#[test]
fn test_unknown_extension() {
    assert_eq!(get_language_for_extension("unknown"), "");
    assert_eq!(get_language_for_extension(""), "");
}

#[test]
fn test_language_map_entries() {
    let map = get_language_map();
    assert_eq!(map.len(), 14);
    for (ext, lang) in &map {
        assert_eq!(get_language_for_extension(ext), *lang);
    }
}
