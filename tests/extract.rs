use update_file::{get_content, ExtractionError};

#[test]
fn test_get_content() {
    let content = "Hello, world!";
    assert_eq!(get_content(content, "Hello", None).unwrap(), ", world!");
    assert_eq!(get_content(content, "Hello", Some("!")).unwrap(), ", world");
    assert!(get_content(content, "Hello", Some(",")).is_err());
}

#[test]
fn extract_end_marker_right_after_start_is_empty() {
    assert_eq!(
        get_content("Hello, world!", "Hello", Some(",")),
        Err(ExtractionError::EmptyResult)
    );
}

#[test]
fn extract_missing_end() {
    assert_eq!(
        get_content("Hello, world!", "Hello", Some("?")),
        Err(ExtractionError::EndNotFound)
    );
    assert_eq!(
        get_content("a, b; c", ";", Some(",")),
        Err(ExtractionError::EndNotFound)
    );
}

#[test]
fn extract_missing_start() {
    assert_eq!(
        get_content("Hello, world!", "hello", None),
        Err(ExtractionError::StartNotFound)
    );
}

#[test]
fn extract_empty_between_markers() {
    assert_eq!(
        get_content("a[]b", "[", Some("]")),
        Err(ExtractionError::EmptyResult)
    );
}

#[test]
fn extract_start_at_end_is_empty() {
    assert_eq!(
        get_content("abc", "bc", None),
        Err(ExtractionError::EmptyResult)
    );
}

#[test]
fn extract_uses_first_occurrences() {
    assert_eq!(get_content("x<a><b>y<c>", "<", Some(">")).unwrap(), "a");
    assert_eq!(get_content("ab-cd-ef", "-", None).unwrap(), "cd-ef");
    assert_eq!(get_content("k=v; k=w", "k=", Some(";")).unwrap(), "v");
}

#[test]
fn extract_non_ascii() {
    assert_eq!(get_content("αβγδ", "β", Some("δ")).unwrap(), "γ");
    assert_eq!(get_content("日本語テキスト", "本", None).unwrap(), "語テキスト");
}
