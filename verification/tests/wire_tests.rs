use cubox::classify::{classify, CuboxRequest, SaveKind};
use cubox::wire::{request_json, CuboxResponse};

#[test]
fn a_full_memo_serializes_with_every_field() {
    let req = CuboxRequest {
        kind: SaveKind::Memo,
        content: "hello world ".to_string(),
        title: Some("t".to_string()),
        description: Some("d".to_string()),
        folder: Some("f".to_string()),
        tags: vec!["a".to_string(), "b".to_string()],
    };
    assert_eq!(
        request_json(&req),
        "{\"type\":\"memo\",\"content\":\"hello world \",\"title\":\"t\",\
         \"description\":\"d\",\"folder\":\"f\",\"tags\":[\"a\",\"b\"]}"
    );
}

#[test]
fn a_bare_bookmark_omits_absent_fields() {
    let req = CuboxRequest {
        kind: SaveKind::Bookmark,
        content: "http://x".to_string(),
        title: None,
        description: None,
        folder: None,
        tags: vec![],
    };
    assert_eq!(
        request_json(&req),
        "{\"type\":\"url\",\"content\":\"http://x\"}"
    );
}

#[test]
fn one_tag_serializes_without_a_comma() {
    let req = CuboxRequest {
        kind: SaveKind::Memo,
        content: "x ".to_string(),
        title: None,
        description: None,
        folder: None,
        tags: vec!["only".to_string()],
    };
    assert_eq!(
        request_json(&req),
        "{\"type\":\"memo\",\"content\":\"x \",\"tags\":[\"only\"]}"
    );
}

#[test]
fn quotes_and_backslashes_in_content_are_escaped() {
    let req = CuboxRequest {
        kind: SaveKind::Memo,
        content: "a\"b\\ ".to_string(),
        title: None,
        description: None,
        folder: None,
        tags: vec![],
    };
    assert_eq!(
        request_json(&req),
        "{\"type\":\"memo\",\"content\":\"a\\\"b\\\\ \"}"
    );
}

#[test]
fn a_classified_command_serializes_end_to_end() {
    let words: Vec<String> = ["pick", "up", "milk", "@errands", "::food"]
        .iter()
        .map(|w| w.to_string())
        .collect();
    let req = classify(&words, &None).unwrap();
    assert_eq!(
        request_json(&req),
        "{\"type\":\"memo\",\"content\":\"pick up milk \",\"folder\":\"errands\",\"tags\":[\"food\"]}"
    );
}

#[test]
fn only_code_200_is_a_success() {
    assert!(CuboxResponse::new("Save success".to_string(), 200).is_success());
    assert!(!CuboxResponse::new("bad key".to_string(), 401).is_success());
    assert!(!CuboxResponse::new("".to_string(), 0).is_success());
}
