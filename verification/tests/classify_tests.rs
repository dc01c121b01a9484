use cubox::classify::{classify, CuboxRequest, SaveKind, ValidationError};

fn words(ws: &[&str]) -> Vec<String> {
    ws.iter().map(|w| w.to_string()).collect()
}

fn ok(r: Result<CuboxRequest, ValidationError>) -> CuboxRequest {
    match r {
        Ok(req) => req,
        Err(e) => panic!("expected a request, got {:?}", e),
    }
}

#[test]
fn bookmark_from_url_flag_alone() {
    let req = ok(classify(&words(&[]), &Some(Some("http://x".to_string()))));
    assert_eq!(req.kind, SaveKind::Bookmark);
    assert_eq!(req.content, "http://x");
    assert_eq!(req.title, None);
    assert_eq!(req.description, None);
    assert_eq!(req.folder, None);
    assert!(req.tags.is_empty());
}

#[test]
fn nothing_to_save_without_words_or_url() {
    let r = classify(&words(&[]), &None);
    assert_eq!(r.unwrap_err(), ValidationError::NothingToSave);
}

#[test]
fn memo_joins_words_with_spaces() {
    let req = ok(classify(&words(&["hello", "world"]), &None));
    assert_eq!(req.kind, SaveKind::Memo);
    assert_eq!(req.content, "hello world ");
}

#[test]
fn sigils_fill_their_fields() {
    let req = ok(classify(&words(&["@work", "::tag1", "note"]), &None));
    assert_eq!(req.folder.as_deref(), Some("work"));
    assert_eq!(req.tags, vec!["tag1".to_string()]);
    assert_eq!(req.content, "note ");
    assert_eq!(req.title, None);
    assert_eq!(req.description, None);
}

#[test]
fn last_sigil_wins_for_single_valued_fields() {
    let req = ok(classify(
        &words(&["^a", "x", "^b", "%d1", "@f1", "%d2", "@f2"]),
        &None,
    ));
    assert_eq!(req.title.as_deref(), Some("b"));
    assert_eq!(req.description.as_deref(), Some("d2"));
    assert_eq!(req.folder.as_deref(), Some("f2"));
    assert_eq!(req.content, "x ");
}

#[test]
fn tags_append_in_order_with_duplicates() {
    let req = ok(classify(&words(&["::t1", "x", "::t2", "::t1"]), &None));
    assert_eq!(
        req.tags,
        vec!["t1".to_string(), "t2".to_string(), "t1".to_string()]
    );
}

#[test]
fn url_flag_without_value_is_rejected_first() {
    let r = classify(&words(&["hello"]), &Some(None));
    assert_eq!(r.unwrap_err(), ValidationError::MissingUrlValue);
}

#[test]
fn url_value_replaces_content_but_keeps_metadata() {
    let req = ok(classify(
        &words(&["note", "@f", "::t"]),
        &Some(Some("http://x".to_string())),
    ));
    assert_eq!(req.kind, SaveKind::Bookmark);
    assert_eq!(req.content, "http://x");
    assert_eq!(req.folder.as_deref(), Some("f"));
    assert_eq!(req.tags, vec!["t".to_string()]);
}

#[test]
fn all_space_content_counts_as_nothing() {
    let r = classify(&words(&[" ", ""]), &None);
    assert_eq!(r.unwrap_err(), ValidationError::NothingToSave);
}

#[test]
fn blank_url_counts_as_nothing() {
    let r = classify(&words(&[]), &Some(Some(String::new())));
    assert_eq!(r.unwrap_err(), ValidationError::NothingToSave);
}

#[test]
fn bare_sigils_give_empty_fields_and_no_content() {
    let r = classify(&words(&["@", "^", "%"]), &None);
    assert_eq!(r.unwrap_err(), ValidationError::NothingToSave);
    let req = ok(classify(&words(&["@", "note"]), &None));
    assert_eq!(req.folder.as_deref(), Some(""));
    assert_eq!(req.content, "note ");
}

#[test]
fn double_colon_is_a_tag_not_content() {
    let req = ok(classify(&words(&["::tag", ":single", "note"]), &None));
    assert_eq!(req.tags, vec!["tag".to_string()]);
    assert_eq!(req.content, ":single note ");
}

#[test]
fn validation_errors_carry_their_messages() {
    assert_eq!(
        ValidationError::MissingUrlValue.message(),
        "Expect an URL: 'cu --url [URL]'"
    );
    assert_eq!(ValidationError::NothingToSave.message(), "Ops! Nothing to save.");
}
