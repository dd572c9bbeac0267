use crane::actions::{Common, ModifyFileAction};
use crane::error::ActionError;
use crane::text::{chars_of, find_matches, modify_text, ModifyType};

fn modify(selector: &str, op: ModifyType, content: Option<&str>) -> ModifyFileAction {
    ModifyFileAction {
        common: Common::default(),
        modify_type: op,
        content: content.map(|c| c.to_string()),
        selector: selector.to_string(),
    }
}

#[test]
fn prepend_inserts_before_every_match() {
    let t = "a-x-b-x-c";
    let r = modify_text(t, "x", ModifyType::Prepend, "[]").unwrap();
    assert_eq!(r, "a-[]x-b-[]x-c");
    assert_eq!(r.len(), t.len() + 2 * 2);
    assert_eq!(r.replacen("[]", "", 2), t);
}

#[test]
fn append_inserts_after_every_match() {
    let r = modify_text("a-x-b-x-c", "x", ModifyType::Append, "[]").unwrap();
    assert_eq!(r, "a-x[]-b-x[]-c");
}

#[test]
fn replace_single_match() {
    let t = "[package]\n[dependencies]\nserde = \"1\"\n";
    let r = modify_text(t, "[dependencies]", ModifyType::Replace, "[dev-dependencies]").unwrap();
    let off = t.find("[dependencies]").unwrap();
    let expected = format!("{}{}{}", &t[..off], "[dev-dependencies]", &t[off + "[dependencies]".len()..]);
    assert_eq!(r, expected);
}

#[test]
fn replace_with_shorter_content_at_every_match() {
    let r = modify_text("abcXYZdefXYZghiXYZ", "XYZ", ModifyType::Replace, "-").unwrap();
    assert_eq!(r, "abc-def-ghi-");
}

#[test]
fn replace_with_longer_content_at_every_match() {
    let r = modify_text("1;2;3", ";", ModifyType::Replace, " and ").unwrap();
    assert_eq!(r, "1 and 2 and 3");
}

#[test]
fn no_match_fails() {
    assert_eq!(
        modify_text("hello", "bye", ModifyType::Append, "x"),
        Err(ActionError::NoSelectorMatch)
    );
}

#[test]
fn matches_do_not_overlap() {
    let t = chars_of("aaaa");
    let s = chars_of("aa");
    assert_eq!(find_matches(&t, &s), vec![0, 2]);
    assert_eq!(modify_text("aaaa", "aa", ModifyType::Prepend, "|").unwrap(), "|aa|aa");
}

#[test]
fn non_ascii_text_is_edited_by_characters() {
    let r = modify_text("héllo wörld", "ö", ModifyType::Replace, "oe").unwrap();
    assert_eq!(r, "héllo woerld");
}

#[test]
fn empty_selector_matches_between_every_character() {
    assert_eq!(modify_text("ab", "", ModifyType::Prepend, ".").unwrap(), ".a.b.");
}

#[test]
fn modify_content_uses_action_settings() {
    let a = modify("[dependencies]", ModifyType::Append, Some("\nserde = \"1\""));
    let r = a.modify_content(String::from("[dependencies]\ncrane = \"9.9.9\"\n")).unwrap();
    assert_eq!(r, "[dependencies]\nserde = \"1\"\ncrane = \"9.9.9\"\n");
}

#[test]
fn modify_content_without_content_inserts_nothing() {
    let a = modify("x", ModifyType::Replace, None);
    assert_eq!(a.content(), "");
    assert_eq!(a.modify_content(String::from("axb")).unwrap(), "ab");
}
