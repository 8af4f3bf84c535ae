use std::collections::BTreeMap;

use recall::store::Recalls;

fn notes(xs: &[&str]) -> Vec<String> {
    xs.iter().map(|s| s.to_string()).collect()
}

#[test]
fn write_produces_exact_json() {
    let mut rec = Recalls::new(None, "/proj".to_string()).unwrap();
    rec.add(notes(&["fix it", "ship it"]));
    assert_eq!(rec.write(), "{\"/proj\":[\"fix it\",\"ship it\"]}");
}

#[test]
fn write_escapes_quote_backslash_and_controls() {
    let mut rec = Recalls::new(None, "/p".to_string()).unwrap();
    rec.add(notes(&["a\"b\\c", "tab\tend", "esc\u{1b}!"]));
    assert_eq!(
        rec.write(),
        "{\"/p\":[\"a\\\"b\\\\c\",\"tab\\u0009end\",\"esc\\u001b!\"]}"
    );
}

#[test]
fn empty_store_writes_an_empty_object() {
    let rec = Recalls::new(None, "/p".to_string()).unwrap();
    assert_eq!(rec.write(), "{}");
}

#[test]
fn save_then_load_reproduces_the_mapping() {
    let content = "{\"/a\":[\"one\",\"two\"],\"/b\":[\"three\"]}";
    let mut rec = Recalls::new(Some(content), "/a".to_string()).unwrap();
    rec.add(notes(&["four \"quoted\" and \\slashed\\"]));
    let text = rec.write();
    let back_a = Recalls::new(Some(&text), "/a".to_string()).unwrap();
    assert_eq!(
        back_a.get_list().unwrap(),
        &notes(&["one", "two", "four \"quoted\" and \\slashed\\"])
    );
    let back_b = Recalls::new(Some(&text), "/b".to_string()).unwrap();
    assert_eq!(back_b.get_list().unwrap(), &notes(&["three"]));
}

#[test]
fn missing_content_means_an_empty_store() {
    let rec = Recalls::new(None, "/anywhere".to_string()).unwrap();
    assert!(rec.get_list().is_none());
}

#[test]
fn empty_object_parses_to_an_empty_store() {
    let rec = Recalls::new(Some("{}"), "/p".to_string()).unwrap();
    assert!(rec.get_list().is_none());
}

#[test]
fn whitespace_between_tokens_is_accepted() {
    let content = " {\n  \"/a\" : [ \"x\" ,\t\"y\" ] ,\r\n  \"/b\" : [ ] \n} ";
    let rec = Recalls::new(Some(content), "/a".to_string()).unwrap();
    assert_eq!(rec.get_list().unwrap(), &notes(&["x", "y"]));
    let rec_b = Recalls::new(Some(content), "/b".to_string()).unwrap();
    assert_eq!(rec_b.get_list().unwrap(), &Vec::<String>::new());
}

#[test]
fn short_escapes_and_u_escapes_are_decoded() {
    let content = "{\"/p\":[\"a\\nb\\tc\\\"d\\\\e\\/f\\u0041g\\u001bh\"]}";
    let rec = Recalls::new(Some(content), "/p".to_string()).unwrap();
    assert_eq!(
        rec.get_list().unwrap(),
        &notes(&["a\nb\tc\"d\\e/fAg\u{1b}h"])
    );
}

#[test]
fn repeated_key_is_settled_by_the_last_entry() {
    let content = "{\"/p\":[\"old\"],\"/p\":[\"new\"]}";
    let rec = Recalls::new(Some(content), "/p".to_string()).unwrap();
    assert_eq!(rec.get_list().unwrap(), &notes(&["new"]));
}

#[test]
fn empty_content_is_a_parse_error() {
    assert!(Recalls::new(Some(""), "/p".to_string()).is_err());
}

#[test]
fn truncated_object_is_a_parse_error() {
    assert!(Recalls::new(Some("{\"/p\":[\"x\"]"), "/p".to_string()).is_err());
}

#[test]
fn non_object_content_is_a_parse_error() {
    assert!(Recalls::new(Some("[\"x\"]"), "/p".to_string()).is_err());
    assert!(Recalls::new(Some("42"), "/p".to_string()).is_err());
}

#[test]
fn trailing_garbage_is_a_parse_error() {
    assert!(Recalls::new(Some("{} extra"), "/p".to_string()).is_err());
    assert!(Recalls::new(Some("{\"/p\":[\"x\"]} extra"), "/p".to_string()).is_err());
}

#[test]
fn wide_unicode_escape_is_a_parse_error() {
    assert!(Recalls::new(Some("{\"/p\":[\"\\u1234\"]}"), "/p".to_string()).is_err());
}

#[test]
fn unknown_escape_is_a_parse_error() {
    assert!(Recalls::new(Some("{\"/p\":[\"\\x\"]}"), "/p".to_string()).is_err());
}

#[test]
fn written_text_is_read_by_serde_json() {
    let content = "{\"/a\":[\"plain\",\"with \\\"quotes\\\"\",\"tab\\there\"]}";
    let rec = Recalls::new(Some(content), "/a".to_string()).unwrap();
    let text = rec.write();
    let reference: BTreeMap<String, Vec<String>> = serde_json::from_str(&text).unwrap();
    assert_eq!(
        reference["/a"],
        notes(&["plain", "with \"quotes\"", "tab\there"])
    );
}

#[test]
fn serde_json_output_is_read_back() {
    let mut reference: BTreeMap<String, Vec<String>> = BTreeMap::new();
    reference.insert("/a".to_string(), notes(&["x\ny", "z", "q\"w\\e"]));
    reference.insert("/b".to_string(), notes(&[]));
    let text = serde_json::to_string(&reference).unwrap();
    let rec = Recalls::new(Some(&text), "/a".to_string()).unwrap();
    assert_eq!(rec.get_list().unwrap(), &notes(&["x\ny", "z", "q\"w\\e"]));
    let rec_b = Recalls::new(Some(&text), "/b".to_string()).unwrap();
    assert_eq!(rec_b.get_list().unwrap(), &Vec::<String>::new());
}

#[test]
fn value_that_is_not_a_list_is_a_parse_error() {
    assert!(Recalls::new(Some("{\"/p\":\"x\"}"), "/p".to_string()).is_err());
    assert!(Recalls::new(Some("{\"/p\":[1]}"), "/p".to_string()).is_err());
    assert!(Recalls::new(Some("{\"/p\":{}}"), "/p".to_string()).is_err());
}

#[test]
fn control_characters_in_notes_round_trip() {
    let mut rec = Recalls::new(None, "/p".to_string()).unwrap();
    rec.add(notes(&["bell\u{7}null-ish\u{1}end"]));
    let text = rec.write();
    let back = Recalls::new(Some(&text), "/p".to_string()).unwrap();
    assert_eq!(back.get_list().unwrap(), &notes(&["bell\u{7}null-ish\u{1}end"]));
    let reference: BTreeMap<String, Vec<String>> = serde_json::from_str(&text).unwrap();
    assert_eq!(reference["/p"], notes(&["bell\u{7}null-ish\u{1}end"]));
}

#[test]
fn non_ascii_keys_round_trip() {
    let mut rec = Recalls::new(None, "/päth/ünter".to_string()).unwrap();
    rec.add(notes(&["n"]));
    let text = rec.write();
    let back = Recalls::new(Some(&text), "/päth/ünter".to_string()).unwrap();
    assert_eq!(back.get_list().unwrap(), &notes(&["n"]));
}

#[test]
fn non_ascii_notes_round_trip() {
    let mut rec = Recalls::new(None, "/p".to_string()).unwrap();
    rec.add(notes(&["héllo wörld → ✓"]));
    let text = rec.write();
    let back = Recalls::new(Some(&text), "/p".to_string()).unwrap();
    assert_eq!(back.get_list().unwrap(), &notes(&["héllo wörld → ✓"]));
    let reference: BTreeMap<String, Vec<String>> = serde_json::from_str(&text).unwrap();
    assert_eq!(reference["/p"], notes(&["héllo wörld → ✓"]));
}
