use recall::render::expand_tilde;
use recall::render::format_line;
use recall::render::hyperlink_markup;
use recall::render::note_candidates;
use recall::render::replacement_for;
use recall::render::rewrite_note;
use recall::render::tilde_resolved;
use recall::render::usize_decimal;
use recall::store::Recalls;

fn notes(xs: &[&str]) -> Vec<String> {
    xs.iter().map(|s| s.to_string()).collect()
}

#[test]
fn candidates_are_backtick_delimited() {
    assert_eq!(note_candidates("plain text"), Vec::<String>::new());
    assert_eq!(note_candidates("fix `~/notes.txt` now"), notes(&["~/notes.txt"]));
    assert_eq!(note_candidates("`a` and `b`"), notes(&["a", "b"]));
    assert_eq!(note_candidates("`unclosed"), Vec::<String>::new());
    assert_eq!(note_candidates("``"), Vec::<String>::new());
    assert_eq!(note_candidates("a``b"), Vec::<String>::new());
    assert_eq!(note_candidates("``x`"), notes(&["x"]));
    assert_eq!(note_candidates("a`b`c`d`e"), notes(&["b", "d"]));
}

#[test]
fn scanner_matches_reference_regex() {
    let re = regex::Regex::new(r"`([^`]+)`").unwrap();
    let cases = [
        "plain",
        "`a`",
        "a``b",
        "x `p` y `q`",
        "`unclosed",
        "``",
        "``x`",
        "a`b`c`d`e",
        "`one line` tail `two` ` `",
    ];
    for text in cases {
        let expect: Vec<String> = re
            .captures_iter(text)
            .map(|c| c.get(1).unwrap().as_str().to_string())
            .collect();
        assert_eq!(note_candidates(text), expect, "scan of {:?}", text);
    }
}

#[test]
fn rewrite_replaces_each_candidate_and_drops_the_backticks() {
    let text = "see `a` and `b`!";
    let reps = notes(&["ONE", "TWO"]);
    assert_eq!(rewrite_note(text, &reps), "see ONE and TWO!");
}

#[test]
fn rewrite_matches_reference_regex_replacement() {
    let re = regex::Regex::new(r"`([^`]+)`").unwrap();
    let cases = ["plain", "`a`", "a``b", "x `p` y `q`", "`unclosed", "``x`", "a`b`c`d`e"];
    for text in cases {
        let expect = re.replace_all(text, "$1").to_string();
        let cands = note_candidates(text);
        assert_eq!(rewrite_note(text, &cands), expect, "rewrite of {:?}", text);
    }
}

#[test]
fn unresolved_candidate_falls_back_to_its_own_text() {
    let path = "/definitely/not/an/existing/path.txt";
    let out = replacement_for(path, None);
    assert_eq!(out, path);
}

#[test]
fn listing_a_note_with_a_dead_path_still_renders() {
    let mut rec = Recalls::new(None, "/proj".to_string()).unwrap();
    rec.add(notes(&["see `/definitely/not/an/existing/path.txt` soon"]));
    let list = rec.get_list().unwrap().clone();
    let mut lines: Vec<String> = Vec::new();
    for (idx, line) in list.iter().enumerate() {
        let cands = note_candidates(line);
        let mut reps: Vec<String> = Vec::new();
        for c in &cands {
            reps.push(replacement_for(c, None));
        }
        lines.push(format_line(idx, &rewrite_note(line, &reps)));
    }
    assert_eq!(
        lines,
        notes(&["[0] see /definitely/not/an/existing/path.txt soon"])
    );
    assert!(!lines[0].contains('\u{1b}'));
}

#[test]
fn listing_with_no_entry_produces_no_lines() {
    let rec = Recalls::new(None, "/proj".to_string()).unwrap();
    let mut lines: Vec<String> = Vec::new();
    if let Some(list) = rec.get_list() {
        for (idx, line) in list.iter().enumerate() {
            lines.push(format_line(idx, line));
        }
    }
    assert_eq!(lines, Vec::<String>::new());
}

#[test]
fn add_remove_list_scenario() {
    let mut rec = Recalls::new(None, "/proj".to_string()).unwrap();
    rec.add(notes(&["fix `~/notes.txt`", "ship it"]));
    assert_eq!(rec.get_list().unwrap(), &notes(&["fix `~/notes.txt`", "ship it"]));
    rec.remove(vec![0]);
    assert_eq!(rec.get_list().unwrap(), &notes(&["ship it"]));
    let line = format_line(0, &rewrite_note(&rec.get_list().unwrap()[0], &Vec::new()));
    assert_eq!(line, "[0] ship it");
}

#[test]
fn add_then_remove_two_indexes_scenario() {
    let mut rec = Recalls::new(None, "/proj".to_string()).unwrap();
    rec.add(notes(&["a", "b", "c"]));
    rec.remove(vec![0, 2]);
    assert_eq!(rec.get_list().unwrap(), &notes(&["b"]));
    let line = format_line(0, &rewrite_note(&rec.get_list().unwrap()[0], &Vec::new()));
    assert_eq!(line, "[0] b");
}

#[test]
fn hyperlink_markup_wraps_the_resolved_path() {
    assert_eq!(
        hyperlink_markup("myhost", "/abs/file.txt", "~/file.txt"),
        "\u{1b}]8;;file://myhost/abs/file.txt\u{7}~/file.txt\u{1b}]8;;\u{7}"
    );
}

#[test]
fn hyperlink_markup_inserts_a_separator_when_needed() {
    assert_eq!(
        hyperlink_markup("h", "rel/path", "p"),
        "\u{1b}]8;;file://h/rel/path\u{7}p\u{1b}]8;;\u{7}"
    );
    assert_eq!(
        hyperlink_markup("h", "", "p"),
        "\u{1b}]8;;file://h\u{7}p\u{1b}]8;;\u{7}"
    );
}

#[test]
fn tilde_expansion_rules() {
    assert_eq!(expand_tilde("~", "/home/u"), "/home/u");
    assert_eq!(expand_tilde("~/x/y", "/home/u"), "/home/u/x/y");
    assert_eq!(expand_tilde("~x", "/home/u"), "~x");
    assert_eq!(expand_tilde("a/~", "/home/u"), "a/~");
    assert_eq!(expand_tilde("", "/home/u"), "");
}

#[test]
fn plain_paths_resolve_to_themselves() {
    assert_eq!(tilde_resolved("src/lib.rs").unwrap(), "src/lib.rs");
}

#[test]
fn replacement_never_escapes_without_a_link() {
    let out = replacement_for("x", Some("/tmp"));
    assert!(out == "x" || out.starts_with("\u{1b}]8;;file://"));
}

#[test]
fn index_formatting() {
    assert_eq!(usize_decimal(0), "0");
    assert_eq!(usize_decimal(7), "7");
    assert_eq!(usize_decimal(42), "42");
    assert_eq!(usize_decimal(305), "305");
    assert_eq!(format_line(12, "note"), "[12] note");
}
