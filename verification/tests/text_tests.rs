use filaments::keymap::{parse_key_sequence, KeyCode, KeyEvent, KeyModifiers};
use filaments::search::{rank_documents, rank_order};
use filaments::wikilink::extract_wikilink_id_at;

fn key(code: KeyCode, shift: bool, control: bool, alt: bool) -> KeyEvent {
    KeyEvent { code, modifiers: KeyModifiers { shift, control, alt } }
}

#[test]
fn single_letter_key() {
    assert_eq!(
        parse_key_sequence("q"),
        Ok(vec![key(KeyCode::Char('q'), false, false, false)])
    );
}

#[test]
fn control_c_in_brackets() {
    assert_eq!(
        parse_key_sequence("<Ctrl-C>"),
        Ok(vec![key(KeyCode::Char('c'), false, true, false)])
    );
}

#[test]
fn sequence_of_keys() {
    assert_eq!(
        parse_key_sequence("<g><Shift-g>"),
        Ok(vec![
            key(KeyCode::Char('g'), false, false, false),
            key(KeyCode::Char('G'), true, false, false),
        ])
    );
}

#[test]
fn named_keys_and_modifiers_in_any_order() {
    assert_eq!(
        parse_key_sequence("<alt-ctrl-Enter>"),
        Ok(vec![key(KeyCode::Enter, false, true, true)])
    );
    assert_eq!(
        parse_key_sequence("<F12>"),
        Ok(vec![key(KeyCode::F(12), false, false, false)])
    );
    assert_eq!(
        parse_key_sequence("<Space>"),
        Ok(vec![key(KeyCode::Char(' '), false, false, false)])
    );
    assert_eq!(
        parse_key_sequence("<hyphen>"),
        Ok(vec![key(KeyCode::Char('-'), false, false, false)])
    );
}

#[test]
fn backtab_holds_shift() {
    assert_eq!(
        parse_key_sequence("<BackTab>"),
        Ok(vec![key(KeyCode::BackTab, true, false, false)])
    );
}

#[test]
fn unbalanced_brackets_fail() {
    assert_eq!(parse_key_sequence("<Esc"), Err("Unable to parse `<Esc`".to_string()));
}

#[test]
fn unknown_key_fails_with_its_name() {
    assert_eq!(parse_key_sequence("<Ctrl-Foo>"), Err("Unable to parse foo".to_string()));
    assert_eq!(parse_key_sequence("<a><bad>"), Err("Unable to parse bad".to_string()));
}

#[test]
fn wikilink_with_title() {
    let line = "see [[abc123 | My Note]] here";
    assert_eq!(extract_wikilink_id_at(line, 5), Some("abc123"));
    assert_eq!(extract_wikilink_id_at(line, 4), Some("abc123"));
    assert_eq!(extract_wikilink_id_at(line, 23), Some("abc123"));
    assert_eq!(extract_wikilink_id_at(line, 24), None);
    assert_eq!(extract_wikilink_id_at(line, 0), None);
}

#[test]
fn wikilink_without_title_and_second_link() {
    let line = "[[one]] and [[ two ]]";
    assert_eq!(extract_wikilink_id_at(line, 2), Some("one"));
    assert_eq!(extract_wikilink_id_at(line, 15), Some("two"));
    assert_eq!(extract_wikilink_id_at(line, 9), None);
}

#[test]
fn wikilink_left_open() {
    assert_eq!(extract_wikilink_id_at("[[open", 3), None);
}

#[test]
fn ranking_best_first_stable() {
    let scores = vec![Some(3), None, Some(5), Some(0), Some(3), Some(7)];
    assert_eq!(rank_order(&scores), vec![5, 2, 0, 4]);
    assert_eq!(rank_order(&vec![]), Vec::<usize>::new());
}

#[test]
fn ranking_documents_by_query() {
    let docs = vec![
        "a note about gardening".to_string(),
        "nothing to see".to_string(),
        "garden party".to_string(),
    ];
    let order = rank_documents("garden", &docs);
    assert!(order.contains(&0));
    assert!(order.contains(&2));
    assert!(!order.contains(&1));
}

#[test]
fn empty_query_keeps_every_document() {
    let docs = vec!["b".to_string(), "nothing".to_string(), "a".to_string()];
    assert_eq!(rank_documents("", &docs), vec![0, 1, 2]);
}

#[test]
fn key_names_ignore_case() {
    assert_eq!(parse_key_sequence("<CTRL-ENTER>"), parse_key_sequence("<ctrl-enter>"));
    assert_eq!(parse_key_sequence("Q"), parse_key_sequence("q"));
}
