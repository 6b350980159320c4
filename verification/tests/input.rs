use jview::input::{History, KeyCode, TextInput};

#[test]
fn record_skips_blanks_and_consecutive_dupes() {
    let mut h = History::default();
    h.record("a");
    h.record("  ");
    h.record("a"); // dupe of newest — dropped
    h.record("b");
    h.record("a"); // not consecutive — kept
                   // Oldest→newest: a, b, a
    assert_eq!(h.prev(""), Some("a".to_string()));
    assert_eq!(h.prev("a"), Some("b".to_string()));
    assert_eq!(h.prev("b"), Some("a".to_string()));
    assert_eq!(h.prev("a"), None); // at the oldest
}

#[test]
fn browse_up_then_down_restores_draft() {
    let mut h = History::default();
    h.record("first");
    h.record("second");
    assert_eq!(h.prev("draft"), Some("second".to_string()));
    assert_eq!(h.prev("second"), Some("first".to_string()));
    // Down past the newest brings the stashed draft back and stops browsing.
    assert_eq!(h.next(), Some("second".to_string()));
    assert_eq!(h.next(), Some("draft".to_string()));
    assert_eq!(h.next(), None);
}

#[test]
fn empty_ring_and_reset() {
    let mut h = History::default();
    assert_eq!(h.prev("x"), None);
    assert_eq!(h.next(), None);
    h.record("only");
    assert_eq!(h.prev("y"), Some("only".to_string()));
    h.reset(); // reopening the prompt
    assert_eq!(h.prev("z"), Some("only".to_string())); // starts from newest again
}

#[test]
fn cap_bounds_the_ring() {
    let mut h = History::default();
    for i in 0..(History::CAP + 50) {
        h.record(&i.to_string());
    }
    // Newest is CAP+49; walking all the way back reaches the retained oldest.
    let mut steps = 1;
    let mut last = h.prev("").unwrap();
    while let Some(v) = h.prev(&last) {
        last = v;
        steps += 1;
    }
    assert_eq!(steps, History::CAP);
}

fn typed(text: &str) -> TextInput {
    let mut line = TextInput::default();
    for c in text.chars() {
        line.edit(KeyCode::Char(c), false);
    }
    line
}

#[test]
fn a_line_is_edited_at_its_caret() {
    let mut line = typed("hélo");
    assert_eq!(line.edit(KeyCode::Left, false), Some(false));
    assert_eq!(line.edit(KeyCode::Char('l'), false), Some(true));
    assert_eq!(line.as_str(), "héllo");
    assert_eq!(line.edit(KeyCode::Home, false), Some(false));
    assert_eq!(line.edit(KeyCode::Delete, false), Some(true));
    assert_eq!(line.as_str(), "éllo");
    assert_eq!(line.edit(KeyCode::Backspace, false), Some(false));
    assert_eq!(line.edit(KeyCode::End, false), Some(false));
    assert_eq!(line.edit(KeyCode::Backspace, false), Some(true));
    assert_eq!(line.as_str(), "éll");
    assert_eq!(line.edit(KeyCode::PageUp, false), None);
}

#[test]
fn control_keys_move_and_delete() {
    let mut line = typed("one two  ");
    assert_eq!(line.edit(KeyCode::Char('w'), true), Some(true));
    assert_eq!(line.as_str(), "one ");
    line.edit(KeyCode::Char('a'), true);
    line.edit(KeyCode::Char('f'), true);
    line.edit(KeyCode::Char('k'), true);
    assert_eq!(line.as_str(), "o");
    line.edit(KeyCode::Char('u'), true);
    assert!(line.is_empty());
    assert_eq!(line.edit(KeyCode::Char('x'), true), None);
}

#[test]
fn inserting_and_deleting_undo_each_other() {
    let mut line = typed("ab");
    line.edit(KeyCode::Left, false);
    line.edit(KeyCode::Char('☃'), false);
    line.edit(KeyCode::Backspace, false);
    assert_eq!(line.as_str(), "ab");
    line.edit(KeyCode::Char('x'), false);
    assert_eq!(line.as_str(), "axb");
}

#[test]
fn a_history_keeps_no_blank_and_no_repeat() {
    let mut h = History::default();
    for line in [" a ", "a", "\t", "", "b\n", " b", "a", "  a", "c"] {
        h.record(line);
    }
    for _ in 0..History::CAP {
        h.record("x");
        h.record(" y ");
    }
    let mut seen = Vec::new();
    while let Some(line) = h.prev("") {
        seen.push(line);
    }
    assert_eq!(seen.len(), History::CAP);
    assert!(seen.iter().all(|l| !l.is_empty() && l.trim() == l));
    assert!(seen.windows(2).all(|w| w[0] != w[1]));
}
