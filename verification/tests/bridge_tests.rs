use rplanner::caret::{backspace_fragment_target, parse_dataset_int};
use rplanner::data::{CaretPosition, EnumeratedNotes, Note, NoteElement};
use rplanner::edits::insert_newline_into_text;
use rplanner::surface::{handle_keyboard_event, NoteKeyEvent};

fn text(s: &str) -> NoteElement {
    NoteElement::Text(s.to_string())
}

#[test]
fn dataset_int_parses_plain_numbers() {
    assert_eq!(parse_dataset_int("0"), Some(0));
    assert_eq!(parse_dataset_int("42"), Some(42));
    assert_eq!(parse_dataset_int("007"), Some(7));
    assert_eq!(parse_dataset_int("-13"), Some(-13));
    assert_eq!(parse_dataset_int("+13"), Some(13));
    assert_eq!(parse_dataset_int("9223372036854775807"), Some(i64::MAX));
    assert_eq!(parse_dataset_int("-9223372036854775808"), Some(i64::MIN));
}

#[test]
fn dataset_int_rejects_garbage_and_overflow() {
    assert_eq!(parse_dataset_int(""), None);
    assert_eq!(parse_dataset_int("-"), None);
    assert_eq!(parse_dataset_int("+"), None);
    assert_eq!(parse_dataset_int("12a"), None);
    assert_eq!(parse_dataset_int("a12"), None);
    assert_eq!(parse_dataset_int("1 2"), None);
    assert_eq!(parse_dataset_int("--5"), None);
    assert_eq!(parse_dataset_int("9223372036854775808"), None);
    assert_eq!(parse_dataset_int("-9223372036854775809"), None);
}

#[test]
fn newline_splices_into_text() {
    assert_eq!(insert_newline_into_text("abcd", 2), Some("ab\ncd".to_string()));
    assert_eq!(insert_newline_into_text("abcd", 0), Some("\nabcd".to_string()));
    assert_eq!(insert_newline_into_text("abcd", 4), Some("abcd\n".to_string()));
    assert_eq!(insert_newline_into_text("", 0), Some("\n".to_string()));
    assert_eq!(insert_newline_into_text("abcd", 5), None);
}

fn one_note() -> EnumeratedNotes {
    vec![(
        1,
        Note { content: vec![text("a"), text("b"), text("c")], date: "d".to_string() },
    )]
}

#[test]
fn backspace_targets_previous_fragment_only_at_offset_zero() {
    let notes = one_note();
    let at = |frag: i64, index: u32| {
        backspace_fragment_target(
            &CaretPosition { note_id: 1, fragment_num: frag, index },
            &notes,
        )
    };
    assert_eq!(at(2, 0), Some(1));
    // caret inside the fragment: the key deletes a character, not a fragment
    assert_eq!(at(2, 3), None);
    // fragment 0 has no deletable predecessor
    assert_eq!(at(1, 0), None);
    assert_eq!(at(0, 0), None);
}

#[test]
fn keyboard_events_map_by_key_name() {
    assert_eq!(handle_keyboard_event("Backspace"), Some(NoteKeyEvent::Backspace));
    assert_eq!(handle_keyboard_event("ArrowUp"), Some(NoteKeyEvent::ArrowUp));
    assert_eq!(handle_keyboard_event("ArrowDown"), Some(NoteKeyEvent::ArrowDown));
    assert_eq!(handle_keyboard_event("Enter"), Some(NoteKeyEvent::Enter));
    assert_eq!(handle_keyboard_event("ArrowLeft"), None);
    assert_eq!(handle_keyboard_event("a"), None);
    assert_eq!(handle_keyboard_event(""), None);
}
