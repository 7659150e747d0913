use rplanner::data::{Note, NoteElement};
use rplanner::edits::{insert_image_into_note, remove_fragment_from_note, replace_content};
use rplanner::internal_error::ErrorKind;

fn text(s: &str) -> NoteElement {
    NoteElement::Text(s.to_string())
}

fn image(s: &str) -> NoteElement {
    NoteElement::Image(s.to_string())
}

fn note_of(content: Vec<NoteElement>) -> Note {
    Note { content, date: "Tue, 1 Jul 2003 10:52:37 +0200".to_string() }
}

#[test]
fn insert_image_splits_text_fragment() {
    let mut note = note_of(vec![text("helloworld")]);
    let r = insert_image_into_note(&mut note, 0, 5, &"x.png".to_string());
    assert!(r.is_ok());
    assert_eq!(note.content, vec![text("hello"), image("x.png"), text("world")]);
}

#[test]
fn insert_image_keeps_surrounding_fragments() {
    let mut note = note_of(vec![image("a.png"), text("bc"), text("tail")]);
    let r = insert_image_into_note(&mut note, 1, 1, &"mid.png".to_string());
    assert!(r.is_ok());
    assert_eq!(
        note.content,
        vec![image("a.png"), text("b"), image("mid.png"), text("c"), text("tail")]
    );
}

#[test]
fn insert_image_at_ends_leaves_empty_text_fragments() {
    let mut note = note_of(vec![text("ab")]);
    assert!(insert_image_into_note(&mut note, 0, 0, &"i.png".to_string()).is_ok());
    assert_eq!(note.content, vec![text(""), image("i.png"), text("ab")]);

    let mut note = note_of(vec![text("ab")]);
    assert!(insert_image_into_note(&mut note, 0, 2, &"i.png".to_string()).is_ok());
    assert_eq!(note.content, vec![text("ab"), image("i.png"), text("")]);
}

#[test]
fn insert_image_into_image_fragment_fails() {
    let mut note = note_of(vec![image("a.png")]);
    let r = insert_image_into_note(&mut note, 0, 0, &"b.png".to_string());
    assert_eq!(r.unwrap_err().kind, ErrorKind::InvalidOperation);
    assert_eq!(note.content, vec![image("a.png")]);
}

#[test]
fn insert_image_out_of_bounds_fails() {
    let mut note = note_of(vec![text("ab")]);
    let r = insert_image_into_note(&mut note, 3, 0, &"b.png".to_string());
    assert_eq!(r.unwrap_err().kind, ErrorKind::InvalidOperation);
    let r = insert_image_into_note(&mut note, -1, 0, &"b.png".to_string());
    assert_eq!(r.unwrap_err().kind, ErrorKind::InvalidOperation);
    let r = insert_image_into_note(&mut note, 0, 3, &"b.png".to_string());
    assert_eq!(r.unwrap_err().kind, ErrorKind::InvalidOperation);
    assert_eq!(note.content, vec![text("ab")]);
}

#[test]
fn delete_fragment_merges_adjacent_text() {
    let mut note = note_of(vec![text("ab"), image("i"), text("cd")]);
    let r = remove_fragment_from_note(&mut note, 1);
    assert!(r.is_ok());
    assert_eq!(note.content, vec![text("abcd")]);
}

#[test]
fn delete_fragment_does_not_merge_past_image() {
    let mut note = note_of(vec![text("ab"), image("i1"), image("i2")]);
    let r = remove_fragment_from_note(&mut note, 1);
    assert!(r.is_ok());
    assert_eq!(note.content, vec![text("ab"), image("i2")]);
}

#[test]
fn delete_first_fragment_has_no_left_neighbor() {
    let mut note = note_of(vec![text("ab"), text("cd")]);
    let r = remove_fragment_from_note(&mut note, 0);
    assert!(r.is_ok());
    assert_eq!(note.content, vec![text("cd")]);
}

#[test]
fn delete_last_fragment_has_no_right_neighbor() {
    let mut note = note_of(vec![text("ab"), text("cd"), text("ef")]);
    let r = remove_fragment_from_note(&mut note, 2);
    assert!(r.is_ok());
    assert_eq!(note.content, vec![text("ab"), text("cd")]);
}

#[test]
fn delete_between_two_texts_merges_them() {
    let mut note = note_of(vec![text("ab"), text("xx"), text("cd")]);
    let r = remove_fragment_from_note(&mut note, 1);
    assert!(r.is_ok());
    assert_eq!(note.content, vec![text("abcd")]);
}

#[test]
fn delete_out_of_bounds_fails_with_out_of_range() {
    let mut note = note_of(vec![text("ab"), image("i")]);
    let r = remove_fragment_from_note(&mut note, 5);
    assert_eq!(r.unwrap_err().kind, ErrorKind::OutOfRange);
    assert_eq!(note.content, vec![text("ab"), image("i")]);

    let r = remove_fragment_from_note(&mut note, -1);
    assert_eq!(r.unwrap_err().kind, ErrorKind::OutOfRange);
    assert_eq!(note.content, vec![text("ab"), image("i")]);
}

#[test]
fn insert_image_counts_characters_not_bytes() {
    let mut note = note_of(vec![text("héllo")]);
    let r = insert_image_into_note(&mut note, 0, 2, &"x.png".to_string());
    assert!(r.is_ok());
    assert_eq!(note.content, vec![text("hé"), image("x.png"), text("llo")]);
}

#[test]
fn replace_content_swaps_whole_document() {
    let mut note = note_of(vec![text("old")]);
    replace_content(&mut note, vec![text("new"), image("i.png")]);
    assert_eq!(note.content, vec![text("new"), image("i.png")]);
    assert_eq!(note.date, "Tue, 1 Jul 2003 10:52:37 +0200");

    replace_content(&mut note, vec![]);
    assert!(note.content.is_empty());
}
