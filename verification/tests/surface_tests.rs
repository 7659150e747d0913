use rplanner::data::NoteElement;
use rplanner::images::validate_path_is_in_image_folder;
use rplanner::internal_error::{ErrorKind, InternalError};
use rplanner::surface::{construct_note_from_fragment_divs, new_note, note_from_surface, SurfaceNode};
use rplanner::sync_client::{RequestSlot, SyncSlots};

fn text(s: &str) -> NoteElement {
    NoteElement::Text(s.to_string())
}

fn image(s: &str) -> NoteElement {
    NoteElement::Image(s.to_string())
}

#[test]
fn surface_serialization_orders_and_strips() {
    // the first 26 characters of the source URL are the serving prefix
    let nodes = vec![
        SurfaceNode::Text("hello".to_string()),
        SurfaceNode::Image("http://host/notes/image/cat.png".to_string()),
        SurfaceNode::Other,
        SurfaceNode::Text("world".to_string()),
    ];
    let content = construct_note_from_fragment_divs(&nodes, 24);
    assert_eq!(content, vec![text("hello"), image("cat.png"), text("world")]);
}

#[test]
fn surface_serialization_short_source_kept_whole() {
    let nodes = vec![SurfaceNode::Image("tiny".to_string())];
    let content = construct_note_from_fragment_divs(&nodes, 10);
    assert_eq!(content, vec![image("tiny")]);
}

#[test]
fn surface_serialization_empty_surface_blanks_note() {
    let content = construct_note_from_fragment_divs(&vec![], 0);
    assert!(content.is_empty());
}

#[test]
fn note_from_surface_carries_content_and_a_date() {
    let nodes = vec![SurfaceNode::Text("body".to_string())];
    let note = note_from_surface(&nodes, 0);
    assert_eq!(note.content, vec![text("body")]);
    // the date is the current time: no fixed value, but never blank
    assert!(!note.date.is_empty());
}

#[test]
fn new_note_has_one_default_text_fragment() {
    let note = new_note();
    assert_eq!(note.content, vec![text("New note...")]);
    assert!(!note.date.is_empty());
}

#[test]
fn image_folder_validation() {
    assert!(validate_path_is_in_image_folder("images/cat.png"));
    assert!(validate_path_is_in_image_folder("images/a"));
    assert!(!validate_path_is_in_image_folder("images/"));
    assert!(!validate_path_is_in_image_folder("images"));
    assert!(!validate_path_is_in_image_folder("other/cat.png"));
    assert!(!validate_path_is_in_image_folder("images/sub/cat.png"));
    assert!(!validate_path_is_in_image_folder("images/../secret"));
    assert!(!validate_path_is_in_image_folder("images/.."));
    assert!(!validate_path_is_in_image_folder("images/."));
    assert!(!validate_path_is_in_image_folder(""));
}

#[test]
fn sync_slots_supersede_older_generations() {
    let mut slots = SyncSlots::new();
    let g1 = slots.begin(RequestSlot::Flush);
    assert!(slots.is_current(RequestSlot::Flush, g1));
    let g2 = slots.begin(RequestSlot::Flush);
    assert!(!slots.is_current(RequestSlot::Flush, g1));
    assert!(slots.is_current(RequestSlot::Flush, g2));
    // other slots do not move
    assert!(slots.is_current(RequestSlot::List, 0));
    let g3 = slots.begin(RequestSlot::List);
    assert_eq!(g3, 1);
    assert!(slots.is_current(RequestSlot::Flush, g2));
}

#[test]
fn internal_error_carries_kind_and_message() {
    let e = InternalError::new(ErrorKind::IOFailure, "disk trouble");
    assert_eq!(e.kind, ErrorKind::IOFailure);
    assert_eq!(e.message(), "disk trouble");
    let e = InternalError::new(ErrorKind::SelectionUnavailable, "no selection");
    assert_eq!(e.kind, ErrorKind::SelectionUnavailable);
}
