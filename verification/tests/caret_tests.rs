use rplanner::caret::{
    get_fragment_from_id, get_last_fragment_num, get_line_based_position, get_next_text_fragment_num,
    get_note_by_id, get_note_text_fragments, get_previous_text_fragment_num,
    get_text_fragment_content, get_text_fragment_offset_from_sibling,
};
use rplanner::data::{CaretPosition, EnumeratedNotes, Note, NoteElement};
use rplanner::internal_error::ErrorKind;

fn text(s: &str) -> NoteElement {
    NoteElement::Text(s.to_string())
}

fn image(s: &str) -> NoteElement {
    NoteElement::Image(s.to_string())
}

fn sample_notes() -> EnumeratedNotes {
    vec![
        (
            1,
            Note {
                content: vec![text("ab\ncd"), image("i.png"), text("tail")],
                date: "d1".to_string(),
            },
        ),
        (2, Note { content: vec![image("only.png")], date: "d2".to_string() }),
    ]
}

#[test]
fn note_lookup_finds_first_match() {
    let notes = sample_notes();
    let note = get_note_by_id(1, &notes).unwrap();
    assert_eq!(note.date, "d1");
    assert!(get_note_by_id(42, &notes).is_none());
}

#[test]
fn fragment_lookup_and_errors() {
    let notes = sample_notes();
    assert_eq!(get_fragment_from_id(1, 1, &notes).unwrap(), &image("i.png"));
    assert_eq!(get_fragment_from_id(9, 0, &notes).unwrap_err().kind, ErrorKind::NotFound);
    assert_eq!(get_fragment_from_id(1, 3, &notes).unwrap_err().kind, ErrorKind::NotFound);
    assert_eq!(get_fragment_from_id(1, -1, &notes).unwrap_err().kind, ErrorKind::NotFound);
}

#[test]
fn text_fragment_content_distinguishes_kinds() {
    let notes = sample_notes();
    assert_eq!(get_text_fragment_content(1, 0, &notes).unwrap(), "ab\ncd");
    assert_eq!(
        get_text_fragment_content(1, 1, &notes).unwrap_err().kind,
        ErrorKind::InvalidOperation
    );
    assert_eq!(get_text_fragment_content(3, 0, &notes).unwrap_err().kind, ErrorKind::NotFound);
}

#[test]
fn text_fragments_skip_images() {
    let notes = sample_notes();
    let tf = get_note_text_fragments(1, &notes).unwrap();
    assert_eq!(tf, vec![(0, "ab\ncd".to_string()), (2, "tail".to_string())]);
    let tf2 = get_note_text_fragments(2, &notes).unwrap();
    assert!(tf2.is_empty());
}

#[test]
fn sibling_navigation_skips_images() {
    let notes = sample_notes();
    assert_eq!(get_next_text_fragment_num(1, 0, &notes), Some(2));
    assert_eq!(get_previous_text_fragment_num(1, 2, &notes), Some(0));
    assert_eq!(get_next_text_fragment_num(1, 2, &notes), None);
    assert_eq!(get_previous_text_fragment_num(1, 0, &notes), None);
}

#[test]
fn sibling_navigation_errors() {
    let notes = sample_notes();
    // fragment 1 is an image: not in the text-only ordering
    assert_eq!(
        get_text_fragment_offset_from_sibling(1, 1, 1, &notes).unwrap_err().kind,
        ErrorKind::NotFound
    );
    assert_eq!(
        get_text_fragment_offset_from_sibling(1, 0, 5, &notes).unwrap_err().kind,
        ErrorKind::OutOfRange
    );
    assert_eq!(
        get_text_fragment_offset_from_sibling(1, 0, -1, &notes).unwrap_err().kind,
        ErrorKind::OutOfRange
    );
    assert_eq!(
        get_text_fragment_offset_from_sibling(99, 0, 1, &notes).unwrap_err().kind,
        ErrorKind::NotFound
    );
    assert_eq!(get_text_fragment_offset_from_sibling(1, 0, 0, &notes).unwrap(), 0);
}

#[test]
fn last_fragment_num_needs_positive_predecessor() {
    let notes = sample_notes();
    assert_eq!(get_last_fragment_num(1, 2, &notes), Some(1));
    // predecessor would be fragment 0: not offered
    assert_eq!(get_last_fragment_num(1, 1, &notes), None);
    assert_eq!(get_last_fragment_num(1, 0, &notes), None);
    // predecessor past the end of the note
    assert_eq!(get_last_fragment_num(2, 5, &notes), None);
    assert_eq!(get_last_fragment_num(77, 2, &notes), None);
}

#[test]
fn line_position_resolves_lines_and_offsets() {
    let notes = sample_notes();
    let pos = CaretPosition { note_id: 1, fragment_num: 0, index: 4 };
    assert_eq!(get_line_based_position(&pos, &notes).unwrap(), (1, 1));
}

#[test]
fn line_position_edges() {
    let notes = sample_notes();
    // "ab\ncd": index 0 -> line 0 offset 0; index 2 sits at the end of line 0;
    // index 3 starts line 1; index 5 is the end of the text.
    let at = |i: u32| {
        get_line_based_position(
            &CaretPosition { note_id: 1, fragment_num: 0, index: i },
            &notes,
        )
    };
    assert_eq!(at(0).unwrap(), (0, 0));
    assert_eq!(at(2).unwrap(), (2, 0));
    assert_eq!(at(3).unwrap(), (0, 1));
    assert_eq!(at(5).unwrap(), (2, 1));
    assert_eq!(at(6).unwrap_err().kind, ErrorKind::OutOfRange);
}

#[test]
fn line_position_errors_on_bad_fragment() {
    let notes = sample_notes();
    let image_pos = CaretPosition { note_id: 1, fragment_num: 1, index: 0 };
    assert_eq!(
        get_line_based_position(&image_pos, &notes).unwrap_err().kind,
        ErrorKind::InvalidOperation
    );
    let gone = CaretPosition { note_id: 8, fragment_num: 0, index: 0 };
    assert_eq!(get_line_based_position(&gone, &notes).unwrap_err().kind, ErrorKind::NotFound);
}
