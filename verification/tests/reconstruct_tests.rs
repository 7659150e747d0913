use rplanner::data::{Note, NoteElement, NoteFragment};
use rplanner::reconstruct::{construct_notes, flatten_note, get_fragment_from_row};
use rplanner::data::FragmentTag;

fn text(s: &str) -> NoteElement {
    NoteElement::Text(s.to_string())
}

fn image(s: &str) -> NoteElement {
    NoteElement::Image(s.to_string())
}

#[test]
fn roundtrip_flatten_then_reconstruct() {
    let note = Note {
        content: vec![text("ab"), image("i.png"), text("cd"), image("j.png"), text("")],
        date: "Mon, 2 Aug 2004 09:00:00 +0000".to_string(),
    };
    let (text_rows, image_rows) = flatten_note(7, &note);
    let dates = vec![(7i64, note.date.clone())];
    let rebuilt = construct_notes(&text_rows, &image_rows, &dates);
    assert_eq!(rebuilt.len(), 1);
    assert_eq!(rebuilt[0].0, 7);
    assert_eq!(rebuilt[0].1.content, note.content);
    assert_eq!(rebuilt[0].1.date, note.date);
}

#[test]
fn flatten_numbers_fragments_by_position() {
    let note = Note {
        content: vec![text("a"), image("b"), text("c")],
        date: String::new(),
    };
    let (text_rows, image_rows) = flatten_note(3, &note);
    assert_eq!(text_rows, vec![(3, text("a"), 0), (3, text("c"), 2)]);
    assert_eq!(image_rows, vec![(3, image("b"), 1)]);
}

#[test]
fn reconstruct_sorts_rows_by_fragment_num() {
    let text_rows: Vec<NoteFragment> = vec![(1, text("z"), 2), (1, text("a"), 0)];
    let image_rows: Vec<NoteFragment> = vec![(1, image("m"), 1)];
    let dates = vec![(1i64, "d".to_string())];
    let notes = construct_notes(&text_rows, &image_rows, &dates);
    assert_eq!(notes.len(), 1);
    assert_eq!(notes[0].1.content, vec![text("a"), image("m"), text("z")]);
}

#[test]
fn reconstruct_emits_header_only_notes_with_empty_content() {
    let text_rows: Vec<NoteFragment> = vec![];
    let image_rows: Vec<NoteFragment> = vec![];
    let dates = vec![(5i64, "only a date".to_string())];
    let notes = construct_notes(&text_rows, &image_rows, &dates);
    assert_eq!(notes.len(), 1);
    assert_eq!(notes[0].0, 5);
    assert!(notes[0].1.content.is_empty());
    assert_eq!(notes[0].1.date, "only a date");
}

#[test]
fn reconstruct_gives_empty_date_without_header_row() {
    let text_rows: Vec<NoteFragment> = vec![(2, text("x"), 0)];
    let image_rows: Vec<NoteFragment> = vec![];
    let dates = vec![];
    let notes = construct_notes(&text_rows, &image_rows, &dates);
    assert_eq!(notes.len(), 1);
    assert_eq!(notes[0].0, 2);
    assert_eq!(notes[0].1.content, vec![text("x")]);
    assert_eq!(notes[0].1.date, "");
}

#[test]
fn reconstruct_last_header_row_wins() {
    let text_rows: Vec<NoteFragment> = vec![];
    let image_rows: Vec<NoteFragment> = vec![];
    let dates = vec![(1i64, "first".to_string()), (1i64, "second".to_string())];
    let notes = construct_notes(&text_rows, &image_rows, &dates);
    assert_eq!(notes.len(), 1);
    assert_eq!(notes[0].1.date, "second");
}

#[test]
fn reconstruct_orders_notes_by_id() {
    let text_rows: Vec<NoteFragment> =
        vec![(9, text("nine"), 0), (2, text("two"), 0), (5, text("five"), 0)];
    let image_rows: Vec<NoteFragment> = vec![];
    let dates = vec![(5i64, "d5".to_string())];
    let notes = construct_notes(&text_rows, &image_rows, &dates);
    let ids: Vec<i64> = notes.iter().map(|p| p.0).collect();
    assert_eq!(ids, vec![2, 5, 9]);
}

#[test]
fn reconstruct_stable_on_equal_fragment_nums() {
    // Two text rows share a number: row order is kept among equals,
    // text rows before image rows.
    let text_rows: Vec<NoteFragment> = vec![(1, text("first"), 0), (1, text("second"), 0)];
    let image_rows: Vec<NoteFragment> = vec![(1, image("img"), 0)];
    let dates = vec![];
    let notes = construct_notes(&text_rows, &image_rows, &dates);
    assert_eq!(notes[0].1.content, vec![text("first"), text("second"), image("img")]);
}

#[test]
fn fragment_from_row_tags_payload() {
    assert_eq!(
        get_fragment_from_row(4, "hello".to_string(), 2, FragmentTag::Text),
        (4, text("hello"), 2)
    );
    assert_eq!(
        get_fragment_from_row(4, "pic.png".to_string(), 0, FragmentTag::Image),
        (4, image("pic.png"), 0)
    );
}

#[test]
fn roundtrip_empty_note() {
    let note = Note { content: vec![], date: "d".to_string() };
    let (text_rows, image_rows) = flatten_note(1, &note);
    assert!(text_rows.is_empty());
    assert!(image_rows.is_empty());
    let notes = construct_notes(&text_rows, &image_rows, &vec![(1i64, "d".to_string())]);
    assert_eq!(notes.len(), 1);
    assert!(notes[0].1.content.is_empty());
}
