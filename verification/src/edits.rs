//! The structural edit operations of the fragment document model:
//! split-on-image-insert, remove-with-coalescing, and whole-document
//! replacement.

use vstd::prelude::*;

use crate::data::{ElemModel, FragmentNum, Note, NoteElement};
use crate::internal_error::{ErrorKind, InternalError, InternalResult};

verus! {

/// Whether inserting an image at character offset `off` of fragment `i` is a
/// legal operation on `content`: the fragment exists, is a text fragment, and
/// the offset does not run past its end.
pub open spec fn image_insertion_ok(content: Seq<ElemModel>, i: int, off: int) -> bool {
    &&& 0 <= i < content.len()
    &&& content[i] is Text
    &&& 0 <= off <= content[i]->Text_0.len()
}

/// The content after inserting image `img` at character offset `off` of text
/// fragment `i`: that one fragment is replaced by the text before the offset,
/// the image, and the text after the offset, in this order; every later
/// fragment keeps its relative order two places up.
pub open spec fn insert_image_spec(
    content: Seq<ElemModel>,
    i: int,
    off: int,
    img: Seq<char>,
) -> Seq<ElemModel>
    recommends
        image_insertion_ok(content, i, off),
{
    let t = content[i]->Text_0;
    content.subrange(0, i) + seq![
        ElemModel::Text(t.subrange(0, off)),
        ElemModel::Image(img),
        ElemModel::Text(t.subrange(off, t.len() as int)),
    ] + content.subrange(i + 1, content.len() as int)
}

/// The content after removing fragment `i`. If the fragments around the gap
/// (post-removal indices `i - 1` and `i`) are both text, they coalesce into
/// one text fragment, their strings concatenated without a separator.
pub open spec fn remove_fragment_spec(content: Seq<ElemModel>, i: int) -> Seq<ElemModel>
    recommends
        0 <= i < content.len(),
{
    let removed = content.remove(i);
    if 1 <= i < removed.len() && removed[i - 1] is Text && removed[i] is Text {
        removed.subrange(0, i - 1) + seq![
            ElemModel::Text(removed[i - 1]->Text_0 + removed[i]->Text_0),
        ] + removed.subrange(i + 1, removed.len() as int)
    } else {
        removed
    }
}

/// Splits the text fragment at `fragment_num` around a new image fragment:
/// `Text(before + after)` becomes `Text(before), Image(image_path),
/// Text(after)` with the split at character offset `index`. Fails with
/// `InvalidOperation`, leaving the note unchanged, when the fragment is out
/// of bounds, is an image (an image is never split), or the offset runs past
/// the end of the text.
pub fn insert_image_into_note(
    note: &mut Note,
    fragment_num: FragmentNum,
    index: usize,
    image_path: &String,
) -> (r: InternalResult<()>)
    ensures
        match r {
            Ok(_) => {
                &&& image_insertion_ok(old(note)@.content, fragment_num as int, index as int)
                &&& final(note)@.content == insert_image_spec(
                    old(note)@.content,
                    fragment_num as int,
                    index as int,
                    image_path@,
                )
                &&& final(note)@.date == old(note)@.date
            },
            Err(e) => {
                &&& !image_insertion_ok(old(note)@.content, fragment_num as int, index as int)
                &&& e.kind == ErrorKind::InvalidOperation
                &&& *final(note) == *old(note)
            },
        },
{
    let ghost c = note@.content;
    if fragment_num < 0 || fragment_num as u64 >= note.content.len() as u64 {
        return Err(InternalError::new(ErrorKind::InvalidOperation, "invalid note index"));
    }
    let i = fragment_num as usize;
    let text: String = match &note.content[i] {
        NoteElement::Text(t) => t.clone(),
        NoteElement::Image(_) => {
            return Err(
                InternalError::new(
                    ErrorKind::InvalidOperation,
                    "cannot insert image into middle of image fragment",
                ),
            );
        },
    };
    let text_len = text.as_str().unicode_len();
    if index > text_len {
        return Err(
            InternalError::new(ErrorKind::InvalidOperation, "char offset past end of fragment"),
        );
    }
    let before = text.as_str().substring_char(0, index).to_owned();
    let after = text.as_str().substring_char(index, text_len).to_owned();
    note.content.set(i, NoteElement::Text(before));
    note.content.insert(i + 1, NoteElement::Text(after));
    note.content.insert(i + 1, NoteElement::Image(image_path.clone()));
    proof {
        assert(note@.content =~~= insert_image_spec(c, i as int, index as int, image_path@));
    }
    Ok(())
}

/// Removes the fragment at `fragment_num`, coalescing the two text fragments
/// that the removal makes adjacent, if both are text. Fails with `OutOfRange`,
/// leaving the note unchanged, when `fragment_num` is out of bounds.
pub fn remove_fragment_from_note(note: &mut Note, fragment_num: FragmentNum) -> (r: InternalResult<
    (),
>)
    ensures
        match r {
            Ok(_) => {
                &&& 0 <= fragment_num < old(note)@.content.len()
                &&& final(note)@.content == remove_fragment_spec(
                    old(note)@.content,
                    fragment_num as int,
                )
                &&& final(note)@.date == old(note)@.date
            },
            Err(e) => {
                &&& !(0 <= fragment_num < old(note)@.content.len())
                &&& e.kind == ErrorKind::OutOfRange
                &&& *final(note) == *old(note)
            },
        },
{
    let ghost c = note@.content;
    if fragment_num < 0 || fragment_num as u64 >= note.content.len() as u64 {
        return Err(InternalError::new(ErrorKind::OutOfRange, "invalid fragment number"));
    }
    let i = fragment_num as usize;
    note.content.remove(i);
    let ghost removed = note@.content;
    if 1 <= i && i < note.content.len() {
        let merged: Option<String> = match (&note.content[i - 1], &note.content[i]) {
            (NoteElement::Text(prev_text), NoteElement::Text(next_text)) => {
                Some(prev_text.clone().concat(next_text.as_str()))
            },
            _ => None,
        };
        if let Some(new_text) = merged {
            note.content.set(i - 1, NoteElement::Text(new_text));
            note.content.remove(i);
        }
    }
    proof {
        assert(note@.content =~~= remove_fragment_spec(c, i as int));
    }
    Ok(())
}

/// Splices a newline into a text fragment's string at a character offset,
/// as the enter key does inside a fragment: the text before the caret, one
/// newline, the text after. A newline is fragment content, not a fragment
/// boundary. `None` when the offset runs past the end of the text.
pub fn insert_newline_into_text(text: &str, offset: usize) -> (r: Option<String>)
    ensures
        match r {
            Some(s) => offset <= text@.len() && s@ == text@.take(offset as int) + seq!['\n']
                + text@.skip(offset as int),
            None => offset > text@.len(),
        },
{
    let text_len = text.unicode_len();
    if offset > text_len {
        return None;
    }
    let mut out = text.substring_char(0, offset).to_owned();
    out.append("\n");
    out.append(text.substring_char(offset, text_len));
    proof {
        reveal_strlit("\n");
        assert("\n"@ =~= seq!['\n']);
        assert(out@ =~= text@.take(offset as int) + seq!['\n'] + text@.skip(offset as int));
    }
    Some(out)
}

/// Unconditional whole-document replacement: the note's content becomes
/// `new_content` (an empty sequence is legal and blanks the note); the date
/// is kept.
pub fn replace_content(note: &mut Note, new_content: Vec<NoteElement>)
    ensures
        final(note).content == new_content,
        final(note).date == old(note).date,
{
    note.content = new_content;
}

} // verus!
