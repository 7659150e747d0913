//! The fragment document model: notes as ordered sequences of text and image
//! fragments, and the flat row shapes they are stored as.

use vstd::prelude::*;

verus! {

/// Stable integer identity of a note, assigned at creation and never reused.
pub type NoteID = i64;

/// Position of a fragment within a note's ordered content; also its
/// addressing key for one render.
pub type FragmentNum = i64;

/// One atomic unit of note content: a text run or an image reference.
#[derive(Debug, PartialEq, Eq)]
pub enum NoteElement {
    Text(String),
    Image(String),
}

impl Clone for NoteElement {
    fn clone(&self) -> (r: NoteElement)
        ensures
            r == *self,
    {
        match self {
            NoteElement::Text(s) => NoteElement::Text(s.clone()),
            NoteElement::Image(p) => NoteElement::Image(p.clone()),
        }
    }
}

/// The kind of a fragment row, without its payload.
#[derive(Clone, Copy, Debug, PartialEq, Eq, Structural)]
pub enum FragmentTag {
    Text,
    Image,
}

/// A note: ordered fragments plus a timestamp string.
#[derive(Debug, PartialEq, Eq)]
pub struct Note {
    pub content: Vec<NoteElement>,
    pub date: String,
}

impl Clone for Note {
    fn clone(&self) -> (r: Note)
        ensures
            r.content@ == self.content@,
            r.date == self.date,
            r@ == self@,
    {
        let content = self.content.clone();
        proof {
            assert(content@ =~= self.content@);
        }
        let r = Note { content, date: self.date.clone() };
        proof {
            assert(r@ =~~= self@);
        }
        r
    }
}

/// One flat storage row: which note, which payload, and the fragment number
/// that fixes its position when the note is rebuilt.
pub type NoteFragment = (NoteID, NoteElement, FragmentNum);

/// All notes of a session, keyed by id.
pub type EnumeratedNotes = Vec<(NoteID, Note)>;

/// Mathematical model of a fragment: the payload as a character sequence.
#[verifier::ext_equal]
pub enum ElemModel {
    Text(Seq<char>),
    Image(Seq<char>),
}

/// Mathematical model of a note.
#[verifier::ext_equal]
pub struct NoteModel {
    pub content: Seq<ElemModel>,
    pub date: Seq<char>,
}

impl DeepView for NoteElement {
    type V = ElemModel;

    open spec fn deep_view(&self) -> ElemModel {
        match self {
            NoteElement::Text(s) => ElemModel::Text(s@),
            NoteElement::Image(p) => ElemModel::Image(p@),
        }
    }
}

impl View for NoteElement {
    type V = ElemModel;

    open spec fn view(&self) -> ElemModel {
        self.deep_view()
    }
}

impl DeepView for Note {
    type V = NoteModel;

    open spec fn deep_view(&self) -> NoteModel {
        NoteModel { content: self.content.deep_view(), date: self.date@ }
    }
}

impl View for Note {
    type V = NoteModel;

    open spec fn view(&self) -> NoteModel {
        self.deep_view()
    }
}

impl NoteElement {
    /// The tag of this fragment, with the payload dropped.
    pub fn tag(&self) -> (t: FragmentTag)
        ensures
            t == FragmentTag::Text <==> self@ is Text,
            t == FragmentTag::Image <==> self@ is Image,
    {
        match self {
            NoteElement::Text(_) => FragmentTag::Text,
            NoteElement::Image(_) => FragmentTag::Image,
        }
    }
}

/// A caret location inside the document model: which note, which fragment,
/// and the character offset within that fragment. Ephemeral, recomputed from
/// the editing surface on demand.
#[derive(Clone, Copy, Debug, PartialEq, Eq, Structural)]
pub struct CaretPosition {
    pub note_id: NoteID,
    pub fragment_num: FragmentNum,
    pub index: u32,
}

/// Response of note creation: the id the store assigned.
#[derive(Clone, Copy, Debug, PartialEq, Eq, Structural)]
pub struct AddNoteResult {
    pub note_id: NoteID,
}

/// Request to replace a note wholesale.
#[derive(Clone, Debug)]
pub struct SetNoteRequest {
    pub note_id: i64,
    pub note: Note,
}

/// Request to delete a whole note.
#[derive(Clone, Copy, Debug, PartialEq, Eq, Structural)]
pub struct DeleteNoteRequest {
    pub note_id: i64,
}

/// The names of the stored images.
#[derive(Clone, Debug)]
pub struct ImageListResponse {
    pub images: Vec<String>,
}

/// Request to split a text fragment around a new image.
#[derive(Clone, Debug)]
pub struct InsertImageRequest {
    pub note_id: NoteID,
    pub fragment_num: FragmentNum,
    pub index: usize,
    pub image_name: String,
}

/// Request to remove one fragment of a note.
#[derive(Clone, Copy, Debug, PartialEq, Eq, Structural)]
pub struct DeleteFragmentRequest {
    pub note_id: NoteID,
    pub fragment_num: FragmentNum,
}

} // verus!
