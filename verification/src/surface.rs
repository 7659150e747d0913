//! Serializing the editing surface back into the document model: a flush
//! reads the surface's children in order and rebuilds the note's fragment
//! sequence from what they show.

use vstd::prelude::*;

use crate::data::{ElemModel, Note, NoteElement};

verus! {

/// What one child of a note's editing surface shows: an image with its full
/// source URL, a text block with its visible text, or something else
/// (ignored by serialization).
#[derive(Debug, Clone)]
pub enum SurfaceNode {
    Image(String),
    Text(String),
    Other,
}

/// Model of a surface child.
#[verifier::ext_equal]
pub enum SurfaceModel {
    Image(Seq<char>),
    Text(Seq<char>),
    Other,
}

impl DeepView for SurfaceNode {
    type V = SurfaceModel;

    open spec fn deep_view(&self) -> SurfaceModel {
        match self {
            SurfaceNode::Image(s) => SurfaceModel::Image(s@),
            SurfaceNode::Text(s) => SurfaceModel::Text(s@),
            SurfaceNode::Other => SurfaceModel::Other,
        }
    }
}

impl View for SurfaceNode {
    type V = SurfaceModel;

    open spec fn view(&self) -> SurfaceModel {
        self.deep_view()
    }
}

/// The image name carried by a source URL: everything after the first
/// `prefix` characters, or the whole URL when it is shorter than the prefix.
pub open spec fn image_name_of(src: Seq<char>, prefix: int) -> Seq<char> {
    if 0 <= prefix <= src.len() {
        src.subrange(prefix, src.len() as int)
    } else {
        src
    }
}

/// The fragment sequence that a surface serializes to: text children become
/// text fragments with their visible text, image children become image
/// fragments with the source URL cut down to the image name, and any other
/// child is skipped.
pub open spec fn surface_content(nodes: Seq<SurfaceModel>, prefix: int) -> Seq<ElemModel>
    decreases nodes.len(),
{
    if nodes.len() == 0 {
        Seq::empty()
    } else {
        let rest = surface_content(nodes.drop_last(), prefix);
        match nodes.last() {
            SurfaceModel::Text(t) => rest.push(ElemModel::Text(t)),
            SurfaceModel::Image(src) => rest.push(ElemModel::Image(image_name_of(src, prefix))),
            SurfaceModel::Other => rest,
        }
    }
}

/// Rebuilds a note's content from the surface's children, in child order.
/// `image_prefix_chars` is how many leading characters of an image's source
/// URL stand for the serving prefix rather than the image's name.
pub fn construct_note_from_fragment_divs(nodes: &Vec<SurfaceNode>, image_prefix_chars: usize) -> (r:
    Vec<NoteElement>)
    ensures
        r.deep_view() == surface_content(nodes.deep_view(), image_prefix_chars as int),
{
    let ghost nv = nodes.deep_view();
    let n = nodes.len();
    let mut content: Vec<NoteElement> = Vec::new();
    let mut i: usize = 0;
    while i < n
        invariant
            n == nv.len(),
            i <= n,
            nv == nodes.deep_view(),
            content.deep_view() == surface_content(nv.take(i as int), image_prefix_chars as int),
        decreases n - i,
    {
        proof {
            assert(nv.take(i + 1).drop_last() =~= nv.take(i as int));
            assert(nv.take(i + 1).last() == nv[i as int]);
        }
        match &nodes[i] {
            SurfaceNode::Text(t) => {
                content.push(NoteElement::Text(t.clone()));
            },
            SurfaceNode::Image(src) => {
                let src_len = src.as_str().unicode_len();
                let name = if image_prefix_chars <= src_len {
                    src.as_str().substring_char(image_prefix_chars, src_len).to_owned()
                } else {
                    src.clone()
                };
                content.push(NoteElement::Image(name));
            },
            SurfaceNode::Other => {},
        }
        proof {
            assert(content.deep_view() =~= surface_content(
                nv.take(i + 1),
                image_prefix_chars as int,
            ));
        }
        i += 1;
    }
    proof {
        assert(nv.take(n as int) =~= nv);
    }
    content
}

/// The keyboard events that the note editor handles itself; any other key
/// keeps its default behaviour.
#[derive(Clone, Copy, Debug, PartialEq, Eq, Structural)]
pub enum NoteKeyEvent {
    Backspace,
    ArrowUp,
    ArrowDown,
    Enter,
}

fn str_eq_chars(a: &str, b: &str) -> (r: bool)
    ensures
        r == (a@ == b@),
{
    let n = a.unicode_len();
    let m = b.unicode_len();
    if n != m {
        return false;
    }
    let mut i: usize = 0;
    while i < n
        invariant
            i <= n,
            n == a@.len(),
            n == b@.len(),
            forall|j: int| 0 <= j < i ==> a@[j] == b@[j],
        decreases n - i,
    {
        if a.get_char(i) != b.get_char(i) {
            return false;
        }
        i += 1;
    }
    proof {
        assert(a@ =~= b@);
    }
    true
}

/// Maps a key name from the editing surface to the note editor's own
/// keyboard events; every other key answers `None`.
pub fn handle_keyboard_event(key: &str) -> (r: Option<NoteKeyEvent>)
    ensures
        match r {
            Some(NoteKeyEvent::Backspace) => key@ == "Backspace"@,
            Some(NoteKeyEvent::ArrowUp) => key@ == "ArrowUp"@,
            Some(NoteKeyEvent::ArrowDown) => key@ == "ArrowDown"@,
            Some(NoteKeyEvent::Enter) => key@ == "Enter"@,
            None => key@ != "Backspace"@ && key@ != "ArrowUp"@ && key@ != "ArrowDown"@ && key@
                != "Enter"@,
        },
{
    if str_eq_chars(key, "Backspace") {
        Some(NoteKeyEvent::Backspace)
    } else if str_eq_chars(key, "ArrowUp") {
        Some(NoteKeyEvent::ArrowUp)
    } else if str_eq_chars(key, "ArrowDown") {
        Some(NoteKeyEvent::ArrowDown)
    } else if str_eq_chars(key, "Enter") {
        Some(NoteKeyEvent::Enter)
    } else {
        None
    }
}

/// Relies on chrono's `Utc::now` and `DateTime::to_rfc2822` for the current
/// wall-clock time as an RFC 2822 string. Nothing is promised of the
/// result: it depends on the clock.
#[verifier::external_body]
fn now_rfc2822() -> String {
    chrono::offset::Utc::now().to_rfc2822()
}

/// A fresh note as creation makes it: one default text fragment, dated now.
pub fn new_note() -> (r: Note)
    ensures
        r@.content.len() == 1,
        r@.content[0] == ElemModel::Text("New note..."@),
{
    let mut content: Vec<NoteElement> = Vec::new();
    content.push(NoteElement::Text("New note...".to_owned()));
    Note { content, date: now_rfc2822() }
}

/// Serializes the editing surface into a whole note for a flush: the
/// surface's fragments in order, stamped with the current time.
pub fn note_from_surface(nodes: &Vec<SurfaceNode>, image_prefix_chars: usize) -> (r: Note)
    ensures
        r@.content == surface_content(nodes.deep_view(), image_prefix_chars as int),
{
    let content = construct_note_from_fragment_divs(nodes, image_prefix_chars);
    let r = Note { content, date: now_rfc2822() };
    proof {
        assert(r@.content =~= surface_content(nodes.deep_view(), image_prefix_chars as int));
    }
    r
}

} // verus!
