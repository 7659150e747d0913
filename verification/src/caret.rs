//! The caret/selection bridge: resolving (note, fragment, offset) positions
//! against the document model, text-only sibling navigation, and
//! line-relative addressing inside a text fragment.

use vstd::prelude::*;

use crate::data::{CaretPosition, ElemModel, EnumeratedNotes, FragmentNum, Note, NoteElement, NoteID};
use crate::internal_error::{ErrorKind, InternalError, InternalResult};

verus! {

/// Index of the first entry of `notes` that carries `note_id`, or `-1` when
/// none does. Lookup by id always resolves to the first entry.
pub open spec fn first_note_index(notes: Seq<(i64, Note)>, note_id: i64) -> int
    decreases notes.len(),
{
    if notes.len() == 0 {
        -1
    } else if notes[0].0 == note_id {
        0
    } else {
        let rest = first_note_index(notes.drop_first(), note_id);
        if rest < 0 {
            -1
        } else {
            rest + 1
        }
    }
}

proof fn lemma_first_note_index_found(notes: Seq<(i64, Note)>, note_id: i64, i: int)
    requires
        0 <= i < notes.len(),
        notes[i].0 == note_id,
        forall|j: int| 0 <= j < i ==> (#[trigger] notes[j]).0 != note_id,
    ensures
        first_note_index(notes, note_id) == i,
    decreases i,
{
    if i > 0 {
        lemma_first_note_index_found(notes.drop_first(), note_id, i - 1);
    }
}

proof fn lemma_first_note_index_none(notes: Seq<(i64, Note)>, note_id: i64)
    requires
        forall|j: int| 0 <= j < notes.len() ==> (#[trigger] notes[j]).0 != note_id,
    ensures
        first_note_index(notes, note_id) == -1,
    decreases notes.len(),
{
    if notes.len() > 0 {
        lemma_first_note_index_none(notes.drop_first(), note_id);
    }
}

/// What a resolved lookup index means: in bounds, carrying the id, and first.
pub proof fn lemma_first_note_index_spec(notes: Seq<(i64, Note)>, note_id: i64)
    ensures
        first_note_index(notes, note_id) >= 0 ==> {
            let fi = first_note_index(notes, note_id);
            &&& 0 <= fi < notes.len()
            &&& notes[fi].0 == note_id
            &&& forall|j: int| 0 <= j < fi ==> (#[trigger] notes[j]).0 != note_id
        },
        first_note_index(notes, note_id) < 0 ==> forall|j: int|
            0 <= j < notes.len() ==> (#[trigger] notes[j]).0 != note_id,
    decreases notes.len(),
{
    if notes.len() > 0 && notes[0].0 != note_id {
        lemma_first_note_index_spec(notes.drop_first(), note_id);
        assert forall|j: int| 1 <= j < notes.len() implies #[trigger] notes[j]
            == notes.drop_first()[j - 1] by {}
    }
}

/// Finds the first note with the given id.
pub fn get_note_by_id<'a>(note_id: NoteID, notes: &'a EnumeratedNotes) -> (r: Option<&'a Note>)
    ensures
        match r {
            Some(note) => {
                let fi = first_note_index(notes@, note_id);
                &&& fi >= 0
                &&& *note == notes@[fi].1
            },
            None => first_note_index(notes@, note_id) < 0,
        },
{
    let n = notes.len();
    let mut i: usize = 0;
    while i < n
        invariant
            n == notes@.len(),
            i <= n,
            forall|j: int| 0 <= j < i ==> (#[trigger] notes@[j]).0 != note_id,
        decreases n - i,
    {
        if notes[i].0 == note_id {
            proof {
                lemma_first_note_index_found(notes@, note_id, i as int);
            }
            return Some(&notes[i].1);
        }
        i += 1;
    }
    proof {
        lemma_first_note_index_none(notes@, note_id);
    }
    None
}

/// Fetches the fragment addressed by `(note_id, fragment_num)`. Fails with
/// `NotFound` when no note carries the id or the fragment number is out of
/// the note's bounds.
pub fn get_fragment_from_id<'a>(
    note_id: NoteID,
    fragment_num: FragmentNum,
    notes: &'a EnumeratedNotes,
) -> (r: InternalResult<&'a NoteElement>)
    ensures
        ({
            let fi = first_note_index(notes@, note_id);
            match r {
                Ok(elem) => {
                    &&& fi >= 0
                    &&& 0 <= fragment_num < notes@[fi].1.content@.len()
                    &&& *elem == notes@[fi].1.content@[fragment_num as int]
                },
                Err(e) => {
                    &&& e.kind == ErrorKind::NotFound
                    &&& (fi < 0 || !(0 <= fragment_num < notes@[fi].1.content@.len()))
                },
            }
        }),
{
    let note = match get_note_by_id(note_id, notes) {
        Some(v) => v,
        None => {
            return Err(InternalError::new(ErrorKind::NotFound, "note does not exist"));
        },
    };
    if fragment_num < 0 || fragment_num as u64 >= note.content.len() as u64 {
        return Err(InternalError::new(ErrorKind::NotFound, "fragment num does not exist in note"));
    }
    Ok(&note.content[fragment_num as usize])
}

/// The text of the fragment addressed by `(note_id, fragment_num)`. Fails
/// with `NotFound` when the note or fragment is absent, and with
/// `InvalidOperation` when the fragment is an image.
pub fn get_text_fragment_content<'a>(
    note_id: NoteID,
    fragment_num: FragmentNum,
    notes: &'a EnumeratedNotes,
) -> (r: InternalResult<&'a str>)
    ensures
        ({
            let fi = first_note_index(notes@, note_id);
            match r {
                Ok(s) => {
                    &&& fi >= 0
                    &&& 0 <= fragment_num < notes@[fi].1@.content.len()
                    &&& notes@[fi].1@.content[fragment_num as int] is Text
                    &&& s@ == notes@[fi].1@.content[fragment_num as int]->Text_0
                },
                Err(e) => {
                    let absent = fi < 0 || !(0 <= fragment_num < notes@[fi].1@.content.len());
                    &&& (absent ==> e.kind == ErrorKind::NotFound)
                    &&& (!absent ==> notes@[fi].1@.content[fragment_num as int] is Image
                        && e.kind == ErrorKind::InvalidOperation)
                },
            }
        }),
{
    let fragment = get_fragment_from_id(note_id, fragment_num, notes)?;
    match fragment {
        NoteElement::Text(v) => Ok(v.as_str()),
        NoteElement::Image(_) => {
            Err(InternalError::new(ErrorKind::InvalidOperation, "expected text fragment, got image fragment"))
        },
    }
}

/// The fragment number one below `fragment_num`, provided it addresses a
/// fragment of the note and is itself positive (position zero has no
/// deletable predecessor).
pub fn get_last_fragment_num(
    note_id: NoteID,
    fragment_num: FragmentNum,
    notes: &EnumeratedNotes,
) -> (r: Option<FragmentNum>)
    ensures
        ({
            let fi = first_note_index(notes@, note_id);
            match r {
                Some(n) => {
                    &&& fi >= 0
                    &&& fragment_num > 1
                    &&& fragment_num - 1 < notes@[fi].1@.content.len()
                    &&& n == fragment_num - 1
                },
                None => fi < 0 || fragment_num <= 1 || fragment_num - 1
                    >= notes@[fi].1@.content.len(),
            }
        }),
{
    let note = match get_note_by_id(note_id, notes) {
        Some(v) => v,
        None => {
            return None;
        },
    };
    if fragment_num > 1 && ((fragment_num - 1) as u64) < note.content.len() as u64 {
        Some(fragment_num - 1)
    } else {
        None
    }
}

/// Fragment numbers are `i64`, so a note whose content is longer than
/// `i64::MAX` could not be addressed fragment by fragment.
pub open spec fn wf_notes(notes: Seq<(i64, Note)>) -> bool {
    forall|k: int| 0 <= k < notes.len() ==> (#[trigger] notes[k]).1.content@.len() <= i64::MAX
}

/// The text fragments of `content` in document order: for every position that
/// holds a text fragment, the pair of that position and the fragment's text.
/// Image fragments do not appear.
pub open spec fn text_fragments_of(content: Seq<ElemModel>) -> Seq<(int, Seq<char>)>
    decreases content.len(),
{
    if content.len() == 0 {
        Seq::empty()
    } else {
        let prefix = text_fragments_of(content.drop_last());
        if content.last() is Text {
            prefix.push((content.len() - 1, content.last()->Text_0))
        } else {
            prefix
        }
    }
}

/// Every entry of `text_fragments_of` points at a text fragment of `content`
/// and carries its text, and the positions are strictly increasing.
pub proof fn lemma_text_fragments_of_spec(content: Seq<ElemModel>)
    ensures
        ({
            let tf = text_fragments_of(content);
            &&& tf.len() <= content.len()
            &&& forall|k: int|
                0 <= k < tf.len() ==> {
                    &&& 0 <= (#[trigger] tf[k]).0 < content.len()
                    &&& content[tf[k].0] is Text
                    &&& tf[k].1 == content[tf[k].0]->Text_0
                }
            &&& forall|k1: int, k2: int|
                0 <= k1 < k2 < tf.len() ==> (#[trigger] tf[k1]).0 < (#[trigger] tf[k2]).0
        }),
    decreases content.len(),
{
    if content.len() > 0 {
        lemma_text_fragments_of_spec(content.drop_last());
        assert forall|i: int| 0 <= i < content.len() - 1 implies #[trigger] content.drop_last()[i]
            == content[i] by {}
    }
}

/// Finds the text fragments of the note with the given id, each with its
/// fragment number. Fails with `NotFound` when no note carries the id.
pub fn get_note_text_fragments(note_id: NoteID, notes: &EnumeratedNotes) -> (r: InternalResult<
    Vec<(FragmentNum, String)>,
>)
    requires
        wf_notes(notes@),
    ensures
        ({
            let fi = first_note_index(notes@, note_id);
            match r {
                Ok(v) => {
                    let tf = text_fragments_of(notes@[fi].1@.content);
                    &&& fi >= 0
                    &&& v@.len() == tf.len()
                    &&& forall|k: int|
                        0 <= k < tf.len() ==> (#[trigger] v@[k]).0 == tf[k].0 && v@[k].1@
                            == tf[k].1
                },
                Err(e) => fi < 0 && e.kind == ErrorKind::NotFound,
            }
        }),
{
    let note = match get_note_by_id(note_id, notes) {
        Some(v) => v,
        None => {
            return Err(InternalError::new(ErrorKind::NotFound, "could not get note by id"));
        },
    };
    let ghost c = note@.content;
    proof {
        lemma_first_note_index_spec(notes@, note_id);
    }
    let n = note.content.len();
    let mut out: Vec<(FragmentNum, String)> = Vec::new();
    let mut i: usize = 0;
    while i < n
        invariant
            n == c.len(),
            n <= i64::MAX,
            i <= n,
            c == note@.content,
            out@.len() == text_fragments_of(c.take(i as int)).len(),
            forall|k: int|
                0 <= k < out@.len() ==> (#[trigger] out@[k]).0 == text_fragments_of(
                    c.take(i as int),
                )[k].0 && out@[k].1@ == text_fragments_of(c.take(i as int))[k].1,
        decreases n - i,
    {
        proof {
            assert(c.take(i + 1).drop_last() =~= c.take(i as int));
            assert(c.take(i + 1).last() == c[i as int]);
        }
        match &note.content[i] {
            NoteElement::Text(v) => {
                out.push((i as FragmentNum, v.clone()));
            },
            NoteElement::Image(_) => {},
        }
        i += 1;
    }
    proof {
        assert(c.take(n as int) =~= c);
    }
    Ok(out)
}

/// Position, within a text-fragment listing, of the last entry that carries
/// fragment number `sibling`; `-1` when none does.
pub open spec fn last_text_fragment_pos(tf: Seq<(int, Seq<char>)>, sibling: int) -> int
    decreases tf.len(),
{
    if tf.len() == 0 {
        -1
    } else if tf.last().0 == sibling {
        tf.len() - 1
    } else {
        last_text_fragment_pos(tf.drop_last(), sibling)
    }
}

/// The fragment number that text-only sibling navigation yields: from the
/// text fragment numbered `sibling` of the note with id `note_id`, move
/// `offset` places within the note's text fragments alone (images are
/// skipped). `None` when the note or the sibling is absent or the walk runs
/// past either end.
pub open spec fn sibling_target(
    notes: Seq<(i64, Note)>,
    note_id: i64,
    sibling: int,
    offset: int,
) -> Option<int> {
    let fi = first_note_index(notes, note_id);
    if fi < 0 {
        None
    } else {
        let tf = text_fragments_of(notes[fi].1@.content);
        let j = last_text_fragment_pos(tf, sibling);
        if j < 0 {
            None
        } else if 0 <= j + offset < tf.len() {
            Some(tf[j + offset].0)
        } else {
            None
        }
    }
}

/// Walks `offset` places through the text fragments of a note, starting from
/// the text fragment numbered `sibling_fragment`. Fails with `NotFound` when
/// the note is absent or `sibling_fragment` is not one of its text
/// fragments, and with `OutOfRange` when the walk runs past either end.
pub fn get_text_fragment_offset_from_sibling(
    note_id: NoteID,
    sibling_fragment: FragmentNum,
    offset: i32,
    notes: &EnumeratedNotes,
) -> (r: InternalResult<FragmentNum>)
    requires
        wf_notes(notes@),
    ensures
        ({
            let fi = first_note_index(notes@, note_id);
            match r {
                Ok(num) => sibling_target(notes@, note_id, sibling_fragment as int, offset as int)
                    == Some(num as int),
                Err(e) => {
                    &&& sibling_target(notes@, note_id, sibling_fragment as int, offset as int)
                        is None
                    &&& (fi < 0 ==> e.kind == ErrorKind::NotFound)
                    &&& (fi >= 0 ==> {
                        let j = last_text_fragment_pos(
                            text_fragments_of(notes@[fi].1@.content),
                            sibling_fragment as int,
                        );
                        &&& (j < 0 ==> e.kind == ErrorKind::NotFound)
                        &&& (j >= 0 ==> e.kind == ErrorKind::OutOfRange)
                    })
                },
            }
        }),
{
    let text_fragments = get_note_text_fragments(note_id, notes)?;
    let ghost fi = first_note_index(notes@, note_id);
    let ghost tf = text_fragments_of(notes@[fi].1@.content);
    proof {
        lemma_first_note_index_spec(notes@, note_id);
        lemma_text_fragments_of_spec(notes@[fi].1@.content);
    }
    let n = text_fragments.len();
    let mut sibling_position: Option<usize> = None;
    let mut i: usize = 0;
    while i < n
        invariant
            n == text_fragments@.len(),
            n == tf.len(),
            i <= n,
            forall|k: int|
                0 <= k < tf.len() ==> (#[trigger] text_fragments@[k]).0 == tf[k].0
                    && text_fragments@[k].1@ == tf[k].1,
            match sibling_position {
                None => last_text_fragment_pos(tf.take(i as int), sibling_fragment as int) == -1,
                Some(p) => p < i && last_text_fragment_pos(tf.take(i as int), sibling_fragment as int)
                    == p,
            },
        decreases n - i,
    {
        proof {
            assert(tf.take(i + 1).drop_last() =~= tf.take(i as int));
            assert(tf.take(i + 1).last() == tf[i as int]);
        }
        if text_fragments[i].0 == sibling_fragment {
            sibling_position = Some(i);
        }
        i += 1;
    }
    proof {
        assert(tf.take(n as int) =~= tf);
    }

    match sibling_position {
        Some(p) => {
            proof {
                lemma_text_fragments_of_spec(notes@[fi].1@.content);
            }
            let target = match (p as i64).checked_add(offset as i64) {
                Some(t) => t,
                None => {
                    return Err(
                        InternalError::new(
                            ErrorKind::OutOfRange,
                            "offset fragment from sibling out of bounds",
                        ),
                    );
                },
            };
            if target < 0 || target as u64 >= text_fragments.len() as u64 {
                return Err(
                    InternalError::new(
                        ErrorKind::OutOfRange,
                        "offset fragment from sibling out of bounds",
                    ),
                );
            }
            Ok(text_fragments[target as usize].0)
        },
        None => {
            Err(InternalError::new(ErrorKind::NotFound, "sibling fragment not found"))
        },
    }
}

/// The next text fragment after `fragment_num`, in the text-only ordering.
pub fn get_next_text_fragment_num(
    note_id: NoteID,
    fragment_num: FragmentNum,
    notes: &EnumeratedNotes,
) -> (r: Option<FragmentNum>)
    requires
        wf_notes(notes@),
    ensures
        match r {
            Some(num) => sibling_target(notes@, note_id, fragment_num as int, 1) == Some(
                num as int,
            ),
            None => sibling_target(notes@, note_id, fragment_num as int, 1) is None,
        },
{
    match get_text_fragment_offset_from_sibling(note_id, fragment_num, 1, notes) {
        Ok(v) => Some(v),
        Err(_) => None,
    }
}

/// The text fragment just before `fragment_num`, in the text-only ordering.
pub fn get_previous_text_fragment_num(
    note_id: NoteID,
    fragment_num: FragmentNum,
    notes: &EnumeratedNotes,
) -> (r: Option<FragmentNum>)
    requires
        wf_notes(notes@),
    ensures
        match r {
            Some(num) => sibling_target(notes@, note_id, fragment_num as int, -1) == Some(
                num as int,
            ),
            None => sibling_target(notes@, note_id, fragment_num as int, -1) is None,
        },
{
    match get_text_fragment_offset_from_sibling(note_id, fragment_num, -1, notes) {
        Ok(v) => Some(v),
        Err(_) => None,
    }
}

/// The line that character position `idx` of `s` falls in: the number of
/// newline characters strictly before `idx`. A position sitting on a newline
/// counts as the end of the line that the newline closes.
pub open spec fn line_index_at(s: Seq<char>, idx: int) -> int
    decreases idx,
{
    if idx <= 0 {
        0
    } else {
        line_index_at(s, idx - 1) + if s[idx - 1] == '\n' {
            1int
        } else {
            0int
        }
    }
}

/// The offset of character position `idx` within its line: the distance back
/// to the nearest newline before `idx`, or to the start of the text.
pub open spec fn line_offset_at(s: Seq<char>, idx: int) -> int
    decreases idx,
{
    if idx <= 0 {
        0
    } else if s[idx - 1] == '\n' {
        0
    } else {
        line_offset_at(s, idx - 1) + 1
    }
}

/// Resolves a caret position into (offset within line, line index), counting
/// each line boundary as the one newline character that separates the lines.
/// Fails with `NotFound` when the note or fragment is absent, with
/// `InvalidOperation` when the fragment is an image, and with `OutOfRange`
/// when the character offset runs past the end of the text.
pub fn get_line_based_position(position: &CaretPosition, notes: &EnumeratedNotes) -> (r: InternalResult<
    (usize, usize),
>)
    ensures
        ({
            let fi = first_note_index(notes@, position.note_id);
            let in_note = fi >= 0 && 0 <= position.fragment_num < notes@[fi].1@.content.len();
            match r {
                Ok(res) => {
                    let text = notes@[fi].1@.content[position.fragment_num as int]->Text_0;
                    &&& in_note
                    &&& notes@[fi].1@.content[position.fragment_num as int] is Text
                    &&& position.index <= text.len()
                    &&& res.0 == line_offset_at(text, position.index as int)
                    &&& res.1 == line_index_at(text, position.index as int)
                },
                Err(e) => {
                    &&& (!in_note ==> e.kind == ErrorKind::NotFound)
                    &&& (in_note ==> {
                        let elem = notes@[fi].1@.content[position.fragment_num as int];
                        &&& (elem is Image ==> e.kind == ErrorKind::InvalidOperation)
                        &&& (elem is Text ==> position.index > elem->Text_0.len() && e.kind
                            == ErrorKind::OutOfRange)
                    })
                },
            }
        }),
{
    let text = get_text_fragment_content(position.note_id, position.fragment_num, notes)?;
    let idx = position.index as usize;
    let text_len = text.unicode_len();
    if idx > text_len {
        return Err(InternalError::new(ErrorKind::OutOfRange, "no line at position given"));
    }
    let mut line: usize = 0;
    let mut off: usize = 0;
    let mut i: usize = 0;
    while i < idx
        invariant
            idx <= text@.len(),
            i <= idx,
            line <= i,
            off <= i,
            line == line_index_at(text@, i as int),
            off == line_offset_at(text@, i as int),
        decreases idx - i,
    {
        let ch = text.get_char(i);
        if ch == '\n' {
            line = line + 1;
            off = 0;
        } else {
            off = off + 1;
        }
        i += 1;
    }
    Ok((off, line))
}

/// What the backspace key at a caret position asks the document model to
/// delete: nothing while the caret sits inside its fragment, and the
/// fragment just before the caret's one when the caret sits at the
/// fragment's first character (and that predecessor exists and is not the
/// note's first fragment).
pub fn backspace_fragment_target(position: &CaretPosition, notes: &EnumeratedNotes) -> (r: Option<
    FragmentNum,
>)
    ensures
        ({
            let fi = first_note_index(notes@, position.note_id);
            match r {
                Some(n) => {
                    &&& position.index == 0
                    &&& fi >= 0
                    &&& position.fragment_num > 1
                    &&& position.fragment_num - 1 < notes@[fi].1@.content.len()
                    &&& n == position.fragment_num - 1
                },
                None => position.index != 0 || fi < 0 || position.fragment_num <= 1
                    || position.fragment_num - 1 >= notes@[fi].1@.content.len(),
            }
        }),
{
    if position.index != 0 {
        return None;
    }
    get_last_fragment_num(position.note_id, position.fragment_num, notes)
}

/// A decimal digit.
pub open spec fn is_digit(c: char) -> bool {
    '0' <= c && c <= '9'
}

/// The numeric value of a digit character.
pub open spec fn digit_val(c: char) -> int {
    c as int - '0' as int
}

/// The value of a run of decimal digits, most significant first.
pub open spec fn decimal_value(s: Seq<char>) -> int
    decreases s.len(),
{
    if s.len() == 0 {
        0
    } else {
        decimal_value(s.drop_last()) * 10 + digit_val(s.last())
    }
}

/// What a piece of element metadata parses to as an integer: an optional
/// sign followed by at least one digit, read in base ten; anything else
/// does not parse.
pub open spec fn parses_as_int(s: Seq<char>) -> Option<int> {
    if s.len() > 0 && (s[0] == '-' || s[0] == '+') {
        let digits = s.drop_first();
        if digits.len() > 0 && (forall|k: int| 0 <= k < digits.len() ==> is_digit(#[trigger] digits[k])) {
            if s[0] == '-' {
                Some(-decimal_value(digits))
            } else {
                Some(decimal_value(digits))
            }
        } else {
            None
        }
    } else if s.len() > 0 && (forall|k: int| 0 <= k < s.len() ==> is_digit(#[trigger] s[k])) {
        Some(decimal_value(s))
    } else {
        None
    }
}

proof fn lemma_decimal_value_nonneg(s: Seq<char>)
    requires
        forall|k: int| 0 <= k < s.len() ==> is_digit(#[trigger] s[k]),
    ensures
        decimal_value(s) >= 0,
    decreases s.len(),
{
    if s.len() > 0 {
        lemma_decimal_value_nonneg(s.drop_last());
        assert(forall|k: int| 0 <= k < s.len() - 1 ==> #[trigger] s.drop_last()[k] == s[k]);
    }
}

proof fn lemma_decimal_value_monotone(s: Seq<char>, i: int)
    requires
        0 <= i <= s.len(),
        forall|k: int| 0 <= k < s.len() ==> is_digit(#[trigger] s[k]),
    ensures
        decimal_value(s.take(i)) <= decimal_value(s),
    decreases s.len() - i,
{
    if i < s.len() {
        lemma_decimal_value_monotone(s, i + 1);
        assert(s.take(i + 1).drop_last() =~= s.take(i));
        assert(s.take(i + 1).last() == s[i]);
        assert(forall|k: int| 0 <= k < i ==> #[trigger] s.take(i)[k] == s[k]);
        lemma_decimal_value_nonneg(s.take(i));
    } else {
        assert(s.take(i) =~= s);
    }
}

/// Parses element metadata as a base-ten integer, as the caret bridge reads
/// note ids and fragment numbers off the editing surface. `None` when the
/// text is not an optionally signed run of digits, or the value does not
/// fit an `i64`.
pub fn parse_dataset_int(s: &str) -> (r: Option<i64>)
    ensures
        match r {
            Some(v) => parses_as_int(s@) == Some(v as int),
            None => match parses_as_int(s@) {
                Some(v) => v < i64::MIN || v > i64::MAX,
                None => true,
            },
        },
{
    let n = s.unicode_len();
    if n == 0 {
        return None;
    }
    let first = s.get_char(0);
    let negative = first == '-';
    let signed = negative || first == '+';
    let start: usize = if signed {
        1
    } else {
        0
    };
    if start == n {
        return None;
    }
    let ghost digits = if signed {
        s@.drop_first()
    } else {
        s@
    };
    proof {
        assert(digits =~= s@.subrange(start as int, n as int));
    }
    let mut acc: i64 = 0;
    let mut i: usize = start;
    while i < n
        invariant
            start <= i <= n,
            n == s@.len(),
            n > 0,
            signed == (s@[0] == '-' || s@[0] == '+'),
            negative == (s@[0] == '-'),
            start == if signed { 1int } else { 0int },
            digits == s@.subrange(start as int, n as int),
            forall|k: int| 0 <= k < i - start ==> is_digit(#[trigger] digits[k]),
            !negative ==> acc == decimal_value(digits.take(i - start)) && acc >= 0,
            negative ==> acc == -decimal_value(digits.take(i - start)) && acc <= 0,
        decreases n - i,
    {
        let c = s.get_char(i);
        if c < '0' || c > '9' {
            proof {
                assert(digits[i - start] == s@[i as int]);
                assert(!is_digit(digits[i - start]));
            }
            return None;
        }
        let d = (c as u32 - '0' as u32) as i64;
        proof {
            assert(digits.take(i + 1 - start).drop_last() =~= digits.take(i - start));
            assert(digits.take(i + 1 - start).last() == digits[i - start]);
            assert(digits[i - start] == s@[i as int]);
            assert(d == digit_val(digits[i - start]));
        }
        let ghost full = if negative {
            -decimal_value(digits)
        } else {
            decimal_value(digits)
        };
        let stepped = if negative {
            match acc.checked_mul(10) {
                Some(m) => m.checked_sub(d),
                None => None,
            }
        } else {
            match acc.checked_mul(10) {
                Some(m) => m.checked_add(d),
                None => None,
            }
        };
        acc = match stepped {
            Some(v) => v,
            None => {
                proof {
                    assert(decimal_value(digits.take(i + 1 - start)) == decimal_value(
                        digits.take(i - start),
                    ) * 10 + d);
                    if !negative {
                        assert(decimal_value(digits.take(i + 1 - start)) > i64::MAX);
                    } else {
                        assert(-decimal_value(digits.take(i + 1 - start)) < i64::MIN);
                    }
                    lemma_out_of_range(digits, i + 1 - start, negative);
                    if signed {
                        assert(s@.drop_first() =~= digits);
                    } else {
                        assert(digits =~= s@);
                    }
                }
                return None;
            },
        };
        i += 1;
    }
    proof {
        assert(digits.take(n - start) =~= digits);
    }
    Some(acc)
}

proof fn lemma_out_of_range(digits: Seq<char>, j: int, negative: bool)
    requires
        0 < j <= digits.len(),
        forall|k: int| 0 <= k < j ==> is_digit(#[trigger] digits[k]),
        !negative ==> decimal_value(digits.take(j)) > i64::MAX,
        negative ==> -decimal_value(digits.take(j)) < i64::MIN,
    ensures
        (forall|k: int| 0 <= k < digits.len() ==> is_digit(#[trigger] digits[k])) ==> {
            &&& !negative ==> decimal_value(digits) > i64::MAX
            &&& negative ==> -decimal_value(digits) < i64::MIN
        },
{
    if forall|k: int| 0 <= k < digits.len() ==> is_digit(#[trigger] digits[k]) {
        lemma_decimal_value_monotone(digits, j);
    }
}

} // verus!
