//! The row reconstruction engine: rebuilding ordered notes from flat
//! per-fragment storage rows, and the inverse flattening of a note into such
//! rows. Reconstruction sorts each note's rows by their fragment number (a
//! stable sort; the number is the authoritative order key), so
//! reconstructing what flattening produced gives the note's content back
//! exactly.

use vstd::prelude::*;

use crate::data::{
    ElemModel, EnumeratedNotes, FragmentNum, FragmentTag, Note, NoteElement, NoteFragment, NoteID,
};

verus! {

/// The `(payload, fragment number)` pairs of the rows of `rows` that belong
/// to note `id`, in row order.
pub open spec fn rows_of(id: i64, rows: Seq<(i64, ElemModel, i64)>) -> Seq<(ElemModel, i64)>
    decreases rows.len(),
{
    if rows.len() == 0 {
        Seq::empty()
    } else {
        let prefix = rows_of(id, rows.drop_last());
        if rows.last().0 == id {
            prefix.push((rows.last().1, rows.last().2))
        } else {
            prefix
        }
    }
}

/// Inserts `x` into `s` directly after the last entry whose fragment number
/// is at most `x`'s: the insertion step of a stable sort by fragment number.
pub open spec fn insert_by_num(s: Seq<(ElemModel, i64)>, x: (ElemModel, i64)) -> Seq<
    (ElemModel, i64),
>
    decreases s.len(),
{
    if s.len() == 0 {
        seq![x]
    } else if s.last().1 <= x.1 {
        s.push(x)
    } else {
        insert_by_num(s.drop_last(), x).push(s.last())
    }
}

/// Stable sort by fragment number: rows with equal numbers keep their
/// relative order.
pub open spec fn sort_by_num(s: Seq<(ElemModel, i64)>) -> Seq<(ElemModel, i64)>
    decreases s.len(),
{
    if s.len() == 0 {
        Seq::empty()
    } else {
        insert_by_num(sort_by_num(s.drop_last()), s.last())
    }
}

/// The per-note bucket that reconstruction sorts: the note's text rows in
/// row order, then its image rows in row order.
pub open spec fn bucket_of(
    id: i64,
    text_rows: Seq<(i64, ElemModel, i64)>,
    image_rows: Seq<(i64, ElemModel, i64)>,
) -> Seq<(ElemModel, i64)> {
    rows_of(id, text_rows) + rows_of(id, image_rows)
}

/// The reconstructed content of note `id`: its bucket sorted by fragment
/// number, with the numbers projected away.
pub open spec fn note_content_of(
    id: i64,
    text_rows: Seq<(i64, ElemModel, i64)>,
    image_rows: Seq<(i64, ElemModel, i64)>,
) -> Seq<ElemModel> {
    sort_by_num(bucket_of(id, text_rows, image_rows)).map_values(|p: (ElemModel, i64)| p.0)
}

/// The date of note `id` as the header rows give it: the last header row
/// with that id wins; a note without a header row gets the empty date.
pub open spec fn date_of(id: i64, date_rows: Seq<(i64, Seq<char>)>) -> Seq<char>
    decreases date_rows.len(),
{
    if date_rows.len() == 0 {
        Seq::empty()
    } else if date_rows.last().0 == id {
        date_rows.last().1
    } else {
        date_of(id, date_rows.drop_last())
    }
}

/// Whether any row of any of the three inputs mentions note `id`.
pub open spec fn id_present(
    id: i64,
    text_rows: Seq<(i64, ElemModel, i64)>,
    image_rows: Seq<(i64, ElemModel, i64)>,
    date_rows: Seq<(i64, Seq<char>)>,
) -> bool {
    ||| exists|k: int| 0 <= k < text_rows.len() && (#[trigger] text_rows[k]).0 == id
    ||| exists|k: int| 0 <= k < image_rows.len() && (#[trigger] image_rows[k]).0 == id
    ||| exists|k: int| 0 <= k < date_rows.len() && (#[trigger] date_rows[k]).0 == id
}

/// The text rows that flattening note `id` produces: one row per text
/// fragment, numbered by its position in the content.
pub open spec fn text_rows_spec(id: i64, content: Seq<ElemModel>) -> Seq<(i64, ElemModel, i64)>
    decreases content.len(),
{
    if content.len() == 0 {
        Seq::empty()
    } else {
        let prefix = text_rows_spec(id, content.drop_last());
        if content.last() is Text {
            prefix.push((id, content.last(), (content.len() - 1) as i64))
        } else {
            prefix
        }
    }
}

/// The image rows that flattening note `id` produces.
pub open spec fn image_rows_spec(id: i64, content: Seq<ElemModel>) -> Seq<(i64, ElemModel, i64)>
    decreases content.len(),
{
    if content.len() == 0 {
        Seq::empty()
    } else {
        let prefix = image_rows_spec(id, content.drop_last());
        if content.last() is Image {
            prefix.push((id, content.last(), (content.len() - 1) as i64))
        } else {
            prefix
        }
    }
}

/// Builds the in-memory fragment for one storage row: the row's payload
/// string, tagged as text or image.
pub fn get_fragment_from_row(
    note_id: NoteID,
    content: String,
    fragment_num: FragmentNum,
    tag: FragmentTag,
) -> (r: NoteFragment)
    ensures
        r.0 == note_id,
        r.2 == fragment_num,
        tag == FragmentTag::Text ==> r.1 == NoteElement::Text(content),
        tag == FragmentTag::Image ==> r.1 == NoteElement::Image(content),
{
    match tag {
        FragmentTag::Text => (note_id, NoteElement::Text(content), fragment_num),
        FragmentTag::Image => (note_id, NoteElement::Image(content), fragment_num),
    }
}

/// Flattens a note into its text rows and image rows, numbering every
/// fragment with its position. The exact inverse of reconstruction: sorting
/// these rows back by number yields `note.content` again.
pub fn flatten_note(note_id: NoteID, note: &Note) -> (r: (Vec<NoteFragment>, Vec<NoteFragment>))
    requires
        note.content@.len() <= i64::MAX,
    ensures
        r.0.deep_view() == text_rows_spec(note_id, note@.content),
        r.1.deep_view() == image_rows_spec(note_id, note@.content),
{
    let ghost c = note@.content;
    let n = note.content.len();
    let mut text_rows: Vec<NoteFragment> = Vec::new();
    let mut image_rows: Vec<NoteFragment> = Vec::new();
    let mut i: usize = 0;
    while i < n
        invariant
            n == c.len(),
            n <= i64::MAX,
            i <= n,
            c == note@.content,
            text_rows.deep_view() == text_rows_spec(note_id, c.take(i as int)),
            image_rows.deep_view() == image_rows_spec(note_id, c.take(i as int)),
        decreases n - i,
    {
        proof {
            assert(c.take(i + 1).drop_last() =~= c.take(i as int));
            assert(c.take(i + 1).last() == c[i as int]);
        }
        match &note.content[i] {
            NoteElement::Text(_) => {
                text_rows.push((note_id, note.content[i].clone(), i as i64));
            },
            NoteElement::Image(_) => {
                image_rows.push((note_id, note.content[i].clone(), i as i64));
            },
        }
        proof {
            assert(text_rows.deep_view() =~= text_rows_spec(note_id, c.take(i + 1)));
            assert(image_rows.deep_view() =~= image_rows_spec(note_id, c.take(i + 1)));
        }
        i += 1;
    }
    proof {
        assert(c.take(n as int) =~= c);
    }
    (text_rows, image_rows)
}

/// Strictly ascending note ids: sorted, with no duplicates.
pub open spec fn ids_sorted(s: Seq<i64>) -> bool {
    forall|k1: int, k2: int| 0 <= k1 < k2 < s.len() ==> s[k1] < s[k2]
}

proof fn lemma_insert_by_num_at(s: Seq<(ElemModel, i64)>, x: (ElemModel, i64), p: int)
    requires
        0 <= p <= s.len(),
        forall|j: int| p <= j < s.len() ==> (#[trigger] s[j]).1 > x.1,
        p > 0 ==> s[p - 1].1 <= x.1,
    ensures
        insert_by_num(s, x) == s.subrange(0, p) + seq![x] + s.subrange(p, s.len() as int),
    decreases s.len(),
{
    if s.len() == 0 {
        assert(insert_by_num(s, x) =~= s.subrange(0, p) + seq![x] + s.subrange(p, 0));
    } else if p == s.len() {
        assert(insert_by_num(s, x) =~= s.subrange(0, p) + seq![x] + s.subrange(p, s.len() as int));
    } else {
        assert(s[s.len() - 1].1 > x.1);
        lemma_insert_by_num_at(s.drop_last(), x, p);
        assert(insert_by_num(s.drop_last(), x).push(s.last()) =~= s.subrange(0, p) + seq![x]
            + s.subrange(p, s.len() as int));
    }
}

/// Inserts one row into a bucket that is already sorted by fragment number,
/// directly after the rows whose number is at most the new row's.
fn insert_row_by_num(bucket: &mut Vec<(NoteElement, FragmentNum)>, x: (NoteElement, FragmentNum))
    ensures
        final(bucket).deep_view() == insert_by_num(old(bucket).deep_view(), x.deep_view()),
{
    let ghost s = bucket.deep_view();
    let mut p = bucket.len();
    while p > 0 && bucket[p - 1].1 > x.1
        invariant
            p <= bucket@.len(),
            s == bucket.deep_view(),
            forall|j: int| p <= j < s.len() ==> (#[trigger] s[j]).1 > x.1,
        decreases p,
    {
        p -= 1;
    }
    proof {
        lemma_insert_by_num_at(s, x.deep_view(), p as int);
    }
    bucket.insert(p, x);
    proof {
        assert(bucket.deep_view() =~= s.subrange(0, p as int) + seq![x.deep_view()] + s.subrange(
            p as int,
            s.len() as int,
        ));
    }
}

/// Inserts `id` into a strictly ascending id list, keeping it strictly
/// ascending; an id already present is left alone.
fn insert_id_sorted(ids: &mut Vec<NoteID>, id: NoteID)
    requires
        ids_sorted(old(ids)@),
    ensures
        ids_sorted(final(ids)@),
        forall|x: i64| final(ids)@.contains(x) <==> old(ids)@.contains(x) || x == id,
{
    let ghost s = ids@;
    let mut p = ids.len();
    while p > 0 && ids[p - 1] > id
        invariant
            p <= ids@.len(),
            s == ids@,
            forall|j: int| p <= j < s.len() ==> s[j] > id,
        decreases p,
    {
        p -= 1;
    }
    if p > 0 && ids[p - 1] == id {
        proof {
            assert(s.contains(id)) by {
                assert(s[p - 1] == id);
            }
        }
        return ;
    }
    ids.insert(p, id);
    proof {
        s.insert_ensures(p as int, id);
        assert forall|x: i64| ids@.contains(x) implies s.contains(x) || x == id by {
            let k = choose|k: int| 0 <= k < ids@.len() && ids@[k] == x;
            if k < p {
                assert(s[k] == x);
            } else if k > p {
                assert(s[k - 1] == x);
            }
        }
        assert forall|x: i64| s.contains(x) || x == id implies ids@.contains(x) by {
            if s.contains(x) {
                let k = choose|k: int| 0 <= k < s.len() && s[k] == x;
                if k < p {
                    assert(ids@[k] == x);
                } else {
                    assert(ids@[k + 1] == x);
                }
            } else {
                assert(ids@[p as int] == x);
            }
        }
        assert forall|k1: int, k2: int| 0 <= k1 < k2 < ids@.len() implies ids@[k1] < ids@[k2] by {
            if p > 0 {
                assert(s[p - 1] < id);
            }
            if k2 < p {
                assert(s[k1] < s[k2]);
            } else if k1 > p {
                assert(s[k1 - 1] < s[k2 - 1]);
            } else if k1 < p && k2 == p {
                assert(s[k1] <= s[p - 1]);
            } else if k1 == p {
                assert(s[k2 - 1] > id);
            } else if k1 < p && k2 > p {
                assert(s[k1] < s[k2 - 1] || k1 == k2 - 1);
            }
        }
    }
}

/// Rebuilds the notes that a flat row dump describes. Every note id that any
/// row mentions appears exactly once, in ascending id order. Each note's
/// content is its rows sorted by fragment number (a stable sort: the text
/// rows in row order, then the image rows in row order, reordered only as
/// the numbers demand); its date comes from the last header row with its id,
/// or is empty when no header row has it.
pub fn construct_notes(
    text_rows: &Vec<NoteFragment>,
    image_rows: &Vec<NoteFragment>,
    date_rows: &Vec<(NoteID, String)>,
) -> (r: EnumeratedNotes)
    ensures
        forall|k1: int, k2: int|
            0 <= k1 < k2 < r@.len() ==> (#[trigger] r@[k1]).0 < (#[trigger] r@[k2]).0,
        forall|id: i64|
            #[trigger] id_present(id, text_rows.deep_view(), image_rows.deep_view(), date_rows.deep_view())
                <==> exists|k: int| 0 <= k < r@.len() && (#[trigger] r@[k]).0 == id,
        forall|k: int|
            0 <= k < r@.len() ==> {
                &&& (#[trigger] r@[k]).1@.content == note_content_of(
                    r@[k].0,
                    text_rows.deep_view(),
                    image_rows.deep_view(),
                )
                &&& r@[k].1@.date == date_of(r@[k].0, date_rows.deep_view())
            },
{
    let ghost tdv = text_rows.deep_view();
    let ghost idv = image_rows.deep_view();
    let ghost ddv = date_rows.deep_view();

    let mut ids: Vec<NoteID> = Vec::new();
    let tn = text_rows.len();
    let mut i: usize = 0;
    while i < tn
        invariant
            tn == tdv.len(),
            i <= tn,
            tdv == text_rows.deep_view(),
            ids_sorted(ids@),
            forall|x: i64|
                ids@.contains(x) <==> exists|k: int|
                    0 <= k < i && (#[trigger] tdv[k]).0 == x,
        decreases tn - i,
    {
        proof {
            assert(tdv[i as int].0 == text_rows@[i as int].0);
        }
        insert_id_sorted(&mut ids, text_rows[i].0);
        i += 1;
    }
    let inn = image_rows.len();
    i = 0;
    while i < inn
        invariant
            inn == idv.len(),
            i <= inn,
            tdv == text_rows.deep_view(),
            idv == image_rows.deep_view(),
            ids_sorted(ids@),
            forall|x: i64|
                ids@.contains(x) <==> (exists|k: int|
                    0 <= k < tdv.len() && (#[trigger] tdv[k]).0 == x) || (exists|k: int|
                    0 <= k < i && (#[trigger] idv[k]).0 == x),
        decreases inn - i,
    {
        proof {
            assert(idv[i as int].0 == image_rows@[i as int].0);
        }
        insert_id_sorted(&mut ids, image_rows[i].0);
        i += 1;
    }
    let dn = date_rows.len();
    i = 0;
    while i < dn
        invariant
            dn == ddv.len(),
            i <= dn,
            tdv == text_rows.deep_view(),
            idv == image_rows.deep_view(),
            ddv == date_rows.deep_view(),
            ids_sorted(ids@),
            forall|x: i64|
                ids@.contains(x) <==> (exists|k: int|
                    0 <= k < tdv.len() && (#[trigger] tdv[k]).0 == x) || (exists|k: int|
                    0 <= k < idv.len() && (#[trigger] idv[k]).0 == x) || (exists|k: int|
                    0 <= k < i && (#[trigger] ddv[k]).0 == x),
        decreases dn - i,
    {
        proof {
            assert(ddv[i as int].0 == date_rows@[i as int].0);
        }
        insert_id_sorted(&mut ids, date_rows[i].0);
        i += 1;
    }
    proof {
        assert(forall|x: i64| ids@.contains(x) <==> id_present(x, tdv, idv, ddv));
    }

    let mut result: EnumeratedNotes = Vec::new();
    let idn = ids.len();
    let mut k: usize = 0;
    while k < idn
        invariant
            idn == ids@.len(),
            k <= idn,
            tn == tdv.len(),
            inn == idv.len(),
            dn == ddv.len(),
            tdv == text_rows.deep_view(),
            idv == image_rows.deep_view(),
            ddv == date_rows.deep_view(),
            ids_sorted(ids@),
            forall|x: i64| ids@.contains(x) <==> id_present(x, tdv, idv, ddv),
            result@.len() == k,
            forall|j: int| 0 <= j < k ==> (#[trigger] result@[j]).0 == ids@[j],
            forall|j: int|
                0 <= j < k ==> (#[trigger] result@[j]).1@.content == note_content_of(
                    ids@[j],
                    tdv,
                    idv,
                ) && result@[j].1@.date == date_of(ids@[j], ddv),
        decreases idn - k,
    {
        let id = ids[k];

        let mut bucket: Vec<(NoteElement, FragmentNum)> = Vec::new();
        let mut i2: usize = 0;
        while i2 < tn
            invariant
                tn == tdv.len(),
                i2 <= tn,
                tdv == text_rows.deep_view(),
                bucket.deep_view() == rows_of(id, tdv.take(i2 as int)),
            decreases tn - i2,
        {
            proof {
                assert(tdv.take(i2 + 1).drop_last() =~= tdv.take(i2 as int));
                assert(tdv.take(i2 + 1).last() == tdv[i2 as int]);
            }
            proof {
                assert(tdv[i2 as int] == (
                    text_rows@[i2 as int].0,
                    text_rows@[i2 as int].1.deep_view(),
                    text_rows@[i2 as int].2,
                ));
            }
            if text_rows[i2].0 == id {
                bucket.push((text_rows[i2].1.clone(), text_rows[i2].2));
            }
            proof {
                assert(bucket.deep_view() =~= rows_of(id, tdv.take(i2 + 1)));
            }
            i2 += 1;
        }
        proof {
            assert(tdv.take(tn as int) =~= tdv);
        }
        i2 = 0;
        while i2 < inn
            invariant
                inn == idv.len(),
                i2 <= inn,
                tdv == text_rows.deep_view(),
                idv == image_rows.deep_view(),
                bucket.deep_view() == rows_of(id, tdv) + rows_of(id, idv.take(i2 as int)),
            decreases inn - i2,
        {
            proof {
                assert(idv.take(i2 + 1).drop_last() =~= idv.take(i2 as int));
                assert(idv.take(i2 + 1).last() == idv[i2 as int]);
            }
            proof {
                assert(idv[i2 as int] == (
                    image_rows@[i2 as int].0,
                    image_rows@[i2 as int].1.deep_view(),
                    image_rows@[i2 as int].2,
                ));
            }
            if image_rows[i2].0 == id {
                bucket.push((image_rows[i2].1.clone(), image_rows[i2].2));
                proof {
                    let x = (idv[i2 as int].1, idv[i2 as int].2);
                    assert(rows_of(id, idv.take(i2 + 1)) == rows_of(id, idv.take(i2 as int)).push(
                        x,
                    ));
                    assert(bucket.deep_view() =~= (rows_of(id, tdv) + rows_of(
                        id,
                        idv.take(i2 as int),
                    )).push(x));
                    assert((rows_of(id, tdv) + rows_of(id, idv.take(i2 as int))).push(x) =~= rows_of(
                        id,
                        tdv,
                    ) + rows_of(id, idv.take(i2 + 1)));
                }
            } else {
                proof {
                    assert(rows_of(id, idv.take(i2 + 1)) == rows_of(id, idv.take(i2 as int)));
                }
            }
            i2 += 1;
        }
        proof {
            assert(idv.take(inn as int) =~= idv);
            assert(bucket.deep_view() == bucket_of(id, tdv, idv));
        }

        let ghost bdv = bucket.deep_view();
        let mut sorted: Vec<(NoteElement, FragmentNum)> = Vec::new();
        let bn = bucket.len();
        i2 = 0;
        while i2 < bn
            invariant
                bn == bdv.len(),
                i2 <= bn,
                bdv == bucket.deep_view(),
                sorted.deep_view() == sort_by_num(bdv.take(i2 as int)),
            decreases bn - i2,
        {
            proof {
                assert(bdv.take(i2 + 1).drop_last() =~= bdv.take(i2 as int));
                assert(bdv.take(i2 + 1).last() == bdv[i2 as int]);
            }
            insert_row_by_num(&mut sorted, (bucket[i2].0.clone(), bucket[i2].1));
            i2 += 1;
        }
        proof {
            assert(bdv.take(bn as int) =~= bdv);
        }

        let mut content: Vec<NoteElement> = Vec::new();
        let sn = sorted.len();
        i2 = 0;
        while i2 < sn
            invariant
                sn == sorted@.len(),
                i2 <= sn,
                sorted.deep_view() == sort_by_num(bdv),
                content@.len() == i2,
                forall|m: int| 0 <= m < i2 ==> #[trigger] content@[m] == sorted@[m].0,
            decreases sn - i2,
        {
            content.push(sorted[i2].0.clone());
            i2 += 1;
        }

        let mut date: String = String::new();
        i2 = 0;
        while i2 < dn
            invariant
                dn == ddv.len(),
                i2 <= dn,
                ddv == date_rows.deep_view(),
                date@ == date_of(id, ddv.take(i2 as int)),
            decreases dn - i2,
        {
            proof {
                assert(ddv.take(i2 + 1).drop_last() =~= ddv.take(i2 as int));
                assert(ddv.take(i2 + 1).last() == ddv[i2 as int]);
            }
            if date_rows[i2].0 == id {
                date = date_rows[i2].1.clone();
            }
            i2 += 1;
        }
        proof {
            assert(ddv.take(dn as int) =~= ddv);
        }

        let note = Note { content, date };
        proof {
            assert(note@.content =~= note_content_of(id, tdv, idv));
        }
        result.push((id, note));
        k += 1;
    }
    proof {
        assert forall|id: i64| id_present(id, tdv, idv, ddv) implies exists|k2: int|
            0 <= k2 < result@.len() && (#[trigger] result@[k2]).0 == id by {
            assert(ids@.contains(id));
            let k2 = choose|k2: int| 0 <= k2 < ids@.len() && ids@[k2] == id;
            assert(result@[k2].0 == id);
        }
        assert forall|id: i64|
            (exists|k2: int| 0 <= k2 < result@.len() && (#[trigger] result@[k2]).0 == id) implies
            id_present(id, tdv, idv, ddv) by {
            let k2 = choose|k2: int| 0 <= k2 < result@.len() && result@[k2].0 == id;
            assert(ids@[k2] == id);
            assert(ids@.contains(id));
        }
    }
    result
}

/// Sorted by fragment number, duplicates allowed.
pub open spec fn sorted_by_num(s: Seq<(ElemModel, i64)>) -> bool {
    forall|k1: int, k2: int| 0 <= k1 < k2 < s.len() ==> (#[trigger] s[k1]).1 <= (#[trigger] s[k2]).1
}

/// Strictly sorted by fragment number: no two rows share a number.
pub open spec fn strictly_sorted_by_num(s: Seq<(ElemModel, i64)>) -> bool {
    forall|k1: int, k2: int| 0 <= k1 < k2 < s.len() ==> (#[trigger] s[k1]).1 < (#[trigger] s[k2]).1
}

/// Every fragment of `content` paired with its own position: what a
/// faithful reconstruction must order the rows back into.
pub open spec fn content_pairs(content: Seq<ElemModel>) -> Seq<(ElemModel, i64)> {
    Seq::new(content.len(), |j: int| (content[j], j as i64))
}

/// The text rows of a flattened note, restricted to that note's id, are its
/// text fragments paired with their positions.
proof fn lemma_rows_of_text_rows(id: i64, content: Seq<ElemModel>)
    ensures
        rows_of(id, text_rows_spec(id, content)) == text_pairs(content),
    decreases content.len(),
{
    if content.len() > 0 {
        lemma_rows_of_text_rows(id, content.drop_last());
        if content.last() is Text {
            let x = (id, content.last(), (content.len() - 1) as i64);
            assert(text_rows_spec(id, content.drop_last()).push(x).drop_last() =~= text_rows_spec(
                id,
                content.drop_last(),
            ));
        }
    }
}

/// The image rows of a flattened note, restricted to that note's id, are its
/// image fragments paired with their positions.
proof fn lemma_rows_of_image_rows(id: i64, content: Seq<ElemModel>)
    ensures
        rows_of(id, image_rows_spec(id, content)) == image_pairs(content),
    decreases content.len(),
{
    if content.len() > 0 {
        lemma_rows_of_image_rows(id, content.drop_last());
        if content.last() is Image {
            let x = (id, content.last(), (content.len() - 1) as i64);
            assert(image_rows_spec(id, content.drop_last()).push(x).drop_last() =~= image_rows_spec(
                id,
                content.drop_last(),
            ));
        }
    }
}

/// The text fragments of `content`, each paired with its position.
pub open spec fn text_pairs(content: Seq<ElemModel>) -> Seq<(ElemModel, i64)>
    decreases content.len(),
{
    if content.len() == 0 {
        Seq::empty()
    } else {
        let prefix = text_pairs(content.drop_last());
        if content.last() is Text {
            prefix.push((content.last(), (content.len() - 1) as i64))
        } else {
            prefix
        }
    }
}

/// The image fragments of `content`, each paired with its position.
pub open spec fn image_pairs(content: Seq<ElemModel>) -> Seq<(ElemModel, i64)>
    decreases content.len(),
{
    if content.len() == 0 {
        Seq::empty()
    } else {
        let prefix = image_pairs(content.drop_last());
        if content.last() is Image {
            prefix.push((content.last(), (content.len() - 1) as i64))
        } else {
            prefix
        }
    }
}

/// Splitting the fragments into text pairs and image pairs loses nothing:
/// together they hold exactly the position-tagged fragments.
proof fn lemma_pairs_multiset(content: Seq<ElemModel>)
    ensures
        (text_pairs(content) + image_pairs(content)).to_multiset() == content_pairs(
            content,
        ).to_multiset(),
    decreases content.len(),
{
    broadcast use vstd::seq_lib::group_to_multiset_ensures;
    broadcast use vstd::seq_lib::lemma_multiset_commutative;

    if content.len() == 0 {
        assert((text_pairs(content) + image_pairs(content)) =~= Seq::<(ElemModel, i64)>::empty());
        assert(content_pairs(content) =~= Seq::<(ElemModel, i64)>::empty());
    } else {
        let c2 = content.drop_last();
        lemma_pairs_multiset(c2);
        let x = (content.last(), (content.len() - 1) as i64);
        assert(content_pairs(content) =~= content_pairs(c2).push(x));
        let t = text_pairs(content);
        let i = image_pairs(content);
        let t2 = text_pairs(c2);
        let i2 = image_pairs(c2);
        if content.last() is Text {
            assert(t == t2.push(x) && i == i2);
            assert((t2.push(x) + i2).to_multiset() =~= (t2 + i2).to_multiset().insert(x));
        } else {
            assert(t == t2 && i == i2.push(x));
            assert((t2 + i2.push(x)).to_multiset() =~= (t2 + i2).to_multiset().insert(x));
        }
        assert(content_pairs(c2).push(x).to_multiset() =~= content_pairs(c2).to_multiset().insert(
            x,
        ));
    }
}

/// Stable insertion keeps the rows: one more copy of `x`, nothing else
/// changed.
proof fn lemma_insert_by_num_multiset(s: Seq<(ElemModel, i64)>, x: (ElemModel, i64))
    ensures
        insert_by_num(s, x).to_multiset() == s.to_multiset().insert(x),
    decreases s.len(),
{
    broadcast use vstd::seq_lib::group_to_multiset_ensures;

    if s.len() == 0 {
        assert(seq![x] =~= Seq::<(ElemModel, i64)>::empty().push(x));
    } else if s.last().1 <= x.1 {
    } else {
        lemma_insert_by_num_multiset(s.drop_last(), x);
        assert(s.drop_last().push(s.last()) =~= s);
        assert(s.drop_last().to_multiset().insert(x).insert(s.last()) =~= s.drop_last()
            .to_multiset().insert(s.last()).insert(x));
    }
}

/// Sorting keeps the rows: the sorted bucket is a permutation of the bucket.
proof fn lemma_sort_by_num_multiset(s: Seq<(ElemModel, i64)>)
    ensures
        sort_by_num(s).to_multiset() == s.to_multiset(),
    decreases s.len(),
{
    broadcast use vstd::seq_lib::group_to_multiset_ensures;

    if s.len() > 0 {
        lemma_sort_by_num_multiset(s.drop_last());
        lemma_insert_by_num_multiset(sort_by_num(s.drop_last()), s.last());
        assert(s.drop_last().push(s.last()) =~= s);
    }
}

/// Stable insertion into a sorted bucket leaves it sorted.
proof fn lemma_insert_by_num_sorted(s: Seq<(ElemModel, i64)>, x: (ElemModel, i64))
    requires
        sorted_by_num(s),
    ensures
        sorted_by_num(insert_by_num(s, x)),
    decreases s.len(),
{
    broadcast use vstd::seq_lib::group_to_multiset_ensures;

    if s.len() == 0 {
    } else if s.last().1 <= x.1 {
        assert forall|k1: int, k2: int|
            0 <= k1 < k2 < s.push(x).len() implies (#[trigger] s.push(x)[k1]).1 <= (#[trigger] s
            .push(x)[k2]).1 by {
            if k2 < s.len() {
                assert(s[k1].1 <= s[k2].1);
            } else if k1 < s.len() {
                assert(s[k1].1 <= s.last().1);
            }
        }
    } else {
        let s2 = s.drop_last();
        assert(sorted_by_num(s2)) by {
            assert(forall|k1: int, k2: int|
                0 <= k1 < k2 < s2.len() ==> (#[trigger] s2[k1]).1 == s[k1].1 && (#[trigger] s2[k2]).1
                    == s[k2].1);
        }
        lemma_insert_by_num_sorted(s2, x);
        lemma_insert_by_num_multiset(s2, x);
        let u = insert_by_num(s2, x);
        assert forall|j: int| 0 <= j < u.len() implies (#[trigger] u[j]).1 <= s.last().1 by {
            assert(u.contains(u[j]));
            assert(u.to_multiset().count(u[j]) > 0);
            assert(s2.to_multiset().insert(x).count(u[j]) > 0);
            if u[j] == x {
            } else {
                assert(s2.to_multiset().count(u[j]) > 0);
                assert(s2.contains(u[j]));
                let m = choose|m: int| 0 <= m < s2.len() && s2[m] == u[j];
                assert(s[m].1 <= s.last().1);
            }
        }
        assert forall|k1: int, k2: int|
            0 <= k1 < k2 < u.push(s.last()).len() implies (#[trigger] u.push(s.last())[k1]).1
            <= (#[trigger] u.push(s.last())[k2]).1 by {
            if k2 < u.len() {
                assert(u[k1].1 <= u[k2].1);
            } else {
                assert(u[k1].1 <= s.last().1);
            }
        }
    }
}

/// The sorted bucket is sorted by fragment number.
proof fn lemma_sort_by_num_sorted(s: Seq<(ElemModel, i64)>)
    ensures
        sorted_by_num(sort_by_num(s)),
    decreases s.len(),
{
    if s.len() > 0 {
        lemma_sort_by_num_sorted(s.drop_last());
        lemma_insert_by_num_sorted(sort_by_num(s.drop_last()), s.last());
    }
}

/// A sorted row sequence and a strictly sorted one that hold the same rows
/// are the same sequence: with no two rows sharing a number there is only
/// one sorted order.
proof fn lemma_sorted_multiset_unique(u: Seq<(ElemModel, i64)>, v: Seq<(ElemModel, i64)>)
    requires
        sorted_by_num(u),
        strictly_sorted_by_num(v),
        u.to_multiset() == v.to_multiset(),
    ensures
        u == v,
    decreases v.len(),
{
    broadcast use vstd::seq_lib::group_to_multiset_ensures;

    assert(u.to_multiset().len() == u.len());
    assert(v.to_multiset().len() == v.len());
    assert(u.len() == v.len());
    if v.len() == 0 {
        assert(u =~= v);
    } else {
        assert(v.contains(v.last()));
        assert(u.to_multiset().count(v.last()) > 0);
        assert(u.contains(v.last()));
        let k = choose|k: int| 0 <= k < u.len() && u[k] == v.last();
        assert(u.contains(u.last()));
        assert(v.to_multiset().count(u.last()) > 0);
        assert(v.contains(u.last()));
        let m = choose|m: int| 0 <= m < v.len() && v[m] == u.last();
        assert(v.last().1 <= u.last().1) by {
            if k < u.len() - 1 {
                assert(u[k].1 <= u[u.len() - 1].1);
            }
        }
        assert(u.last().1 <= v.last().1) by {
            if m < v.len() - 1 {
                assert(v[m].1 < v[v.len() - 1].1);
            }
        }
        assert(m == v.len() - 1) by {
            if m < v.len() - 1 {
                assert(v[m].1 < v[v.len() - 1].1);
            }
        }
        assert(u.last() == v.last());

        let u2 = u.drop_last();
        let v2 = v.drop_last();
        assert(u2 =~= u.remove(u.len() - 1));
        assert(v2 =~= v.remove(v.len() - 1));
        assert(u2.to_multiset() == u.to_multiset().remove(u.last()));
        assert(v2.to_multiset() == v.to_multiset().remove(v.last()));
        assert(sorted_by_num(u2)) by {
            assert(forall|k1: int, k2: int|
                0 <= k1 < k2 < u2.len() ==> (#[trigger] u2[k1]).1 == u[k1].1 && (#[trigger] u2[k2]).1
                    == u[k2].1);
        }
        assert(strictly_sorted_by_num(v2)) by {
            assert(forall|k1: int, k2: int|
                0 <= k1 < k2 < v2.len() ==> (#[trigger] v2[k1]).1 == v[k1].1 && (#[trigger] v2[k2]).1
                    == v[k2].1);
        }
        lemma_sorted_multiset_unique(u2, v2);
        assert forall|j: int| 0 <= j < u.len() implies u[j] == v[j] by {
            if j < u.len() - 1 {
                assert(u[j] == u2[j]);
                assert(v[j] == v2[j]);
            }
        }
        assert(u =~= v);
    }
}

/// Round trip: reconstructing the rows that flattening a note produced
/// yields the note's content back exactly, order preserved. The fragment
/// numbers written by `flatten_note` are the positions, so the stable sort
/// of reconstruction puts every fragment back where it stood.
pub proof fn lemma_reconstruct_flatten_roundtrip(id: i64, content: Seq<ElemModel>)
    requires
        content.len() <= i64::MAX,
    ensures
        note_content_of(id, text_rows_spec(id, content), image_rows_spec(id, content)) == content,
{
    let bucket = bucket_of(id, text_rows_spec(id, content), image_rows_spec(id, content));
    lemma_rows_of_text_rows(id, content);
    lemma_rows_of_image_rows(id, content);
    assert(bucket == text_pairs(content) + image_pairs(content));
    lemma_pairs_multiset(content);
    lemma_sort_by_num_multiset(bucket);
    lemma_sort_by_num_sorted(bucket);
    assert(strictly_sorted_by_num(content_pairs(content)));
    lemma_sorted_multiset_unique(sort_by_num(bucket), content_pairs(content));
    assert(sort_by_num(bucket).map_values(|p: (ElemModel, i64)| p.0) =~= content);
}

} // verus!
