//! The edit debounce scheduler: one idle counter per edited note. An edit
//! resets the note's counter; every scheduler tick advances all counters
//! that have not yet reached the threshold, and the notes whose counter
//! reaches it on this tick are queued for a flush. A counter resting at the
//! threshold queues nothing further until the next edit resets it.

use vstd::prelude::*;

use crate::data::NoteID;

verus! {

/// Idle ticks after which a note's accumulated edits are flushed.
pub const TICKS_BEFORE_FLUSH: u32 = 4;

/// The per-note idle counter.
#[derive(Clone, Copy, Debug, PartialEq, Eq, Structural)]
pub struct NoteTimer {
    pub ticks_since_last_edit: u32,
}

/// The scheduler's state: one timer per note that was edited this session.
/// Timers are created on a note's first edit and never removed.
pub struct NoteTimers {
    pub timers: Vec<(NoteID, NoteTimer)>,
}

/// No note has two timers, and no counter has run past the threshold.
pub open spec fn wf_timers(s: Seq<(i64, NoteTimer)>) -> bool {
    &&& forall|k1: int, k2: int|
        0 <= k1 < k2 < s.len() ==> (#[trigger] s[k1]).0 != (#[trigger] s[k2]).0
    &&& forall|k: int|
        0 <= k < s.len() ==> (#[trigger] s[k]).1.ticks_since_last_edit <= TICKS_BEFORE_FLUSH
}

/// The counter of note `id`, if the note is tracked.
pub open spec fn ticks_of(s: Seq<(i64, NoteTimer)>, id: i64) -> Option<u32>
    decreases s.len(),
{
    if s.len() == 0 {
        None
    } else if s[0].0 == id {
        Some(s[0].1.ticks_since_last_edit)
    } else {
        ticks_of(s.drop_first(), id)
    }
}

/// What one tick does to one counter: advance it, unless it already rests at
/// the threshold.
pub open spec fn advance_ticks(t: u32) -> u32 {
    if t >= TICKS_BEFORE_FLUSH {
        t
    } else {
        (t + 1) as u32
    }
}

/// All timers after one tick, each advanced.
pub open spec fn advance_all(s: Seq<(i64, NoteTimer)>) -> Seq<(i64, NoteTimer)> {
    Seq::new(
        s.len(),
        |k: int| (s[k].0, NoteTimer { ticks_since_last_edit: advance_ticks(s[k].1.ticks_since_last_edit) }),
    )
}

/// The notes whose counter reaches the threshold on this tick: those resting
/// one below it, in timer order.
pub open spec fn due_ids(s: Seq<(i64, NoteTimer)>) -> Seq<i64>
    decreases s.len(),
{
    if s.len() == 0 {
        Seq::empty()
    } else {
        let prefix = due_ids(s.drop_last());
        if s.last().1.ticks_since_last_edit + 1 == TICKS_BEFORE_FLUSH {
            prefix.push(s.last().0)
        } else {
            prefix
        }
    }
}

impl NoteTimers {
    /// A scheduler tracking nothing: no note has been edited yet.
    pub fn new() -> (r: NoteTimers)
        ensures
            r.timers@ =~= Seq::<(i64, NoteTimer)>::empty(),
            wf_timers(r.timers@),
    {
        NoteTimers { timers: Vec::new() }
    }

    /// Records an edit to a note: its counter returns to zero, or is created
    /// at zero on the note's first edit. No other timer moves.
    pub fn reset_note_flush_timer(&mut self, note_id: NoteID)
        requires
            wf_timers(old(self).timers@),
        ensures
            wf_timers(final(self).timers@),
            ticks_of(final(self).timers@, note_id) == Some(0u32),
            forall|id: i64|
                id != note_id ==> #[trigger] ticks_of(final(self).timers@, id) == ticks_of(
                    old(self).timers@,
                    id,
                ),
    {
        let ghost s = self.timers@;
        let n = self.timers.len();
        let mut i: usize = 0;
        while i < n
            invariant
                n == s.len(),
                i <= n,
                s == self.timers@,
                s == old(self).timers@,
                wf_timers(s),
                forall|j: int| 0 <= j < i ==> (#[trigger] s[j]).0 != note_id,
            decreases n - i,
        {
            if self.timers[i].0 == note_id {
                self.timers.set(i, (note_id, NoteTimer { ticks_since_last_edit: 0 }));
                proof {
                    lemma_ticks_of_update(s, i as int, note_id, 0);
                    assert(self.timers@ == s.update(
                        i as int,
                        (note_id, NoteTimer { ticks_since_last_edit: 0 }),
                    ));
                    assert forall|x: i64| x != note_id implies #[trigger] ticks_of(
                        self.timers@,
                        x,
                    ) == ticks_of(s, x) by {}
                    assert(forall|k: int|
                        0 <= k < self.timers@.len() ==> (#[trigger] self.timers@[k]).0 == s[k].0);
                    assert(forall|k: int|
                        0 <= k < self.timers@.len() && k != i ==> (#[trigger] self.timers@[k]).1
                            == s[k].1);
                }
                return ;
            }
            i += 1;
        }
        self.timers.push((note_id, NoteTimer { ticks_since_last_edit: 0 }));
        proof {
            lemma_ticks_of_push_fresh(s, note_id, 0);
            assert(forall|k: int|
                0 <= k < s.len() ==> #[trigger] self.timers@[k] == s[k]);
            assert(self.timers@[s.len() as int].0 == note_id);
        }
    }

    /// One scheduler tick: every counter short of the threshold advances,
    /// and the notes whose counter reaches it right now are returned, in
    /// timer order, to be flushed. Counters already resting at the threshold
    /// stay put and are not returned again.
    pub fn tick_note_timers(&mut self) -> (r: Vec<NoteID>)
        requires
            wf_timers(old(self).timers@),
        ensures
            wf_timers(final(self).timers@),
            final(self).timers@ == advance_all(old(self).timers@),
            r@ == due_ids(old(self).timers@),
    {
        let ghost s = self.timers@;
        let n = self.timers.len();
        let mut need_flush: Vec<NoteID> = Vec::new();
        let mut i: usize = 0;
        while i < n
            invariant
                n == s.len(),
                i <= n,
                self.timers@.len() == n,
                wf_timers(s),
                forall|j: int| i <= j < n ==> #[trigger] self.timers@[j] == s[j],
                forall|j: int| 0 <= j < i ==> #[trigger] self.timers@[j] == advance_all(s)[j],
                need_flush@ == due_ids(s.take(i as int)),
            decreases n - i,
        {
            proof {
                assert(s.take(i + 1).drop_last() =~= s.take(i as int));
                assert(s.take(i + 1).last() == s[i as int]);
            }
            let (id, timer) = self.timers[i];
            if timer.ticks_since_last_edit != TICKS_BEFORE_FLUSH {
                let bumped = timer.ticks_since_last_edit + 1;
                self.timers.set(i, (id, NoteTimer { ticks_since_last_edit: bumped }));
                if bumped == TICKS_BEFORE_FLUSH {
                    need_flush.push(id);
                }
            }
            proof {
                assert(need_flush@ =~= due_ids(s.take(i + 1)));
            }
            i += 1;
        }
        proof {
            assert(s.take(n as int) =~= s);
            assert(self.timers@ =~= advance_all(s));
        }
        need_flush
    }

    /// The counter of a note, as the scheduler sees it right now.
    pub fn get_ticks(&self, note_id: NoteID) -> (r: Option<u32>)
        ensures
            r == ticks_of(self.timers@, note_id),
    {
        let n = self.timers.len();
        proof {
            assert(self.timers@.skip(0) =~= self.timers@);
        }
        let mut i: usize = 0;
        while i < n
            invariant
                n == self.timers@.len(),
                i <= n,
                ticks_of(self.timers@, note_id) == ticks_of(
                    self.timers@.skip(i as int),
                    note_id,
                ),
            decreases n - i,
        {
            proof {
                assert(self.timers@.skip(i as int).drop_first() =~= self.timers@.skip(i + 1));
                assert(self.timers@.skip(i as int)[0] == self.timers@[i as int]);
            }
            if self.timers[i].0 == note_id {
                return Some(self.timers[i].1.ticks_since_last_edit);
            }
            i += 1;
        }
        proof {
            assert(self.timers@.skip(n as int) =~= Seq::<(i64, NoteTimer)>::empty());
        }
        None
    }
}

proof fn lemma_ticks_of_update(s: Seq<(i64, NoteTimer)>, i: int, id: i64, t: u32)
    requires
        0 <= i < s.len(),
        s[i].0 == id,
        forall|j: int| 0 <= j < i ==> (#[trigger] s[j]).0 != id,
        forall|k1: int, k2: int|
            0 <= k1 < k2 < s.len() ==> (#[trigger] s[k1]).0 != (#[trigger] s[k2]).0,
    ensures
        ticks_of(s.update(i, (id, NoteTimer { ticks_since_last_edit: t })), id) == Some(t),
        forall|x: i64|
            x != id ==> #[trigger] ticks_of(
                s.update(i, (id, NoteTimer { ticks_since_last_edit: t })),
                x,
            ) == ticks_of(s, x),
    decreases s.len(),
{
    let s2 = s.update(i, (id, NoteTimer { ticks_since_last_edit: t }));
    if i == 0 {
        assert forall|x: i64| x != id implies #[trigger] ticks_of(s2, x) == ticks_of(s, x) by {
            assert(s2.drop_first() =~= s.drop_first());
        }
    } else {
        lemma_ticks_of_update(s.drop_first(), i - 1, id, t);
        assert(s2.drop_first() =~= s.drop_first().update(
            i - 1,
            (id, NoteTimer { ticks_since_last_edit: t }),
        ));
        assert(s2[0] == s[0]);
        assert(ticks_of(s2, id) == Some(t));
        assert forall|x: i64| x != id implies #[trigger] ticks_of(s2, x) == ticks_of(s, x) by {
            assert(ticks_of(s2.drop_first(), x) == ticks_of(s.drop_first(), x));
            if s[0].0 == x {
                assert(ticks_of(s2, x) == Some(s2[0].1.ticks_since_last_edit));
                assert(ticks_of(s, x) == Some(s[0].1.ticks_since_last_edit));
            } else {
                assert(ticks_of(s2, x) == ticks_of(s2.drop_first(), x));
                assert(ticks_of(s, x) == ticks_of(s.drop_first(), x));
            }
        }
    }
}

proof fn lemma_ticks_of_push_fresh(s: Seq<(i64, NoteTimer)>, id: i64, t: u32)
    requires
        forall|j: int| 0 <= j < s.len() ==> (#[trigger] s[j]).0 != id,
    ensures
        ticks_of(s.push((id, NoteTimer { ticks_since_last_edit: t })), id) == Some(t),
        forall|x: i64|
            x != id ==> #[trigger] ticks_of(s.push((id, NoteTimer { ticks_since_last_edit: t })), x)
                == ticks_of(s, x),
    decreases s.len(),
{
    let s2 = s.push((id, NoteTimer { ticks_since_last_edit: t }));
    if s.len() == 0 {
        assert(s2[0] == (id, NoteTimer { ticks_since_last_edit: t }));
        assert forall|x: i64| x != id implies #[trigger] ticks_of(s2, x) == ticks_of(s, x) by {
            assert(s2.drop_first() =~= Seq::<(i64, NoteTimer)>::empty());
            assert(ticks_of(s2.drop_first(), x) == None::<u32>);
            assert(ticks_of(s, x) == None::<u32>);
        }
    } else {
        lemma_ticks_of_push_fresh(s.drop_first(), id, t);
        assert(s2.drop_first() =~= s.drop_first().push((id, NoteTimer { ticks_since_last_edit: t })));
        assert(s2[0] == s[0]);
        assert(ticks_of(s2, id) == Some(t));
        assert forall|x: i64| x != id implies #[trigger] ticks_of(s2, x) == ticks_of(s, x) by {
            assert(ticks_of(s2.drop_first(), x) == ticks_of(s.drop_first(), x));
            if s[0].0 == x {
                assert(ticks_of(s2, x) == Some(s2[0].1.ticks_since_last_edit));
                assert(ticks_of(s, x) == Some(s[0].1.ticks_since_last_edit));
            } else {
                assert(ticks_of(s2, x) == ticks_of(s2.drop_first(), x));
                assert(ticks_of(s, x) == ticks_of(s.drop_first(), x));
            }
        }
    }
}

proof fn lemma_ticks_of_advance(s: Seq<(i64, NoteTimer)>, id: i64)
    ensures
        ticks_of(advance_all(s), id) == match ticks_of(s, id) {
            None => None,
            Some(t) => Some(advance_ticks(t)),
        },
    decreases s.len(),
{
    if s.len() == 0 {
        assert(advance_all(s) =~= Seq::<(i64, NoteTimer)>::empty());
    } else {
        assert(advance_all(s)[0].0 == s[0].0);
        if s[0].0 != id {
            lemma_ticks_of_advance(s.drop_first(), id);
            assert(advance_all(s).drop_first() =~= advance_all(s.drop_first()));
        }
    }
}

proof fn lemma_due_ids_exists(s: Seq<(i64, NoteTimer)>, id: i64)
    ensures
        due_ids(s).contains(id) <==> exists|k: int|
            0 <= k < s.len() && (#[trigger] s[k]).0 == id && s[k].1.ticks_since_last_edit + 1
                == TICKS_BEFORE_FLUSH,
    decreases s.len(),
{
    if s.len() > 0 {
        lemma_due_ids_exists(s.drop_last(), id);
        assert(forall|k: int| 0 <= k < s.len() - 1 ==> #[trigger] s.drop_last()[k] == s[k]);
        let p = due_ids(s.drop_last());
        if s.last().1.ticks_since_last_edit + 1 == TICKS_BEFORE_FLUSH {
            assert(due_ids(s) == p.push(s.last().0));
            if due_ids(s).contains(id) {
                let m = choose|m: int| 0 <= m < due_ids(s).len() && due_ids(s)[m] == id;
                if m < p.len() {
                    assert(p[m] == id);
                    assert(p.contains(id));
                    let k = choose|k: int|
                        0 <= k < s.drop_last().len() && (#[trigger] s.drop_last()[k]).0 == id
                            && s.drop_last()[k].1.ticks_since_last_edit + 1 == TICKS_BEFORE_FLUSH;
                    assert((#[trigger] s[k]).0 == id && s[k].1.ticks_since_last_edit + 1
                        == TICKS_BEFORE_FLUSH);
                } else {
                    assert((#[trigger] s[s.len() - 1]).0 == id);
                }
            }
            if exists|k: int|
                0 <= k < s.len() && (#[trigger] s[k]).0 == id && s[k].1.ticks_since_last_edit + 1
                    == TICKS_BEFORE_FLUSH {
                let k = choose|k: int|
                    0 <= k < s.len() && (#[trigger] s[k]).0 == id
                        && s[k].1.ticks_since_last_edit + 1 == TICKS_BEFORE_FLUSH;
                if k < s.len() - 1 {
                    assert((#[trigger] s.drop_last()[k]).0 == id && s.drop_last()[k]
                        .1.ticks_since_last_edit + 1 == TICKS_BEFORE_FLUSH);
                    assert(p.contains(id));
                    let m = choose|m: int| 0 <= m < p.len() && p[m] == id;
                    assert(due_ids(s)[m] == id);
                    assert(due_ids(s).contains(id));
                } else {
                    assert(due_ids(s)[p.len() as int] == id);
                    assert(due_ids(s).contains(id));
                }
            }
        } else {
            assert(due_ids(s) == p);
            if due_ids(s).contains(id) {
                assert(p.contains(id));
                let k = choose|k: int|
                    0 <= k < s.drop_last().len() && (#[trigger] s.drop_last()[k]).0 == id
                        && s.drop_last()[k].1.ticks_since_last_edit + 1 == TICKS_BEFORE_FLUSH;
                assert((#[trigger] s[k]).0 == id && s[k].1.ticks_since_last_edit + 1
                    == TICKS_BEFORE_FLUSH);
            }
            if exists|k: int|
                0 <= k < s.len() && (#[trigger] s[k]).0 == id && s[k].1.ticks_since_last_edit + 1
                    == TICKS_BEFORE_FLUSH {
                let k = choose|k: int|
                    0 <= k < s.len() && (#[trigger] s[k]).0 == id
                        && s[k].1.ticks_since_last_edit + 1 == TICKS_BEFORE_FLUSH;
                assert(k < s.len() - 1);
                assert((#[trigger] s.drop_last()[k]).0 == id && s.drop_last()[k]
                    .1.ticks_since_last_edit + 1 == TICKS_BEFORE_FLUSH);
                assert(p.contains(id));
            }
        }
    }
}

/// The flush queue of one tick never names a note twice.
pub proof fn lemma_due_ids_distinct(s: Seq<(i64, NoteTimer)>)
    requires
        wf_timers(s),
    ensures
        forall|k1: int, k2: int|
            0 <= k1 < k2 < due_ids(s).len() ==> due_ids(s)[k1] != due_ids(s)[k2],
    decreases s.len(),
{
    if s.len() > 0 {
        assert(wf_timers(s.drop_last())) by {
            assert(forall|k: int| 0 <= k < s.len() - 1 ==> #[trigger] s.drop_last()[k] == s[k]);
        }
        lemma_due_ids_distinct(s.drop_last());
        let p = due_ids(s.drop_last());
        if s.last().1.ticks_since_last_edit + 1 == TICKS_BEFORE_FLUSH {
            assert(!p.contains(s.last().0)) by {
                lemma_due_ids_exists(s.drop_last(), s.last().0);
                assert(forall|k: int|
                    0 <= k < s.len() - 1 ==> (#[trigger] s.drop_last()[k]).0 == s[k].0);
            }
            assert forall|k1: int, k2: int|
                0 <= k1 < k2 < due_ids(s).len() implies due_ids(s)[k1] != due_ids(s)[k2] by {
                if k2 == due_ids(s).len() - 1 {
                    assert(p.contains(p[k1]));
                }
            }
        }
    }
}

/// The debounce threshold law. Once an edit has reset a note's counter to
/// zero, the next three ticks queue no flush for that note; the fourth
/// consecutive tick with no intervening edit queues it, exactly once; and a
/// further tick without an edit does not queue it again.
pub proof fn lemma_debounce_threshold(s: Seq<(i64, NoteTimer)>, id: i64)
    requires
        wf_timers(s),
        ticks_of(s, id) == Some(0u32),
    ensures
        !due_ids(s).contains(id),
        !due_ids(advance_all(s)).contains(id),
        !due_ids(advance_all(advance_all(s))).contains(id),
        due_ids(advance_all(advance_all(advance_all(s)))).contains(id),
        !due_ids(advance_all(advance_all(advance_all(advance_all(s))))).contains(id),
{
    let s1 = advance_all(s);
    let s2 = advance_all(s1);
    let s3 = advance_all(s2);
    let s4 = advance_all(s3);
    lemma_ticks_of_advance(s, id);
    lemma_ticks_of_advance(s1, id);
    lemma_ticks_of_advance(s2, id);
    lemma_ticks_of_advance(s3, id);
    assert(ticks_of(s1, id) == Some(1u32));
    assert(ticks_of(s2, id) == Some(2u32));
    assert(ticks_of(s3, id) == Some(3u32));
    assert(ticks_of(s4, id) == Some(4u32));
    lemma_ticks_exists_chain(s, s1, s2, s3, s4, id);
}

proof fn lemma_wf_preserved(s: Seq<(i64, NoteTimer)>)
    requires
        wf_timers(s),
    ensures
        wf_timers(advance_all(s)),
{
    assert(forall|k: int| 0 <= k < s.len() ==> (#[trigger] advance_all(s)[k]).0 == s[k].0);
    assert(forall|k: int|
        0 <= k < s.len() ==> (#[trigger] advance_all(s)[k]).1.ticks_since_last_edit
            <= TICKS_BEFORE_FLUSH);
}

proof fn lemma_ticks_exists(s: Seq<(i64, NoteTimer)>, id: i64, t: u32)
    requires
        forall|k1: int, k2: int|
            0 <= k1 < k2 < s.len() ==> (#[trigger] s[k1]).0 != (#[trigger] s[k2]).0,
    ensures
        ticks_of(s, id) == Some(t) <==> exists|k: int|
            0 <= k < s.len() && (#[trigger] s[k]).0 == id && s[k].1.ticks_since_last_edit == t,
    decreases s.len(),
{
    if s.len() > 0 {
        if s[0].0 == id {
            if s[0].1.ticks_since_last_edit == t {
            } else {
                assert forall|k: int|
                    0 <= k < s.len() && (#[trigger] s[k]).0 == id implies !(
                s[k].1.ticks_since_last_edit == t) by {
                    if k > 0 {
                        assert(s[0].0 != s[k].0);
                    }
                }
            }
        } else {
            assert(forall|k1: int, k2: int|
                0 <= k1 < k2 < s.drop_first().len() ==> (#[trigger] s.drop_first()[k1]).0 != (
                #[trigger] s.drop_first()[k2]).0) by {
                assert(forall|k: int|
                    0 <= k < s.len() - 1 ==> #[trigger] s.drop_first()[k] == s[k + 1]);
            }
            lemma_ticks_exists(s.drop_first(), id, t);
            assert(forall|k: int|
                0 <= k < s.len() - 1 ==> #[trigger] s.drop_first()[k] == s[k + 1]);
            if ticks_of(s, id) == Some(t) {
                let k = choose|k: int|
                    0 <= k < s.drop_first().len() && (#[trigger] s.drop_first()[k]).0 == id
                        && s.drop_first()[k].1.ticks_since_last_edit == t;
                assert(s[k + 1].0 == id && s[k + 1].1.ticks_since_last_edit == t);
            }
            if exists|k: int|
                0 <= k < s.len() && (#[trigger] s[k]).0 == id && s[k].1.ticks_since_last_edit
                    == t {
                let k = choose|k: int|
                    0 <= k < s.len() && (#[trigger] s[k]).0 == id && s[k].1.ticks_since_last_edit
                        == t;
                assert(k > 0);
                assert(s.drop_first()[k - 1] == s[k]);
            }
        }
    }
}

proof fn lemma_ticks_exists_chain(
    s: Seq<(i64, NoteTimer)>,
    s1: Seq<(i64, NoteTimer)>,
    s2: Seq<(i64, NoteTimer)>,
    s3: Seq<(i64, NoteTimer)>,
    s4: Seq<(i64, NoteTimer)>,
    id: i64,
)
    requires
        wf_timers(s),
        s1 == advance_all(s),
        s2 == advance_all(s1),
        s3 == advance_all(s2),
        s4 == advance_all(s3),
        ticks_of(s, id) == Some(0u32),
        ticks_of(s1, id) == Some(1u32),
        ticks_of(s2, id) == Some(2u32),
        ticks_of(s3, id) == Some(3u32),
        ticks_of(s4, id) == Some(4u32),
    ensures
        !due_ids(s).contains(id),
        !due_ids(s1).contains(id),
        !due_ids(s2).contains(id),
        due_ids(s3).contains(id),
        !due_ids(s4).contains(id),
{
    lemma_wf_preserved(s);
    lemma_wf_preserved(s1);
    lemma_wf_preserved(s2);
    lemma_wf_preserved(s3);
    lemma_due_ids_exists(s, id);
    lemma_due_ids_exists(s1, id);
    lemma_due_ids_exists(s2, id);
    lemma_due_ids_exists(s3, id);
    lemma_due_ids_exists(s4, id);
    lemma_ticks_exists(s, id, (TICKS_BEFORE_FLUSH - 1) as u32);
    lemma_ticks_exists(s1, id, (TICKS_BEFORE_FLUSH - 1) as u32);
    lemma_ticks_exists(s2, id, (TICKS_BEFORE_FLUSH - 1) as u32);
    lemma_ticks_exists(s3, id, (TICKS_BEFORE_FLUSH - 1) as u32);
    lemma_ticks_exists(s4, id, (TICKS_BEFORE_FLUSH - 1) as u32);
}

} // verus!
