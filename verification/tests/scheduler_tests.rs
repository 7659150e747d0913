use rplanner::scheduler::{NoteTimers, TICKS_BEFORE_FLUSH};

#[test]
fn debounce_queues_flush_on_fourth_idle_tick() {
    let mut timers = NoteTimers::new();
    timers.reset_note_flush_timer(1);
    assert_eq!(timers.get_ticks(1), Some(0));
    assert!(timers.tick_note_timers().is_empty());
    assert!(timers.tick_note_timers().is_empty());
    assert!(timers.tick_note_timers().is_empty());
    assert_eq!(timers.get_ticks(1), Some(3));
    // fourth consecutive tick with no intervening edit: exactly one flush
    assert_eq!(timers.tick_note_timers(), vec![1]);
    assert_eq!(timers.get_ticks(1), Some(TICKS_BEFORE_FLUSH));
    // resting at the threshold: not queued again
    assert!(timers.tick_note_timers().is_empty());
}

#[test]
fn debounce_edit_resets_the_count() {
    let mut timers = NoteTimers::new();
    timers.reset_note_flush_timer(1);
    assert!(timers.tick_note_timers().is_empty());
    assert!(timers.tick_note_timers().is_empty());
    // an edit arrives on tick 3
    timers.reset_note_flush_timer(1);
    assert!(timers.tick_note_timers().is_empty());
    // the original tick 4: no flush, the count was reset
    assert!(timers.tick_note_timers().is_empty());
    assert!(timers.tick_note_timers().is_empty());
    // four idle ticks after the edit: flushed now
    assert_eq!(timers.tick_note_timers(), vec![1]);
}

#[test]
fn debounce_tracks_notes_independently() {
    let mut timers = NoteTimers::new();
    timers.reset_note_flush_timer(1);
    assert!(timers.tick_note_timers().is_empty());
    timers.reset_note_flush_timer(2);
    assert!(timers.tick_note_timers().is_empty());
    assert!(timers.tick_note_timers().is_empty());
    // note 1 reaches the threshold one tick before note 2
    assert_eq!(timers.tick_note_timers(), vec![1]);
    assert_eq!(timers.tick_note_timers(), vec![2]);
    assert!(timers.tick_note_timers().is_empty());
    assert_eq!(timers.get_ticks(3), None);
}

#[test]
fn timer_survives_flush_until_next_edit() {
    let mut timers = NoteTimers::new();
    timers.reset_note_flush_timer(5);
    for _ in 0..10 {
        timers.tick_note_timers();
    }
    // still tracked, resting at the threshold
    assert_eq!(timers.get_ticks(5), Some(TICKS_BEFORE_FLUSH));
    timers.reset_note_flush_timer(5);
    assert_eq!(timers.get_ticks(5), Some(0));
}
