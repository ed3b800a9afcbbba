use tardiness::time::get_last_lesson;
use tardiness::time::get_last_lesson_t;
use tardiness::time::get_next_lesson;
use tardiness::time::get_prev_lesson;
use tardiness::time::last_lesson_before;
use tardiness::time::lesson_starts;
use tardiness::time::next_slot;
use tardiness::time::prev_slot;
use tardiness::time::TimeOfDay;

fn t(hour: u32, minute: u32, second: u32) -> TimeOfDay {
    TimeOfDay { hour, minute, second }
}

#[test]
fn slot_list_is_ascending_and_has_ten_entries() {
    let slots = lesson_starts();
    assert_eq!(slots.len(), 10);
    for w in slots.windows(2) {
        let a = &w[0];
        let b = &w[1];
        assert!((a.hour, a.minute, a.second) < (b.hour, b.minute, b.second));
    }
    assert_eq!(slots[0], t(7, 45, 0));
    assert_eq!(slots[9], t(16, 5, 0));
}

#[test]
fn nearest_slot_at_or_before_picks_latest_started_slot() {
    assert_eq!(get_last_lesson_t(t(7, 45, 0)), t(7, 45, 0));
    assert_eq!(get_last_lesson_t(t(8, 39, 59)), t(7, 45, 0));
    assert_eq!(get_last_lesson_t(t(8, 40, 0)), t(8, 40, 0));
    assert_eq!(get_last_lesson_t(t(12, 0, 0)), t(11, 30, 0));
    assert_eq!(get_last_lesson_t(t(23, 59, 59)), t(16, 5, 0));
}

#[test]
fn nearest_slot_before_first_slot_wraps_to_last() {
    assert_eq!(get_last_lesson_t(t(0, 0, 0)), t(16, 5, 0));
    assert_eq!(get_last_lesson_t(t(7, 44, 59)), t(16, 5, 0));
}

#[test]
fn strictly_before_excludes_the_slot_itself() {
    assert_eq!(last_lesson_before(t(7, 45, 0)), t(16, 5, 0));
    assert_eq!(last_lesson_before(t(7, 45, 1)), t(7, 45, 0));
    assert_eq!(last_lesson_before(t(16, 5, 0)), t(15, 10, 0));
}

#[test]
fn cursor_round_trip_holds_for_every_slot() {
    for s in lesson_starts() {
        assert_eq!(prev_slot(next_slot(s)), s);
        assert_eq!(next_slot(prev_slot(s)), s);
    }
}

#[test]
fn cursor_wraps_at_both_ends() {
    assert_eq!(next_slot(t(16, 5, 0)), t(7, 45, 0));
    assert_eq!(prev_slot(t(7, 45, 0)), t(16, 5, 0));
}

#[test]
fn unrecognized_slot_counts_as_the_last_slot() {
    let odd = t(9, 0, 0);
    assert_eq!(next_slot(odd), t(7, 45, 0));
    assert_eq!(prev_slot(odd), t(15, 10, 0));
}

#[test]
fn next_and_prev_lesson_move_from_the_nearest_slot() {
    assert_eq!(get_next_lesson(t(12, 0, 0)), t(12, 25, 0));
    assert_eq!(get_prev_lesson(t(12, 0, 0)), t(10, 35, 0));
    assert_eq!(get_next_lesson(t(16, 30, 0)), t(7, 45, 0));
}

#[test]
fn clock_based_last_lesson_is_a_real_slot() {
    let r = get_last_lesson();
    assert!(lesson_starts().contains(&r));
}
