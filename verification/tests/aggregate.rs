use tardiness::db::Class;
use tardiness::db::DataBase;
use tardiness::db::Entry;
use tardiness::db::Lesson;
use tardiness::time::Date;
use tardiness::time::TimeOfDay;

fn t(hour: u32, minute: u32, second: u32) -> TimeOfDay {
    TimeOfDay { hour, minute, second }
}

fn d(year: u32, month: u32, day: u32) -> Date {
    Date { year, month, day }
}

fn entry_on(person: Class, delay_min: u32, first_lesson: bool, date: Date, time: TimeOfDay) -> Entry {
    Entry { person, lesson: Lesson::Mathe, lesson_time: time, delay_min, first_lesson, date }
}

fn entry(person: Class, delay_min: u32, first_lesson: bool) -> Entry {
    entry_on(person, delay_min, first_lesson, d(2024, 3, 1), t(7, 45, 0))
}

/// Three records for one person (delays 5, 10, 15) and one for another
/// (delay 20).
fn sample() -> DataBase {
    let mut db = DataBase::empty();
    db.add_entry(entry(Class::Anina, 5, true));
    db.add_entry(entry(Class::Anina, 10, false));
    db.add_entry(entry(Class::Anina, 15, false));
    db.add_entry(entry(Class::Jan, 20, false));
    db
}

#[test]
fn profile_stats_of_the_empty_store_are_all_zero() {
    let db = DataBase::empty();
    let s = db.get_profile_stats(Class::Anina);
    assert_eq!(s.num, 0);
    assert_eq!(s.sum, 0);
    assert_eq!(s.avg_min, 0);
    assert_eq!(s.percent, 0);
    assert_eq!(s.first_lesson_percent, 0);
    assert_eq!(s.theo_penalties, 0);
    assert_eq!(s.min, 0);
    assert_eq!(s.max, 0);
    assert!(s.latest.is_none());
}

#[test]
fn profile_stats_of_the_sample_store() {
    let db = sample();
    let s = db.get_profile_stats(Class::Anina);
    assert_eq!(s.num, 3);
    assert_eq!(s.sum, 30);
    assert_eq!(s.avg_min, 10);
    assert_eq!(s.min, 5);
    assert_eq!(s.max, 15);
    assert_eq!(s.percent, 75);
    assert_eq!(s.theo_penalties, 1);
    assert_eq!(s.first_lesson_percent, 33);
    let sb = db.get_profile_stats(Class::Jan);
    assert_eq!(sb.num, 1);
    assert_eq!(sb.sum, 20);
    assert_eq!(sb.percent, 25);
    assert_eq!(sb.theo_penalties, 0);
}

#[test]
fn latest_record_takes_the_greatest_date_then_time_first_seen_wins() {
    let mut db = DataBase::empty();
    let early = entry_on(Class::Anina, 1, false, d(2024, 3, 1), t(8, 40, 0));
    let late_day = entry_on(Class::Anina, 2, false, d(2024, 3, 2), t(7, 45, 0));
    let same_day_later = entry_on(Class::Anina, 3, false, d(2024, 3, 2), t(9, 35, 0));
    let duplicate_moment = entry_on(Class::Anina, 4, false, d(2024, 3, 2), t(9, 35, 0));
    db.add_entry(early);
    db.add_entry(late_day);
    db.add_entry(same_day_later);
    db.add_entry(duplicate_moment);
    let s = db.get_profile_stats(Class::Anina);
    // the record sharing date and time does not replace the one seen first
    assert_eq!(s.latest, Some(same_day_later));
}

#[test]
fn global_sums_and_percentages() {
    let db = sample();
    assert_eq!(db.sum_min(), 50);
    assert_eq!(db.average_delay(), 12);
    assert_eq!(db.get_percent_first_lesson(), 25);
    assert_eq!(db.min_delay(), Some(5));
    assert_eq!(db.max_delay(), Some(20));
    assert_eq!(db.total_penalties(), 1);
}

#[test]
fn global_queries_on_the_empty_store() {
    let db = DataBase::empty();
    assert_eq!(db.sum_min(), 0);
    assert_eq!(db.average_delay(), 0);
    assert_eq!(db.get_percent_first_lesson(), 0);
    assert_eq!(db.min_delay(), None);
    assert_eq!(db.max_delay(), None);
    assert_eq!(db.total_penalties(), 0);
}

#[test]
fn percent_first_lesson_rounds_to_nearest() {
    let mut db = DataBase::empty();
    db.add_entry(entry(Class::Anina, 1, true));
    db.add_entry(entry(Class::Anina, 1, false));
    db.add_entry(entry(Class::Anina, 1, false));
    // 1 of 3 records: 33.33... rounds to 33
    assert_eq!(db.get_percent_first_lesson(), 33);
    db.add_entry(entry(Class::Jan, 1, true));
    // 2 of 4: exactly 50
    assert_eq!(db.get_percent_first_lesson(), 50);
}

#[test]
fn penalties_are_one_per_three_records() {
    let mut db = DataBase::empty();
    for _ in 0..5 {
        db.add_entry(entry(Class::Anina, 1, false));
    }
    for _ in 0..3 {
        db.add_entry(entry(Class::Jan, 1, false));
    }
    assert_eq!(db.penalties_person(Class::Anina), 1);
    assert_eq!(db.penalties_person(Class::Jan), 1);
    assert_eq!(db.penalties_person(Class::Mia), 0);
    assert_eq!(db.total_penalties(), 2);
}

#[test]
fn aggregation_is_repeatable_on_an_unchanged_store() {
    let db = sample();
    let s1 = db.get_profile_stats(Class::Anina);
    let s2 = db.get_profile_stats(Class::Anina);
    assert_eq!(s1.num, s2.num);
    assert_eq!(s1.sum, s2.sum);
    assert_eq!(s1.latest, s2.latest);
    assert_eq!(db.sum_min(), db.sum_min());
    assert_eq!(db.ranking_vec(None), db.ranking_vec(None));
    assert_eq!(db.ranking_vec_lesson(None), db.ranking_vec_lesson(None));
}

#[test]
fn zero_delay_records_keep_the_true_minimum() {
    let mut db = DataBase::empty();
    db.add_entry(entry(Class::Anina, 0, false));
    db.add_entry(entry(Class::Anina, 7, false));
    let s = db.get_profile_stats(Class::Anina);
    assert_eq!(s.min, 0);
    assert_eq!(s.max, 7);
}
