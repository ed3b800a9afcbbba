use tardiness::db::Class;
use tardiness::db::DataBase;
use tardiness::db::Entry;
use tardiness::db::Lesson;
use tardiness::stats::Ranking;
use tardiness::time::Date;
use tardiness::time::TimeOfDay;

fn entry(person: Class, lesson: Lesson, delay_min: u32) -> Entry {
    Entry {
        person,
        lesson,
        lesson_time: TimeOfDay { hour: 7, minute: 45, second: 0 },
        delay_min,
        first_lesson: false,
        date: Date { year: 2024, month: 3, day: 1 },
    }
}

/// Three records for one person (delays 5, 10, 15) and one for another
/// (delay 20), over two lessons.
fn sample() -> DataBase {
    let mut db = DataBase::empty();
    db.add_entry(entry(Class::Anina, Lesson::Mathe, 5));
    db.add_entry(entry(Class::Anina, Lesson::Sport, 10));
    db.add_entry(entry(Class::Anina, Lesson::Mathe, 15));
    db.add_entry(entry(Class::Jan, Lesson::Sport, 20));
    db
}

#[test]
fn person_ranking_has_one_row_per_person() {
    let db = sample();
    let rows = db.ranking_vec(Some(Ranking::Number));
    assert_eq!(rows.len(), 25);
    for c in Class::all() {
        assert_eq!(rows.iter().filter(|r| r.0 == c).count(), 1);
    }
}

#[test]
fn lesson_ranking_has_one_row_per_lesson() {
    let db = sample();
    let rows = db.ranking_vec_lesson(Some(Ranking::Number));
    assert_eq!(rows.len(), 14);
    for l in Lesson::all() {
        assert_eq!(rows.iter().filter(|r| r.0 == l).count(), 1);
    }
}

#[test]
fn ranking_rows_of_unseen_persons_are_zero() {
    let db = sample();
    let rows = db.ranking_vec(Some(Ranking::Number));
    let mia = rows.iter().find(|r| r.0 == Class::Mia).unwrap();
    assert_eq!(*mia, (Class::Mia, 0, 0, 0));
}

#[test]
fn ranking_counts_sum_to_the_total_record_count() {
    let db = sample();
    let rows = db.ranking_vec(Some(Ranking::Number));
    let total: i32 = rows.iter().map(|r| r.1).sum();
    assert_eq!(total as usize, db.data.len());
}

#[test]
fn ranking_by_number_puts_the_most_frequent_first() {
    let db = sample();
    let rows = db.ranking_vec(Some(Ranking::Number));
    assert_eq!(rows[0], (Class::Anina, 3, 30, 75));
    assert_eq!(rows[1], (Class::Jan, 1, 20, 25));
    for r in rows.iter().skip(2) {
        assert_eq!(r.1, 0);
    }
}

#[test]
fn ranking_by_sum_orders_by_summed_minutes() {
    let mut db = DataBase::empty();
    db.add_entry(entry(Class::Anina, Lesson::Mathe, 5));
    db.add_entry(entry(Class::Jan, Lesson::Mathe, 50));
    let by_number = db.ranking_vec(Some(Ranking::Number));
    // tie on count: display order decides
    assert_eq!(by_number[0].0, Class::Anina);
    assert_eq!(by_number[1].0, Class::Jan);
    let by_sum = db.ranking_vec(Some(Ranking::Sum));
    assert_eq!(by_sum[0].0, Class::Jan);
    assert_eq!(by_sum[1].0, Class::Anina);
}

#[test]
fn no_metric_means_ranking_by_number() {
    let db = sample();
    assert_eq!(db.ranking_vec(None), db.ranking_vec(Some(Ranking::Number)));
    assert_eq!(db.ranking_vec_lesson(None), db.ranking_vec_lesson(Some(Ranking::Number)));
}

#[test]
fn ties_keep_display_order() {
    let db = DataBase::empty();
    let rows = db.ranking_vec(Some(Ranking::Number));
    let classes = Class::all();
    for (row, c) in rows.iter().zip(classes.iter()) {
        assert_eq!(row, &(*c, 0, 0, 0));
    }
}

#[test]
fn lesson_ranking_carries_counts_sums_and_percents() {
    let db = sample();
    let rows = db.ranking_vec_lesson(Some(Ranking::Sum));
    assert_eq!(rows[0], (Lesson::Sport, 2, 30, 50));
    assert_eq!(rows[1], (Lesson::Mathe, 2, 20, 50));
    for r in rows.iter().skip(2) {
        assert_eq!(r.1, 0);
    }
}

#[test]
fn ranking_percent_rounds_to_nearest() {
    let mut db = DataBase::empty();
    db.add_entry(entry(Class::Anina, Lesson::Mathe, 1));
    db.add_entry(entry(Class::Anina, Lesson::Mathe, 1));
    db.add_entry(entry(Class::Jan, Lesson::Mathe, 1));
    let rows = db.ranking_vec(Some(Ranking::Number));
    // 2 of 3 is 66.67, rounded 67; 1 of 3 is 33.33, rounded 33
    assert_eq!(rows[0], (Class::Anina, 2, 2, 67));
    assert_eq!(rows[1], (Class::Jan, 1, 1, 33));
}
