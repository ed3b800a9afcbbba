use tardiness::db::Class;
use tardiness::db::DataBase;
use tardiness::db::Entry;
use tardiness::db::Lesson;
use tardiness::db::LessonAbs;
use tardiness::time::lesson_starts;
use tardiness::time::Date;
use tardiness::time::TimeOfDay;

fn t(hour: u32, minute: u32, second: u32) -> TimeOfDay {
    TimeOfDay { hour, minute, second }
}

fn d(year: u32, month: u32, day: u32) -> Date {
    Date { year, month, day }
}

fn entry(person: Class, delay_min: u32, first_lesson: bool) -> Entry {
    Entry {
        person,
        lesson: Lesson::Mathe,
        lesson_time: t(7, 45, 0),
        delay_min,
        first_lesson,
        date: d(2024, 3, 1),
    }
}

#[test]
fn empty_store_has_no_records() {
    let db = DataBase::empty();
    assert_eq!(db.data.len(), 0);
    assert_eq!(db.absences.len(), 0);
}

#[test]
fn add_appends_in_insertion_order() {
    let mut db = DataBase::empty();
    db.add_entry(entry(Class::Anina, 5, false));
    db.add_entry(entry(Class::Jan, 10, true));
    assert_eq!(db.data.len(), 2);
    assert_eq!(db.data[0].person, Class::Anina);
    assert_eq!(db.data[1].person, Class::Jan);
}

#[test]
fn remove_first_matching_removes_exactly_one_duplicate() {
    let mut db = DataBase::empty();
    let e = entry(Class::Anina, 5, false);
    db.add_entry(e);
    db.add_entry(e);
    assert_eq!(db.data.len(), 2);
    db.remove_first_matching(&e);
    assert_eq!(db.data.len(), 1);
    assert_eq!(db.data[0], e);
}

#[test]
fn remove_first_matching_removes_the_first_of_distinct_records() {
    let mut db = DataBase::empty();
    let a = entry(Class::Anina, 5, false);
    let b = entry(Class::Jan, 10, true);
    db.add_entry(a);
    db.add_entry(b);
    db.add_entry(a);
    db.remove_first_matching(&b);
    assert_eq!(db.data, vec![a, a]);
}

#[test]
fn remove_first_matching_without_match_changes_nothing() {
    let mut db = DataBase::empty();
    let a = entry(Class::Anina, 5, false);
    db.add_entry(a);
    db.remove_first_matching(&entry(Class::Jan, 5, false));
    assert_eq!(db.data, vec![a]);
}

#[test]
fn clear_resets_both_lists() {
    let mut db = DataBase::empty();
    db.add_entry(entry(Class::Anina, 5, false));
    db.add_absence(LessonAbs::new());
    db.clear();
    assert_eq!(db.data.len(), 0);
    assert_eq!(db.absences.len(), 0);
}

#[test]
fn toggle_person_marks_absent_then_present_again() {
    let mut a = LessonAbs::new();
    assert!(a.present.contains(&Class::Mia));
    assert_eq!(a.present.len(), 25);
    a.toggle_person(Class::Mia);
    assert!(!a.present.contains(&Class::Mia));
    assert_eq!(a.present.len(), 24);
    a.toggle_person(Class::Mia);
    assert!(a.present.contains(&Class::Mia));
    assert_eq!(a.present.len(), 25);
}

#[test]
fn new_roster_has_everybody_present() {
    let a = LessonAbs::new();
    assert_eq!(a.present, Class::all());
    assert_eq!(a.lesson, Lesson::BG);
    assert!(!a.first_lesson);
    assert!(lesson_starts().contains(&a.lesson_time));
}

#[test]
fn new_smart_carries_roster_and_lesson_forward() {
    let mut prior = LessonAbs::new_at(t(10, 0, 0), d(2024, 3, 1));
    prior.present = vec![Class::Anina, Class::Anne];
    prior.lesson = Lesson::Mathe;
    let absences = vec![prior];
    let fresh = LessonAbs::new_smart_at(&absences, t(13, 0, 0), d(2024, 3, 4));
    assert_eq!(fresh.present, vec![Class::Anina, Class::Anne]);
    assert_eq!(fresh.lesson, Lesson::Mathe);
    assert_eq!(fresh.lesson_time, t(12, 25, 0));
    assert_eq!(fresh.date, d(2024, 3, 4));
    assert!(!fresh.first_lesson);
}

#[test]
fn new_smart_takes_the_most_recently_appended_roster() {
    let mut first = LessonAbs::new_at(t(10, 0, 0), d(2024, 3, 1));
    first.lesson = Lesson::Mathe;
    let mut second = LessonAbs::new_at(t(10, 0, 0), d(2024, 3, 2));
    second.lesson = Lesson::Sport;
    second.present = vec![Class::Ida];
    let absences = vec![first, second];
    let fresh = LessonAbs::new_smart_at(&absences, t(8, 0, 0), d(2024, 3, 4));
    assert_eq!(fresh.lesson, Lesson::Sport);
    assert_eq!(fresh.present, vec![Class::Ida]);
}

#[test]
fn new_smart_on_no_priors_resets_everything() {
    let absences: Vec<LessonAbs> = Vec::new();
    let fresh = LessonAbs::new_smart_at(&absences, t(13, 0, 0), d(2024, 3, 4));
    assert_eq!(fresh.present, Class::all());
    assert_eq!(fresh.lesson, Lesson::BG);
}

#[test]
fn blank_entry_is_for_the_default_person_and_lesson() {
    let e = Entry::empty();
    assert_eq!(e.person, Class::Marie);
    assert_eq!(e.lesson, Lesson::BG);
    assert_eq!(e.delay_min, 0);
    assert!(!e.first_lesson);
    assert!(lesson_starts().contains(&e.lesson_time));
    assert!(e.date.month >= 1 && e.date.month <= 12);
    assert!(e.date.day >= 1 && e.date.day <= 31);
}

#[test]
fn rosters_are_listed_in_display_order() {
    let classes = Class::all();
    assert_eq!(classes.len(), 25);
    assert_eq!(classes[0], Class::Anina);
    assert_eq!(classes[24], Class::Suya);
    let lessons = Lesson::all();
    assert_eq!(lessons.len(), 14);
    assert_eq!(lessons[0], Lesson::Mathe);
    assert_eq!(lessons[13], Lesson::Geographie);
}
