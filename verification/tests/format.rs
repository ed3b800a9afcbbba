use tardiness::codec::encode_db;
use tardiness::codec::parse_db;
use tardiness::db::Class;
use tardiness::db::DataBase;
use tardiness::db::Entry;
use tardiness::db::Lesson;
use tardiness::db::LessonAbs;
use tardiness::time::Date;
use tardiness::time::TimeOfDay;

fn t(hour: u32, minute: u32, second: u32) -> TimeOfDay {
    TimeOfDay { hour, minute, second }
}

fn d(year: u32, month: u32, day: u32) -> Date {
    Date { year, month, day }
}

fn sample() -> DataBase {
    let mut db = DataBase::empty();
    db.add_entry(Entry {
        person: Class::Anina,
        lesson: Lesson::Mathe,
        lesson_time: t(7, 45, 0),
        delay_min: 5,
        first_lesson: true,
        date: d(2024, 3, 1),
    });
    db.add_entry(Entry {
        person: Class::Jan,
        lesson: Lesson::BG,
        lesson_time: t(16, 5, 0),
        delay_min: 120,
        first_lesson: false,
        date: d(2023, 12, 31),
    });
    db.add_absence(LessonAbs {
        present: vec![Class::Anina, Class::Jan],
        lesson: Lesson::Sport,
        lesson_time: t(8, 40, 0),
        first_lesson: false,
        date: d(2024, 3, 2),
    });
    db
}

#[test]
fn the_empty_store_encodes_to_the_bare_document() {
    let db = DataBase::empty();
    assert_eq!(encode_db(&db), "{\"data\":[],\"absences\":[]}");
}

#[test]
fn one_record_encodes_with_all_field_names_and_textual_forms() {
    let mut db = DataBase::empty();
    db.add_entry(Entry {
        person: Class::Anina,
        lesson: Lesson::Mathe,
        lesson_time: t(7, 45, 0),
        delay_min: 5,
        first_lesson: true,
        date: d(2024, 3, 1),
    });
    assert_eq!(
        encode_db(&db),
        "{\"data\":[{\"person\":\"Anina\",\"lesson\":\"Mathe\",\"lesson_time\":\"07:45:00\",\
         \"delay_min\":5,\"first_lesson\":true,\"date\":\"2024-03-01\"}],\"absences\":[]}"
    );
}

#[test]
fn an_absence_roster_encodes_its_present_list() {
    let mut db = DataBase::empty();
    db.add_absence(LessonAbs {
        present: vec![Class::Anina, Class::Jan],
        lesson: Lesson::Sport,
        lesson_time: t(8, 40, 0),
        first_lesson: false,
        date: d(2024, 3, 2),
    });
    assert_eq!(
        encode_db(&db),
        "{\"data\":[],\"absences\":[{\"present\":[\"Anina\",\"Jan\"],\"lesson\":\"Sport\",\
         \"lesson_time\":\"08:40:00\",\"first_lesson\":false,\"date\":\"2024-03-02\"}]}"
    );
}

#[test]
fn reloading_a_saved_store_yields_an_equal_store() {
    let db = sample();
    let text = encode_db(&db);
    let reloaded = parse_db(&text).unwrap();
    assert_eq!(reloaded, db);
}

#[test]
fn reloading_the_empty_store_round_trips_too() {
    let db = DataBase::empty();
    let reloaded = parse_db(&encode_db(&db)).unwrap();
    assert_eq!(reloaded, db);
}

#[test]
fn a_multi_digit_delay_round_trips() {
    let mut db = DataBase::empty();
    db.add_entry(Entry {
        person: Class::Marie,
        lesson: Lesson::Geographie,
        lesson_time: t(12, 25, 0),
        delay_min: 4294967295,
        first_lesson: false,
        date: d(0, 1, 1),
    });
    let text = encode_db(&db);
    assert!(text.contains("\"delay_min\":4294967295"));
    assert!(text.contains("\"date\":\"0000-01-01\""));
    assert_eq!(parse_db(&text).unwrap(), db);
}

#[test]
fn an_empty_present_list_round_trips() {
    let mut db = DataBase::empty();
    db.add_absence(LessonAbs {
        present: vec![],
        lesson: Lesson::Bio,
        lesson_time: t(9, 35, 0),
        first_lesson: true,
        date: d(2024, 2, 29),
    });
    assert_eq!(parse_db(&encode_db(&db)).unwrap(), db);
}

#[test]
fn malformed_documents_are_rejected() {
    assert!(parse_db("").is_err());
    assert!(parse_db("{}").is_err());
    assert!(parse_db("{\"data\":[],\"absences\":[]} ").is_err());
    assert!(parse_db("{\"data\":[],\"absences\":[]").is_err());
    assert!(parse_db("{\"data\":[{}],\"absences\":[]}").is_err());
}

#[test]
fn unknown_names_and_bad_fields_are_rejected() {
    let good = "{\"data\":[{\"person\":\"Anina\",\"lesson\":\"Mathe\",\"lesson_time\":\"07:45:00\",\"delay_min\":5,\"first_lesson\":true,\"date\":\"2024-03-01\"}],\"absences\":[]}";
    assert!(parse_db(good).is_ok());
    let unknown_person = good.replace("Anina", "Nobody");
    assert!(parse_db(&unknown_person).is_err());
    let bad_month = good.replace("2024-03-01", "2024-13-01");
    assert!(parse_db(&bad_month).is_err());
    let bad_day = good.replace("2024-03-01", "2023-02-29");
    assert!(parse_db(&bad_day).is_err());
    let bad_hour = good.replace("07:45:00", "24:45:00");
    assert!(parse_db(&bad_hour).is_err());
    let delay_overflow = good.replace("\"delay_min\":5", "\"delay_min\":4294967296");
    assert!(parse_db(&delay_overflow).is_err());
    let leading_zero = good.replace("\"delay_min\":5", "\"delay_min\":05");
    assert!(parse_db(&leading_zero).is_err());
}

#[test]
fn a_leap_day_is_accepted_and_round_trips() {
    let mut db = DataBase::empty();
    db.add_entry(Entry {
        person: Class::Suya,
        lesson: Lesson::Chemie,
        lesson_time: t(11, 30, 0),
        delay_min: 0,
        first_lesson: false,
        date: d(2024, 2, 29),
    });
    assert_eq!(parse_db(&encode_db(&db)).unwrap(), db);
}
