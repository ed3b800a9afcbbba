use tardiness::time::days_in_month;
use tardiness::time::get_today;
use tardiness::time::next_date;
use tardiness::time::now_time;
use tardiness::time::prev_date;
use tardiness::time::Date;

fn d(year: u32, month: u32, day: u32) -> Date {
    Date { year, month, day }
}

#[test]
fn month_lengths_follow_the_gregorian_rules() {
    assert_eq!(days_in_month(2023, 1), 31);
    assert_eq!(days_in_month(2023, 2), 28);
    assert_eq!(days_in_month(2024, 2), 29);
    assert_eq!(days_in_month(1900, 2), 28);
    assert_eq!(days_in_month(2000, 2), 29);
    assert_eq!(days_in_month(2023, 4), 30);
    assert_eq!(days_in_month(2023, 12), 31);
}

#[test]
fn the_next_day_steps_over_month_and_year_ends() {
    assert_eq!(next_date(d(2024, 3, 1)), d(2024, 3, 2));
    assert_eq!(next_date(d(2024, 2, 28)), d(2024, 2, 29));
    assert_eq!(next_date(d(2023, 2, 28)), d(2023, 3, 1));
    assert_eq!(next_date(d(2023, 12, 31)), d(2024, 1, 1));
    assert_eq!(next_date(d(2024, 4, 30)), d(2024, 5, 1));
}

#[test]
fn the_previous_day_steps_back_over_month_and_year_starts() {
    assert_eq!(prev_date(d(2024, 3, 2)), d(2024, 3, 1));
    assert_eq!(prev_date(d(2024, 3, 1)), d(2024, 2, 29));
    assert_eq!(prev_date(d(2023, 3, 1)), d(2023, 2, 28));
    assert_eq!(prev_date(d(2024, 1, 1)), d(2023, 12, 31));
}

#[test]
fn next_and_previous_are_inverse() {
    let samples = [
        d(2024, 2, 28),
        d(2024, 2, 29),
        d(2023, 12, 31),
        d(2024, 1, 1),
        d(2024, 6, 15),
    ];
    for day in samples {
        assert_eq!(prev_date(next_date(day)), day);
        assert_eq!(next_date(prev_date(day)), day);
    }
}

#[test]
fn the_clock_yields_a_real_date_and_time() {
    let today = get_today();
    assert!(today.month >= 1 && today.month <= 12);
    assert!(today.day >= 1 && today.day <= days_in_month(today.year, today.month));
    assert!(today.year <= 9999);
    let now = now_time();
    assert!(now.hour < 24 && now.minute < 60 && now.second < 60);
}
