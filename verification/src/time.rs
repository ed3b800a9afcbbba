//! Times of day, calendar dates, and the cyclic cursor over the fixed list
//! of daily lesson start times.
use chrono::Datelike;
use chrono::Timelike;
use vstd::prelude::*;

verus! {

/// A time of day, split into hour, minute and second.
#[derive(Clone, Copy, Debug, PartialEq, Eq, Structural)]
pub struct TimeOfDay {
    pub hour: u32,
    pub minute: u32,
    pub second: u32,
}

impl TimeOfDay {
    /// A well-formed wall-clock time.
    pub open spec fn wf(self) -> bool {
        self.hour < 24 && self.minute < 60 && self.second < 60
    }

    /// Chronological strict order (lexicographic on hour, minute, second).
    pub open spec fn spec_lt(self, other: TimeOfDay) -> bool {
        self.hour < other.hour || (self.hour == other.hour && (self.minute < other.minute
            || (self.minute == other.minute && self.second < other.second)))
    }

    /// Chronological order, allowing equality.
    pub open spec fn spec_le(self, other: TimeOfDay) -> bool {
        self.spec_lt(other) || self == other
    }
}

/// Chronologically strictly earlier.
pub fn time_lt(a: TimeOfDay, b: TimeOfDay) -> (r: bool)
    ensures
        r == a.spec_lt(b),
{
    a.hour < b.hour || (a.hour == b.hour && (a.minute < b.minute || (a.minute == b.minute
        && a.second < b.second)))
}

/// Chronologically earlier or equal.
pub fn time_le(a: TimeOfDay, b: TimeOfDay) -> (r: bool)
    ensures
        r == a.spec_le(b),
{
    a.hour < b.hour || (a.hour == b.hour && (a.minute < b.minute || (a.minute == b.minute
        && a.second <= b.second)))
}

/// The fixed, ascending list of the ten daily lesson start times.
pub open spec fn slots() -> Seq<TimeOfDay> {
    seq![
        (TimeOfDay { hour: 7, minute: 45, second: 0 }),
        (TimeOfDay { hour: 8, minute: 40, second: 0 }),
        (TimeOfDay { hour: 9, minute: 35, second: 0 }),
        (TimeOfDay { hour: 10, minute: 35, second: 0 }),
        (TimeOfDay { hour: 11, minute: 30, second: 0 }),
        (TimeOfDay { hour: 12, minute: 25, second: 0 }),
        (TimeOfDay { hour: 13, minute: 20, second: 0 }),
        (TimeOfDay { hour: 14, minute: 15, second: 0 }),
        (TimeOfDay { hour: 15, minute: 10, second: 0 }),
        (TimeOfDay { hour: 16, minute: 5, second: 0 }),
    ]
}

/// The number of daily lesson slots.
pub open spec fn slot_count() -> int {
    10
}

/// The lesson start times as a vector, in ascending order.
pub fn lesson_starts() -> (r: Vec<TimeOfDay>)
    ensures
        r@ == slots(),
{
    let mut v: Vec<TimeOfDay> = Vec::new();
    v.push(TimeOfDay { hour: 7, minute: 45, second: 0 });
    v.push(TimeOfDay { hour: 8, minute: 40, second: 0 });
    v.push(TimeOfDay { hour: 9, minute: 35, second: 0 });
    v.push(TimeOfDay { hour: 10, minute: 35, second: 0 });
    v.push(TimeOfDay { hour: 11, minute: 30, second: 0 });
    v.push(TimeOfDay { hour: 12, minute: 25, second: 0 });
    v.push(TimeOfDay { hour: 13, minute: 20, second: 0 });
    v.push(TimeOfDay { hour: 14, minute: 15, second: 0 });
    v.push(TimeOfDay { hour: 15, minute: 10, second: 0 });
    v.push(TimeOfDay { hour: 16, minute: 5, second: 0 });
    proof {
        assert(v@ =~= slots());
    }
    v
}

/// The latest slot at or before `t`, scanning slots `0..=i`; the last slot of
/// the day is the fallback when `t` lies before every scanned slot.
pub open spec fn nearest_le_from(t: TimeOfDay, i: int) -> TimeOfDay
    decreases i,
{
    if i <= 0 {
        if slots()[0].spec_le(t) {
            slots()[0]
        } else {
            slots()[slot_count() - 1]
        }
    } else if slots()[i].spec_le(t) {
        slots()[i]
    } else {
        nearest_le_from(t, i - 1)
    }
}

/// The latest slot at or before `t`; the last slot of the day when `t` is
/// earlier than the first slot.
pub open spec fn nearest_slot_at_or_before(t: TimeOfDay) -> TimeOfDay {
    nearest_le_from(t, slot_count() - 1)
}

/// The latest slot strictly before `t`, scanning slots `0..=i`, with the same
/// wrap-around fallback.
pub open spec fn nearest_lt_from(t: TimeOfDay, i: int) -> TimeOfDay
    decreases i,
{
    if i <= 0 {
        if slots()[0].spec_lt(t) {
            slots()[0]
        } else {
            slots()[slot_count() - 1]
        }
    } else if slots()[i].spec_lt(t) {
        slots()[i]
    } else {
        nearest_lt_from(t, i - 1)
    }
}

/// The latest slot strictly before `t`, falling back to the last slot.
pub open spec fn nearest_slot_before(t: TimeOfDay) -> TimeOfDay {
    nearest_lt_from(t, slot_count() - 1)
}

/// The latest slot at or before `t`; if `t` is earlier than every slot, the
/// last slot of the day.
pub fn get_last_lesson_t(t: TimeOfDay) -> (r: TimeOfDay)
    ensures
        r == nearest_slot_at_or_before(t),
{
    let starts = lesson_starts();
    let mut i: usize = 9;
    while i > 0
        invariant
            i <= 9,
            starts@ == slots(),
            nearest_slot_at_or_before(t) == nearest_le_from(t, i as int),
        decreases i,
    {
        if time_le(starts[i], t) {
            return starts[i];
        }
        i = i - 1;
    }
    if time_le(starts[0], t) {
        starts[0]
    } else {
        starts[9]
    }
}

/// The position of `s` in the slot list, or the list's length when `s` is not
/// a recognized slot, scanning from position `i` on.
pub open spec fn slot_index_from(s: TimeOfDay, i: int) -> int
    decreases slot_count() - i,
{
    if i < 0 || i >= slot_count() {
        slot_count()
    } else if slots()[i] == s {
        i
    } else {
        slot_index_from(s, i + 1)
    }
}

/// The position of `s` in the slot list, or the list's length when `s` is not
/// a recognized slot.
pub open spec fn slot_index(s: TimeOfDay) -> int {
    slot_index_from(s, 0)
}

/// The slot after `s`, wrapping from the last slot to the first; an
/// unrecognized slot counts as the last one.
pub open spec fn next_slot_spec(s: TimeOfDay) -> TimeOfDay {
    if slot_index(s) >= slot_count() - 1 {
        slots()[0]
    } else {
        slots()[slot_index(s) + 1]
    }
}

/// The slot before `s`, wrapping from the first slot to the last; an
/// unrecognized slot counts as the last one.
pub open spec fn prev_slot_spec(s: TimeOfDay) -> TimeOfDay {
    if slot_index(s) == 0 {
        slots()[slot_count() - 1]
    } else if slot_index(s) >= slot_count() {
        slots()[slot_count() - 2]
    } else {
        slots()[slot_index(s) - 1]
    }
}

/// Cyclic successor of a slot.
pub fn next_slot(s: TimeOfDay) -> (r: TimeOfDay)
    ensures
        r == next_slot_spec(s),
{
    let starts = lesson_starts();
    let mut i: usize = 0;
    while i < 10
        invariant
            i <= 10,
            starts@ == slots(),
            slot_index(s) == slot_index_from(s, i as int),
        decreases 10 - i,
    {
        if starts[i] == s {
            if i >= 9 {
                return starts[0];
            } else {
                return starts[i + 1];
            }
        }
        i = i + 1;
    }
    starts[0]
}

/// Cyclic predecessor of a slot.
pub fn prev_slot(s: TimeOfDay) -> (r: TimeOfDay)
    ensures
        r == prev_slot_spec(s),
{
    let starts = lesson_starts();
    let mut i: usize = 0;
    while i < 10
        invariant
            i <= 10,
            starts@ == slots(),
            slot_index(s) == slot_index_from(s, i as int),
        decreases 10 - i,
    {
        if starts[i] == s {
            if i == 0 {
                return starts[9];
            } else {
                return starts[i - 1];
            }
        }
        i = i + 1;
    }
    starts[8]
}

/// The slot after the latest slot at or before `t`.
pub fn get_next_lesson(t: TimeOfDay) -> (r: TimeOfDay)
    ensures
        r == next_slot_spec(nearest_slot_at_or_before(t)),
{
    next_slot(get_last_lesson_t(t))
}

/// The slot before the latest slot at or before `t`.
pub fn get_prev_lesson(t: TimeOfDay) -> (r: TimeOfDay)
    ensures
        r == prev_slot_spec(nearest_slot_at_or_before(t)),
{
    prev_slot(get_last_lesson_t(t))
}

/// Every recognized slot sits at its own position in the list.
pub proof fn lemma_slot_index_of(i: int)
    requires
        0 <= i < slot_count(),
    ensures
        slot_index(slots()[i]) == i,
{
    reveal_with_fuel(slot_index_from, 11);
}

/// Moving the cursor forward and then back, or back and then forward, returns
/// to the same slot.
pub proof fn lemma_cursor_round_trip(s: TimeOfDay)
    requires
        slots().contains(s),
    ensures
        prev_slot_spec(next_slot_spec(s)) == s,
        next_slot_spec(prev_slot_spec(s)) == s,
{
    let i = choose|i: int| 0 <= i < slots().len() && slots()[i] == s;
    lemma_slot_index_of(i);
    if i < 9 {
        lemma_slot_index_of(i + 1);
    } else {
        lemma_slot_index_of(0);
    }
    if i > 0 {
        lemma_slot_index_of(i - 1);
    } else {
        lemma_slot_index_of(9);
    }
}

/// Every slot of the fixed list is a well-formed time of day.
pub proof fn lemma_slots_wf()
    ensures
        forall|i: int| 0 <= i < slot_count() ==> (#[trigger] slots()[i]).wf(),
{
    assert forall|i: int| 0 <= i < slot_count() implies (#[trigger] slots()[i]).wf() by {
        assert(slots()[0].wf());
        assert(slots()[1].wf());
        assert(slots()[2].wf());
        assert(slots()[3].wf());
        assert(slots()[4].wf());
        assert(slots()[5].wf());
        assert(slots()[6].wf());
        assert(slots()[7].wf());
        assert(slots()[8].wf());
        assert(slots()[9].wf());
    }
}

/// Every slot the strictly-before lookup yields, over slots `0..=i`, is in
/// the slot list.
pub proof fn lemma_nearest_lt_from_in_slots(t: TimeOfDay, i: int)
    requires
        0 <= i < slot_count(),
    ensures
        slots().contains(nearest_lt_from(t, i)),
    decreases i,
{
    if i == 0 || slots()[i].spec_lt(t) {
        assert(slots()[slot_count() - 1] == slots()[9]);
    } else {
        lemma_nearest_lt_from_in_slots(t, i - 1);
    }
}

/// The strictly-before lookup always yields a slot of the fixed list.
pub proof fn lemma_nearest_before_in_slots(t: TimeOfDay)
    ensures
        slots().contains(nearest_slot_before(t)),
{
    lemma_nearest_lt_from_in_slots(t, slot_count() - 1);
}

/// The latest slot strictly before `t`; if `t` is at or before every slot,
/// the last slot of the day.
pub fn last_lesson_before(t: TimeOfDay) -> (r: TimeOfDay)
    ensures
        r == nearest_slot_before(t),
{
    let starts = lesson_starts();
    let mut i: usize = 9;
    while i > 0
        invariant
            i <= 9,
            starts@ == slots(),
            nearest_slot_before(t) == nearest_lt_from(t, i as int),
        decreases i,
    {
        if time_lt(starts[i], t) {
            return starts[i];
        }
        i = i - 1;
    }
    if time_lt(starts[0], t) {
        starts[0]
    } else {
        starts[9]
    }
}

/// The cursor wraps: after the last slot comes the first, before the first
/// slot comes the last.
pub proof fn lemma_cursor_wrap()
    ensures
        next_slot_spec(slots()[slot_count() - 1]) == slots()[0],
        prev_slot_spec(slots()[0]) == slots()[slot_count() - 1],
{
    lemma_slot_index_of(0);
    lemma_slot_index_of(9);
}

/// A calendar date in the proleptic Gregorian calendar, years 0 through 9999.
#[derive(Clone, Copy, Debug, PartialEq, Eq, Structural)]
pub struct Date {
    pub year: u32,
    pub month: u32,
    pub day: u32,
}

/// The Gregorian leap-year rule.
pub open spec fn is_leap_year(y: int) -> bool {
    y % 4 == 0 && (y % 100 != 0 || y % 400 == 0)
}

/// How many days month `m` of year `y` has.
pub open spec fn spec_days_in_month(y: int, m: int) -> int {
    if m == 2 {
        if is_leap_year(y) {
            29
        } else {
            28
        }
    } else if m == 4 || m == 6 || m == 9 || m == 11 {
        30
    } else {
        31
    }
}

impl Date {
    /// A real calendar date within the supported year range.
    pub open spec fn wf(self) -> bool {
        self.year <= 9999 && 1 <= self.month <= 12 && 1 <= self.day
            && self.day <= spec_days_in_month(self.year as int, self.month as int)
    }

    /// Chronological strict order (lexicographic on year, month, day).
    pub open spec fn spec_lt(self, other: Date) -> bool {
        self.year < other.year || (self.year == other.year && (self.month < other.month || (
        self.month == other.month && self.day < other.day)))
    }
}

/// Chronologically strictly earlier.
pub fn date_lt(a: Date, b: Date) -> (r: bool)
    ensures
        r == a.spec_lt(b),
{
    a.year < b.year || (a.year == b.year && (a.month < b.month || (a.month == b.month && a.day
        < b.day)))
}

/// How many days month `month` of year `year` has.
pub fn days_in_month(year: u32, month: u32) -> (r: u32)
    ensures
        r == spec_days_in_month(year as int, month as int),
{
    if month == 2 {
        if year % 4 == 0 && (year % 100 != 0 || year % 400 == 0) {
            29
        } else {
            28
        }
    } else if month == 4 || month == 6 || month == 9 || month == 11 {
        30
    } else {
        31
    }
}

/// The day after `d`.
pub open spec fn next_date_spec(d: Date) -> Date {
    if d.day < spec_days_in_month(d.year as int, d.month as int) {
        Date { year: d.year, month: d.month, day: (d.day + 1) as u32 }
    } else if d.month < 12 {
        Date { year: d.year, month: (d.month + 1) as u32, day: 1 }
    } else {
        Date { year: (d.year + 1) as u32, month: 1, day: 1 }
    }
}

/// The day before `d`.
pub open spec fn prev_date_spec(d: Date) -> Date {
    if d.day > 1 {
        Date { year: d.year, month: d.month, day: (d.day - 1) as u32 }
    } else if d.month > 1 {
        Date {
            year: d.year,
            month: (d.month - 1) as u32,
            day: spec_days_in_month(d.year as int, d.month as int - 1) as u32,
        }
    } else {
        Date { year: (d.year - 1) as u32, month: 12, day: 31 }
    }
}

/// The day after `d`; the last supported date has no successor.
pub fn next_date(d: Date) -> (r: Date)
    requires
        d.wf(),
        !(d.year == 9999 && d.month == 12 && d.day == 31),
    ensures
        r == next_date_spec(d),
        r.wf(),
{
    let dim = days_in_month(d.year, d.month);
    if d.day < dim {
        Date { year: d.year, month: d.month, day: d.day + 1 }
    } else if d.month < 12 {
        Date { year: d.year, month: d.month + 1, day: 1 }
    } else {
        Date { year: d.year + 1, month: 1, day: 1 }
    }
}

/// The day before `d`; the first supported date has no predecessor.
pub fn prev_date(d: Date) -> (r: Date)
    requires
        d.wf(),
        !(d.year == 0 && d.month == 1 && d.day == 1),
    ensures
        r == prev_date_spec(d),
        r.wf(),
{
    if d.day > 1 {
        Date { year: d.year, month: d.month, day: d.day - 1 }
    } else if d.month > 1 {
        let dim = days_in_month(d.year, d.month - 1);
        Date { year: d.year, month: d.month - 1, day: dim }
    } else {
        Date { year: d.year - 1, month: 12, day: 31 }
    }
}

/// Relies on chrono's `Local::now` and `Timelike` on `NaiveTime`: `hour` is
/// in 0..=23, `minute` in 0..=59 and `second` in 0..=59 (never 60, even in a
/// leap second).
#[verifier::external_body]
fn now_time_parts() -> (r: (u32, u32, u32))
    ensures
        r.0 < 24,
        r.1 < 60,
        r.2 < 60,
{
    let t = chrono::Local::now().time();
    (t.hour(), t.minute(), t.second())
}

/// Relies on chrono's `Local::now` and `Datelike` on `NaiveDate`: `month` is
/// in 1..=12 and `day` in 1..=31.
#[verifier::external_body]
fn now_date_parts() -> (r: (i32, u32, u32))
    ensures
        1 <= r.1 <= 12,
        1 <= r.2 <= 31,
{
    let d = chrono::Local::now().date_naive();
    (d.year(), d.month(), d.day())
}

/// The current local wall-clock time.
pub fn now_time() -> (r: TimeOfDay)
    ensures
        r.wf(),
{
    let (h, m, s) = now_time_parts();
    TimeOfDay { hour: h, minute: m, second: s }
}

/// Today's date by the local clock; a date outside the supported range is
/// moved to its nearest supported one.
pub fn get_today() -> (r: Date)
    ensures
        r.wf(),
{
    let (y, m, d) = now_date_parts();
    let year: u32 = if y < 0 {
        0
    } else if y > 9999 {
        9999
    } else {
        y as u32
    };
    let dim = days_in_month(year, m);
    let day = if d > dim {
        dim
    } else {
        d
    };
    Date { year, month: m, day }
}

/// The latest slot strictly before the current local time; the last slot of
/// the day when the first lesson has not started yet.
pub fn get_last_lesson() -> (r: TimeOfDay)
    ensures
        slots().contains(r),
        exists|t: TimeOfDay| t.wf() && r == nearest_slot_before(t),
{
    let t = now_time();
    let r = last_lesson_before(t);
    proof {
        lemma_nearest_before_in_slots(t);
        assert(t.wf() && r == nearest_slot_before(t));
    }
    r
}

} // verus!
