//! The record store: the fixed rosters of persons and subjects, tardiness
//! and absence records, and the store's query and mutation primitives.
use crate::time::get_last_lesson;
use crate::time::get_today;
use crate::time::last_lesson_before;
use crate::time::nearest_slot_before;
use crate::time::slots;
use crate::time::Date;
use crate::time::TimeOfDay;
use vstd::prelude::*;

verus! {

/// The fixed roster of persons records can be about.
#[derive(Clone, Copy, Debug, PartialEq, Eq, Structural)]
pub enum Class {
    Nicole,
    Sophia,
    Emily,
    Leander,
    Suya,
    Jan,
    Liam,
    Evelin,
    Isabelle,
    Anina,
    Carlo,
    Levin,
    Anne,
    Kilian,
    Jonah,
    Ida,
    Neda,
    Antonie,
    Laurin,
    Marija,
    Raphael,
    Elena,
    Luis,
    Mia,
    Marie,
}

/// The fixed roster of lessons (subjects).
#[derive(Clone, Copy, Debug, PartialEq, Eq, Structural)]
pub enum Lesson {
    Mathe,
    Bio,
    Deutsch,
    Physik,
    Franzoesisch,
    Italienisch,
    Geschichte,
    Englisch,
    Chemie,
    Sport,
    BG,
    Musik,
    Griechisch,
    Geographie,
}

/// How many persons the roster has.
pub open spec fn class_count() -> int {
    25
}

/// How many lessons the roster has.
pub open spec fn lesson_count() -> int {
    14
}

/// The persons in display order (alphabetical by name).
pub open spec fn class_seq() -> Seq<Class> {
    seq![
        Class::Anina,
        Class::Anne,
        Class::Antonie,
        Class::Carlo,
        Class::Elena,
        Class::Emily,
        Class::Evelin,
        Class::Ida,
        Class::Isabelle,
        Class::Jan,
        Class::Jonah,
        Class::Kilian,
        Class::Laurin,
        Class::Leander,
        Class::Levin,
        Class::Liam,
        Class::Luis,
        Class::Marie,
        Class::Marija,
        Class::Mia,
        Class::Neda,
        Class::Nicole,
        Class::Raphael,
        Class::Sophia,
        Class::Suya,
    ]
}

/// The lessons in display order.
pub open spec fn lesson_seq() -> Seq<Lesson> {
    seq![
        Lesson::Mathe,
        Lesson::Bio,
        Lesson::Deutsch,
        Lesson::Physik,
        Lesson::Franzoesisch,
        Lesson::Italienisch,
        Lesson::Geschichte,
        Lesson::Englisch,
        Lesson::Chemie,
        Lesson::Sport,
        Lesson::BG,
        Lesson::Musik,
        Lesson::Griechisch,
        Lesson::Geographie,
    ]
}

impl Class {
    /// All persons, in display order.
    pub fn all() -> (r: Vec<Class>)
        ensures
            r@ == class_seq(),
    {
        let mut v: Vec<Class> = Vec::new();
        v.push(Class::Anina);
        v.push(Class::Anne);
        v.push(Class::Antonie);
        v.push(Class::Carlo);
        v.push(Class::Elena);
        v.push(Class::Emily);
        v.push(Class::Evelin);
        v.push(Class::Ida);
        v.push(Class::Isabelle);
        v.push(Class::Jan);
        v.push(Class::Jonah);
        v.push(Class::Kilian);
        v.push(Class::Laurin);
        v.push(Class::Leander);
        v.push(Class::Levin);
        v.push(Class::Liam);
        v.push(Class::Luis);
        v.push(Class::Marie);
        v.push(Class::Marija);
        v.push(Class::Mia);
        v.push(Class::Neda);
        v.push(Class::Nicole);
        v.push(Class::Raphael);
        v.push(Class::Sophia);
        v.push(Class::Suya);
        proof {
            assert(v@ =~= class_seq());
        }
        v
    }
}

impl Lesson {
    /// All lessons, in display order.
    pub fn all() -> (r: Vec<Lesson>)
        ensures
            r@ == lesson_seq(),
    {
        let mut v: Vec<Lesson> = Vec::new();
        v.push(Lesson::Mathe);
        v.push(Lesson::Bio);
        v.push(Lesson::Deutsch);
        v.push(Lesson::Physik);
        v.push(Lesson::Franzoesisch);
        v.push(Lesson::Italienisch);
        v.push(Lesson::Geschichte);
        v.push(Lesson::Englisch);
        v.push(Lesson::Chemie);
        v.push(Lesson::Sport);
        v.push(Lesson::BG);
        v.push(Lesson::Musik);
        v.push(Lesson::Griechisch);
        v.push(Lesson::Geographie);
        proof {
            assert(v@ =~= lesson_seq());
        }
        v
    }
}

/// The store could not be read or written, or its text could not be decoded.
#[derive(Clone, Copy, Debug, PartialEq, Eq, Structural)]
pub struct DataBaseError;

/// One logged tardiness: a person arriving late to one lesson on one date.
#[derive(Clone, Copy, Debug, PartialEq, Eq, Structural)]
pub struct Entry {
    pub person: Class,
    pub lesson: Lesson,
    pub lesson_time: TimeOfDay,
    pub delay_min: u32,
    pub first_lesson: bool,
    pub date: Date,
}

impl Entry {
    /// The record's time and date are well-formed.
    pub open spec fn wf(self) -> bool {
        self.lesson_time.wf() && self.date.wf()
    }

    /// A fresh blank record: no delay, dated today at the last lesson that
    /// already started.
    pub fn empty() -> (r: Entry)
        ensures
            r.person == Class::Marie,
            r.lesson == Lesson::BG,
            slots().contains(r.lesson_time),
            r.delay_min == 0,
            !r.first_lesson,
            r.date.wf(),
            r.wf(),
    {
        let lesson_time = get_last_lesson();
        let date = get_today();
        proof {
            crate::time::lemma_slots_wf();
        }
        Entry {
            person: Class::Marie,
            lesson: Lesson::BG,
            lesson_time,
            delay_min: 0,
            first_lesson: false,
            date,
        }
    }
}

/// One logged lesson roster: who was present in one lesson on one date.
#[derive(Clone, Debug, PartialEq)]
pub struct LessonAbs {
    pub present: Vec<Class>,
    pub lesson: Lesson,
    pub lesson_time: TimeOfDay,
    pub first_lesson: bool,
    pub date: Date,
}

impl LessonAbs {
    /// The record's time and date are well-formed.
    pub open spec fn wf(self) -> bool {
        self.lesson_time.wf() && self.date.wf()
    }

    /// A fresh roster for the given clock reading: everybody present, the
    /// default lesson, the last slot that started strictly before `now`.
    pub fn new_at(now: TimeOfDay, today: Date) -> (r: LessonAbs)
        requires
            today.wf(),
        ensures
            r.present@ == class_seq(),
            r.lesson == Lesson::BG,
            r.lesson_time == nearest_slot_before(now),
            !r.first_lesson,
            r.date == today,
            r.wf(),
    {
        let lesson_time = last_lesson_before(now);
        proof {
            crate::time::lemma_nearest_before_in_slots(now);
            crate::time::lemma_slots_wf();
        }
        LessonAbs {
            present: Class::all(),
            lesson: Lesson::BG,
            lesson_time,
            first_lesson: false,
            date: today,
        }
    }

    /// A fresh roster by the local clock: everybody present, the default
    /// lesson, the last slot that already started, dated today.
    pub fn new() -> (r: LessonAbs)
        ensures
            r.present@ == class_seq(),
            r.lesson == Lesson::BG,
            slots().contains(r.lesson_time),
            !r.first_lesson,
            r.date.wf(),
            r.wf(),
    {
        let now = crate::time::now_time();
        let today = get_today();
        let r = Self::new_at(now, today);
        proof {
            crate::time::lemma_nearest_before_in_slots(now);
        }
        r
    }

    /// A fresh roster for the given clock reading that carries the present
    /// list and the lesson forward from the most recent prior roster; time
    /// and date are always freshly computed.
    pub fn new_smart_at(absences: &Vec<LessonAbs>, now: TimeOfDay, today: Date) -> (r: LessonAbs)
        requires
            today.wf(),
        ensures
            absences@.len() == 0 ==> r.present@ == class_seq() && r.lesson == Lesson::BG,
            absences@.len() > 0 ==> r.present@ == absences@.last().present@ && r.lesson
                == absences@.last().lesson,
            r.lesson_time == nearest_slot_before(now),
            !r.first_lesson,
            r.date == today,
            r.wf(),
    {
        let mut l = Self::new_at(now, today);
        if absences.len() > 0 {
            l.present = absences[absences.len() - 1].present.clone();
            l.lesson = absences[absences.len() - 1].lesson;
        }
        l
    }

    /// A fresh roster by the local clock that carries the present list and
    /// the lesson forward from the most recent prior roster.
    pub fn new_smart(absences: &Vec<LessonAbs>) -> (r: LessonAbs)
        ensures
            absences@.len() == 0 ==> r.present@ == class_seq() && r.lesson == Lesson::BG,
            absences@.len() > 0 ==> r.present@ == absences@.last().present@ && r.lesson
                == absences@.last().lesson,
            slots().contains(r.lesson_time),
            !r.first_lesson,
            r.date.wf(),
            r.wf(),
    {
        let now = crate::time::now_time();
        let today = get_today();
        let r = Self::new_smart_at(absences, now, today);
        proof {
            crate::time::lemma_nearest_before_in_slots(now);
        }
        r
    }

    /// Marks `person` absent when present, and present when absent.
    pub fn toggle_person(&mut self, person: Class)
        ensures
            old(self).present@.contains(person) ==> final (self).present@ == old(
                self,
            ).present@.filter(|p: Class| p != person),
            !old(self).present@.contains(person) ==> final (self).present@ == old(
                self,
            ).present@.push(person),
            final (self).lesson == old(self).lesson,
            final (self).lesson_time == old(self).lesson_time,
            final (self).first_lesson == old(self).first_lesson,
            final (self).date == old(self).date,
    {
        let mut found = false;
        let mut i: usize = 0;
        while i < self.present.len()
            invariant
                i <= self.present@.len(),
                found == exists|j: int| 0 <= j < i && self.present@[j] == person,
                *self == *old(self),
            decreases self.present@.len() - i,
        {
            if self.present[i] == person {
                found = true;
            }
            i = i + 1;
        }
        if found {
            let mut kept: Vec<Class> = Vec::new();
            let mut k: usize = 0;
            proof {
                reveal(Seq::filter);
                assert(self.present@.take(0) =~= Seq::<Class>::empty());
            }
            while k < self.present.len()
                invariant
                    k <= self.present@.len(),
                    kept@ == self.present@.take(k as int).filter(|p: Class| p != person),
                    *self == *old(self),
                decreases self.present@.len() - k,
            {
                let p = self.present[k];
                proof {
                    reveal(Seq::filter);
                    assert(self.present@.take(k + 1).drop_last() =~= self.present@.take(k as int));
                    assert(self.present@.take(k + 1).last() == p);
                }
                if !(p == person) {
                    kept.push(p);
                }
                k = k + 1;
            }
            proof {
                assert(self.present@.take(self.present@.len() as int) =~= self.present@);
            }
            self.present = kept;
        } else {
            self.present.push(person);
        }
    }
}

/// The in-memory record store: all tardiness records and all absence
/// rosters, each in insertion order.
#[derive(Clone, Debug, PartialEq)]
pub struct DataBase {
    pub data: Vec<Entry>,
    pub absences: Vec<LessonAbs>,
}

impl DataBase {
    /// A store with no records at all.
    pub fn empty() -> (r: DataBase)
        ensures
            r.data@ == Seq::<Entry>::empty(),
            r.absences@ == Seq::<LessonAbs>::empty(),
    {
        DataBase { data: Vec::new(), absences: Vec::new() }
    }

    /// Appends a tardiness record.
    pub fn add_entry(&mut self, e: Entry)
        ensures
            final (self).data@ == old(self).data@.push(e),
            final (self).absences@ == old(self).absences@,
    {
        self.data.push(e);
    }

    /// Appends an absence roster.
    pub fn add_absence(&mut self, a: LessonAbs)
        ensures
            final (self).data@ == old(self).data@,
            final (self).absences@ == old(self).absences@.push(a),
    {
        self.absences.push(a);
    }

    /// Removes every record from the store.
    pub fn clear(&mut self)
        ensures
            final (self).data@ == Seq::<Entry>::empty(),
            final (self).absences@ == Seq::<LessonAbs>::empty(),
    {
        self.data = Vec::new();
        self.absences = Vec::new();
    }

    /// Removes the first tardiness record that equals `e` in every field;
    /// leaves the store unchanged when none does.
    pub fn remove_first_matching(&mut self, e: &Entry)
        ensures
            (forall|j: int| 0 <= j < old(self).data@.len() ==> old(self).data@[j] != *e) ==> final (
            self).data@ == old(self).data@,
            forall|i: int|
                0 <= i < old(self).data@.len() && old(self).data@[i] == *e && (forall|j: int|
                    0 <= j < i ==> old(self).data@[j] != *e) ==> final (self).data@ == old(
                self,
                ).data@.remove(i),
            final (self).absences@ == old(self).absences@,
    {
        let mut i: usize = 0;
        while i < self.data.len()
            invariant
                i <= self.data@.len(),
                forall|j: int| 0 <= j < i ==> self.data@[j] != *e,
                *self == *old(self),
            decreases self.data@.len() - i,
        {
            if self.data[i] == *e {
                self.data.remove(i);
                return ;
            }
            i = i + 1;
        }
    }
}

/// How many records in `s` are about person `c`.
pub open spec fn count_person(s: Seq<Entry>, c: Class) -> nat
    decreases s.len(),
{
    if s.len() == 0 {
        0
    } else {
        count_person(s.drop_last(), c) + if s.last().person == c {
            1nat
        } else {
            0nat
        }
    }
}

/// How many records in `s` are about lesson `l`.
pub open spec fn count_lesson(s: Seq<Entry>, l: Lesson) -> nat
    decreases s.len(),
{
    if s.len() == 0 {
        0
    } else {
        count_lesson(s.drop_last(), l) + if s.last().lesson == l {
            1nat
        } else {
            0nat
        }
    }
}

/// The summed delay minutes of all records in `s`.
pub open spec fn sum_delays(s: Seq<Entry>) -> nat
    decreases s.len(),
{
    if s.len() == 0 {
        0
    } else {
        sum_delays(s.drop_last()) + s.last().delay_min as nat
    }
}

/// The summed delay minutes of the records about person `c`.
pub open spec fn sum_person_delays(s: Seq<Entry>, c: Class) -> nat
    decreases s.len(),
{
    if s.len() == 0 {
        0
    } else {
        sum_person_delays(s.drop_last(), c) + if s.last().person == c {
            s.last().delay_min as nat
        } else {
            0nat
        }
    }
}

/// The summed delay minutes of the records about lesson `l`.
pub open spec fn sum_lesson_delays(s: Seq<Entry>, l: Lesson) -> nat
    decreases s.len(),
{
    if s.len() == 0 {
        0
    } else {
        sum_lesson_delays(s.drop_last(), l) + if s.last().lesson == l {
            s.last().delay_min as nat
        } else {
            0nat
        }
    }
}

/// How many records in `s` were a first lesson of the day.
pub open spec fn count_first_lesson(s: Seq<Entry>) -> nat
    decreases s.len(),
{
    if s.len() == 0 {
        0
    } else {
        count_first_lesson(s.drop_last()) + if s.last().first_lesson {
            1nat
        } else {
            0nat
        }
    }
}

/// How many records about person `c` were a first lesson of the day.
pub open spec fn count_first_lesson_person(s: Seq<Entry>, c: Class) -> nat
    decreases s.len(),
{
    if s.len() == 0 {
        0
    } else {
        count_first_lesson_person(s.drop_last(), c) + if s.last().person == c
            && s.last().first_lesson {
            1nat
        } else {
            0nat
        }
    }
}

/// The smallest delay in `s`, or nothing when `s` is empty.
pub open spec fn min_delay_spec(s: Seq<Entry>) -> Option<u32>
    decreases s.len(),
{
    if s.len() == 0 {
        None
    } else {
        match min_delay_spec(s.drop_last()) {
            None => Some(s.last().delay_min),
            Some(m) => Some(
                if s.last().delay_min < m {
                    s.last().delay_min
                } else {
                    m
                },
            ),
        }
    }
}

/// The largest delay in `s`, or nothing when `s` is empty.
pub open spec fn max_delay_spec(s: Seq<Entry>) -> Option<u32>
    decreases s.len(),
{
    if s.len() == 0 {
        None
    } else {
        match max_delay_spec(s.drop_last()) {
            None => Some(s.last().delay_min),
            Some(m) => Some(
                if s.last().delay_min > m {
                    s.last().delay_min
                } else {
                    m
                },
            ),
        }
    }
}

/// The smallest delay among the records about person `c`.
pub open spec fn min_delay_person_spec(s: Seq<Entry>, c: Class) -> Option<u32>
    decreases s.len(),
{
    if s.len() == 0 {
        None
    } else {
        let prev = min_delay_person_spec(s.drop_last(), c);
        if s.last().person != c {
            prev
        } else {
            match prev {
                None => Some(s.last().delay_min),
                Some(m) => Some(
                    if s.last().delay_min < m {
                        s.last().delay_min
                    } else {
                        m
                    },
                ),
            }
        }
    }
}

/// The largest delay among the records about person `c`.
pub open spec fn max_delay_person_spec(s: Seq<Entry>, c: Class) -> Option<u32>
    decreases s.len(),
{
    if s.len() == 0 {
        None
    } else {
        let prev = max_delay_person_spec(s.drop_last(), c);
        if s.last().person != c {
            prev
        } else {
            match prev {
                None => Some(s.last().delay_min),
                Some(m) => Some(
                    if s.last().delay_min > m {
                        s.last().delay_min
                    } else {
                        m
                    },
                ),
            }
        }
    }
}

/// The most recent record about person `c`, scanning in insertion order: a
/// later record replaces the running best only when its date is strictly
/// greater, or its date is equal and its time of day strictly greater.
pub open spec fn latest_of(s: Seq<Entry>, c: Class) -> Option<Entry>
    decreases s.len(),
{
    if s.len() == 0 {
        None
    } else {
        let prev = latest_of(s.drop_last(), c);
        let e = s.last();
        if e.person != c {
            prev
        } else {
            match prev {
                None => Some(e),
                Some(b) => if b.date.spec_lt(e.date) || (b.date == e.date && b.lesson_time.spec_lt(
                    e.lesson_time,
                )) {
                    Some(e)
                } else {
                    Some(b)
                },
            }
        }
    }
}

/// The share of `num` in `den` as a whole percentage, rounded to the nearest
/// integer (half rounds up); 0 when `den` is 0.
pub open spec fn percent_round(num: int, den: int) -> int {
    if den <= 0 {
        0
    } else {
        (200 * num + den) / (2 * den)
    }
}

/// A rounded whole percentage of a part lies between 0 and 100.
pub proof fn lemma_percent_round_le_100(num: int, den: int)
    requires
        0 <= num <= den,
    ensures
        0 <= percent_round(num, den) <= 100,
{
    if den > 0 {
        assert((200 * num + den) / (2 * den) <= 100) by (nonlinear_arith)
            requires
                0 <= num <= den,
                den > 0,
        ;
        assert((200 * num + den) / (2 * den) >= 0) by (nonlinear_arith)
            requires
                0 <= num <= den,
                den > 0,
        ;
    }
}

/// A whole percentage of a part, rounded toward zero, lies between 0 and 100.
pub proof fn lemma_part_le_100(num: int, den: int)
    requires
        0 <= num <= den,
        den > 0,
    ensures
        0 <= 100 * num / den <= 100,
{
    assert(100 * num / den <= 100) by (nonlinear_arith)
        requires
            0 <= num <= den,
            den > 0,
    ;
    assert(100 * num / den >= 0) by (nonlinear_arith)
        requires
            0 <= num,
            den > 0,
    ;
}

/// Over an empty store every per-person aggregate is empty: zero counts,
/// zero sums, and no smallest, largest or most recent record.
pub proof fn lemma_profile_stats_empty(c: Class)
    ensures
        count_person(Seq::<Entry>::empty(), c) == 0,
        sum_person_delays(Seq::<Entry>::empty(), c) == 0,
        count_first_lesson_person(Seq::<Entry>::empty(), c) == 0,
        min_delay_person_spec(Seq::<Entry>::empty(), c) is None,
        max_delay_person_spec(Seq::<Entry>::empty(), c) is None,
        latest_of(Seq::<Entry>::empty(), c) is None,
{
}

/// No person has more records than the store holds.
pub proof fn lemma_count_person_le_len(s: Seq<Entry>, c: Class)
    ensures
        count_person(s, c) <= s.len(),
    decreases s.len(),
{
    if s.len() > 0 {
        lemma_count_person_le_len(s.drop_last(), c);
    }
}

/// No lesson has more records than the store holds.
pub proof fn lemma_count_lesson_le_len(s: Seq<Entry>, l: Lesson)
    ensures
        count_lesson(s, l) <= s.len(),
    decreases s.len(),
{
    if s.len() > 0 {
        lemma_count_lesson_le_len(s.drop_last(), l);
    }
}

/// There are no more first-lesson records than records.
pub proof fn lemma_count_first_le_len(s: Seq<Entry>)
    ensures
        count_first_lesson(s) <= s.len(),
    decreases s.len(),
{
    if s.len() > 0 {
        lemma_count_first_le_len(s.drop_last());
    }
}

/// A person's first-lesson records are among that person's records.
pub proof fn lemma_count_first_person_le_count(s: Seq<Entry>, c: Class)
    ensures
        count_first_lesson_person(s, c) <= count_person(s, c),
    decreases s.len(),
{
    if s.len() > 0 {
        lemma_count_first_person_le_count(s.drop_last(), c);
    }
}

/// A person's summed delay is at most the store's summed delay.
pub proof fn lemma_sum_person_le_total(s: Seq<Entry>, c: Class)
    ensures
        sum_person_delays(s, c) <= sum_delays(s),
    decreases s.len(),
{
    if s.len() > 0 {
        lemma_sum_person_le_total(s.drop_last(), c);
    }
}

/// A lesson's summed delay is at most the store's summed delay.
pub proof fn lemma_sum_lesson_le_total(s: Seq<Entry>, l: Lesson)
    ensures
        sum_lesson_delays(s, l) <= sum_delays(s),
    decreases s.len(),
{
    if s.len() > 0 {
        lemma_sum_lesson_le_total(s.drop_last(), l);
    }
}

/// The summed delay over a prefix is at most the summed delay over the whole.
pub proof fn lemma_sum_delays_take_le(s: Seq<Entry>, i: int)
    requires
        0 <= i <= s.len(),
    ensures
        sum_delays(s.take(i)) <= sum_delays(s),
    decreases s.len(),
{
    if i == s.len() {
        assert(s.take(i) =~= s);
    } else if s.len() > 0 {
        assert(s.drop_last().take(i) =~= s.take(i));
        lemma_sum_delays_take_le(s.drop_last(), i);
    }
}

/// A person's summed delay over a prefix is at most the store's summed delay.
pub proof fn lemma_sum_person_take_le(s: Seq<Entry>, c: Class, i: int)
    requires
        0 <= i <= s.len(),
    ensures
        sum_person_delays(s.take(i), c) <= sum_delays(s),
    decreases s.len(),
{
    if i == s.len() {
        assert(s.take(i) =~= s);
        lemma_sum_person_le_total(s, c);
    } else if s.len() > 0 {
        assert(s.drop_last().take(i) =~= s.take(i));
        lemma_sum_person_take_le(s.drop_last(), c, i);
    }
}

/// A lesson's summed delay over a prefix is at most the store's summed delay.
pub proof fn lemma_sum_lesson_take_le(s: Seq<Entry>, l: Lesson, i: int)
    requires
        0 <= i <= s.len(),
    ensures
        sum_lesson_delays(s.take(i), l) <= sum_delays(s),
    decreases s.len(),
{
    if i == s.len() {
        assert(s.take(i) =~= s);
        lemma_sum_lesson_le_total(s, l);
    } else if s.len() > 0 {
        assert(s.drop_last().take(i) =~= s.take(i));
        lemma_sum_lesson_take_le(s.drop_last(), l, i);
    }
}

/// The per-person record counts, summed over a list of persons, each taken
/// once per occurrence in the list.
pub open spec fn sum_counts_over(classes: Seq<Class>, s: Seq<Entry>) -> nat
    decreases classes.len(),
{
    if classes.len() == 0 {
        0
    } else {
        count_person(s, classes[0]) + sum_counts_over(classes.drop_first(), s)
    }
}

/// The per-person penalties (record count divided by three, rounded down),
/// summed over a list of persons.
pub open spec fn sum_penalties_over(classes: Seq<Class>, s: Seq<Entry>) -> nat
    decreases classes.len(),
{
    if classes.len() == 0 {
        0
    } else {
        count_person(s, classes[0]) / 3 + sum_penalties_over(classes.drop_first(), s)
    }
}

/// How often `c` occurs in a list of persons.
pub open spec fn count_occ(classes: Seq<Class>, c: Class) -> nat
    decreases classes.len(),
{
    if classes.len() == 0 {
        0
    } else {
        (if classes[0] == c {
            1nat
        } else {
            0nat
        }) + count_occ(classes.drop_first(), c)
    }
}

/// How often `l` occurs in a list of lessons.
pub open spec fn count_occ_lesson(lessons: Seq<Lesson>, l: Lesson) -> nat
    decreases lessons.len(),
{
    if lessons.len() == 0 {
        0
    } else {
        (if lessons[0] == l {
            1nat
        } else {
            0nat
        }) + count_occ_lesson(lessons.drop_first(), l)
    }
}

/// Every lesson occurs exactly once in the display order.
pub proof fn lemma_count_occ_lesson_seq(l: Lesson)
    ensures
        count_occ_lesson(lesson_seq(), l) == 1,
{
    reveal_with_fuel(count_occ_lesson, 16);
}

/// Summed counts over an empty store are zero.
pub proof fn lemma_sum_counts_over_empty(classes: Seq<Class>, s: Seq<Entry>)
    requires
        s.len() == 0,
    ensures
        sum_counts_over(classes, s) == 0,
    decreases classes.len(),
{
    if classes.len() > 0 {
        lemma_sum_counts_over_empty(classes.drop_first(), s);
    }
}

/// Appending one record raises the summed counts by the number of times the
/// record's person occurs in the list.
pub proof fn lemma_sum_counts_over_push(classes: Seq<Class>, s: Seq<Entry>, e: Entry)
    ensures
        sum_counts_over(classes, s.push(e)) == sum_counts_over(classes, s) + count_occ(
            classes,
            e.person,
        ),
    decreases classes.len(),
{
    assert(s.push(e).drop_last() =~= s);
    if classes.len() > 0 {
        lemma_sum_counts_over_push(classes.drop_first(), s, e);
    }
}

/// Every person occurs exactly once in the display order.
pub proof fn lemma_count_occ_class_seq(c: Class)
    ensures
        count_occ(class_seq(), c) == 1,
{
    reveal_with_fuel(count_occ, 27);
}

/// Summing the record counts of every person in the display order counts
/// every record exactly once.
pub proof fn lemma_sum_counts_class_seq(s: Seq<Entry>)
    ensures
        sum_counts_over(class_seq(), s) == s.len(),
    decreases s.len(),
{
    if s.len() == 0 {
        lemma_sum_counts_over_empty(class_seq(), s);
    } else {
        let t = s.drop_last();
        let e = s.last();
        lemma_sum_counts_class_seq(t);
        lemma_sum_counts_over_push(class_seq(), t, e);
        lemma_count_occ_class_seq(e.person);
        assert(t.push(e) =~= s);
    }
}

/// Summed penalties never exceed summed counts.
pub proof fn lemma_sum_penalties_le_counts(classes: Seq<Class>, s: Seq<Entry>)
    ensures
        sum_penalties_over(classes, s) <= sum_counts_over(classes, s),
    decreases classes.len(),
{
    if classes.len() > 0 {
        lemma_sum_penalties_le_counts(classes.drop_first(), s);
    }
}

impl DataBase {
    /// Every record of the store carries a well-formed time and date.
    pub open spec fn records_wf(self) -> bool {
        (forall|i: int| 0 <= i < self.data@.len() ==> (#[trigger] self.data@[i]).wf()) && (forall|
            i: int,
        | 0 <= i < self.absences@.len() ==> (#[trigger] self.absences@[i]).wf())
    }

    /// The tardiness list is short enough for every count to fit the machine
    /// integers the queries return.
    pub open spec fn len_bounded(self) -> bool {
        self.data@.len() <= 0xFFFF_FFFF
    }

    /// The tardiness list is short enough, and its total delay small enough,
    /// for every count and sum the queries return to fit machine integers.
    pub open spec fn bounded(self) -> bool {
        self.len_bounded() && sum_delays(self.data@) <= 0xFFFF_FFFF
    }

    /// The total delay minutes over all tardiness records; 0 for an empty
    /// store.
    pub fn sum_min(&self) -> (r: u32)
        requires
            self.bounded(),
        ensures
            r == sum_delays(self.data@),
    {
        let mut sum: u32 = 0;
        let mut i: usize = 0;
        while i < self.data.len()
            invariant
                i <= self.data@.len(),
                self.bounded(),
                sum == sum_delays(self.data@.take(i as int)),
            decreases self.data@.len() - i,
        {
            proof {
                assert(self.data@.take(i + 1).drop_last() =~= self.data@.take(i as int));
                assert(self.data@.take(i + 1).last() == self.data@[i as int]);
                lemma_sum_delays_take_le(self.data@, i + 1);
            }
            sum = sum + self.data[i].delay_min;
            i = i + 1;
        }
        proof {
            assert(self.data@.take(self.data@.len() as int) =~= self.data@);
        }
        sum
    }

    /// The summed delay minutes of one person's records.
    pub fn sum_person(&self, person: Class) -> (r: u32)
        requires
            self.bounded(),
        ensures
            r == sum_person_delays(self.data@, person),
    {
        let mut sum: u32 = 0;
        let mut i: usize = 0;
        while i < self.data.len()
            invariant
                i <= self.data@.len(),
                self.bounded(),
                sum == sum_person_delays(self.data@.take(i as int), person),
            decreases self.data@.len() - i,
        {
            proof {
                assert(self.data@.take(i + 1).drop_last() =~= self.data@.take(i as int));
                assert(self.data@.take(i + 1).last() == self.data@[i as int]);
                lemma_sum_person_take_le(self.data@, person, i + 1);
            }
            if self.data[i].person == person {
                sum = sum + self.data[i].delay_min;
            }
            i = i + 1;
        }
        proof {
            assert(self.data@.take(self.data@.len() as int) =~= self.data@);
        }
        sum
    }

    /// The summed delay minutes of one lesson's records.
    pub fn sum_lesson(&self, lesson: Lesson) -> (r: u32)
        requires
            self.bounded(),
        ensures
            r == sum_lesson_delays(self.data@, lesson),
    {
        let mut sum: u32 = 0;
        let mut i: usize = 0;
        while i < self.data.len()
            invariant
                i <= self.data@.len(),
                self.bounded(),
                sum == sum_lesson_delays(self.data@.take(i as int), lesson),
            decreases self.data@.len() - i,
        {
            proof {
                assert(self.data@.take(i + 1).drop_last() =~= self.data@.take(i as int));
                assert(self.data@.take(i + 1).last() == self.data@[i as int]);
                lemma_sum_lesson_take_le(self.data@, lesson, i + 1);
            }
            if self.data[i].lesson == lesson {
                sum = sum + self.data[i].delay_min;
            }
            i = i + 1;
        }
        proof {
            assert(self.data@.take(self.data@.len() as int) =~= self.data@);
        }
        sum
    }

    /// How many tardiness records one person has.
    pub fn entries_person_num(&self, person: Class) -> (r: u32)
        requires
            self.len_bounded(),
        ensures
            r == count_person(self.data@, person),
    {
        let mut n: u32 = 0;
        let mut i: usize = 0;
        while i < self.data.len()
            invariant
                i <= self.data@.len(),
                self.len_bounded(),
                n == count_person(self.data@.take(i as int), person),
            decreases self.data@.len() - i,
        {
            proof {
                assert(self.data@.take(i + 1).drop_last() =~= self.data@.take(i as int));
                assert(self.data@.take(i + 1).last() == self.data@[i as int]);
                lemma_count_person_le_len(self.data@.take(i + 1), person);
            }
            if self.data[i].person == person {
                n = n + 1;
            }
            i = i + 1;
        }
        proof {
            assert(self.data@.take(self.data@.len() as int) =~= self.data@);
        }
        n
    }

    /// How many tardiness records one lesson has.
    pub fn entries_lesson_num(&self, lesson: Lesson) -> (r: u32)
        requires
            self.len_bounded(),
        ensures
            r == count_lesson(self.data@, lesson),
    {
        let mut n: u32 = 0;
        let mut i: usize = 0;
        while i < self.data.len()
            invariant
                i <= self.data@.len(),
                self.len_bounded(),
                n == count_lesson(self.data@.take(i as int), lesson),
            decreases self.data@.len() - i,
        {
            proof {
                assert(self.data@.take(i + 1).drop_last() =~= self.data@.take(i as int));
                assert(self.data@.take(i + 1).last() == self.data@[i as int]);
                lemma_count_lesson_le_len(self.data@.take(i + 1), lesson);
            }
            if self.data[i].lesson == lesson {
                n = n + 1;
            }
            i = i + 1;
        }
        proof {
            assert(self.data@.take(self.data@.len() as int) =~= self.data@);
        }
        n
    }

    /// The average delay in whole minutes (rounded toward zero); 0 for an
    /// empty store.
    pub fn average_delay(&self) -> (r: u32)
        requires
            self.bounded(),
        ensures
            self.data@.len() == 0 ==> r == 0,
            self.data@.len() > 0 ==> r == sum_delays(self.data@) as int / self.data@.len() as int,
    {
        if self.data.len() == 0 {
            return 0;
        }
        let sum = self.sum_min();
        let n: u32 = self.data.len() as u32;
        sum / n
    }

    /// The share of first-lesson records among all tardiness records, as a
    /// whole percentage rounded to the nearest integer; 0 for an empty store.
    pub fn get_percent_first_lesson(&self) -> (r: i32)
        requires
            self.len_bounded(),
        ensures
            r == percent_round(
                count_first_lesson(self.data@) as int,
                self.data@.len() as int,
            ),
    {
        let mut n: u32 = 0;
        let mut i: usize = 0;
        while i < self.data.len()
            invariant
                i <= self.data@.len(),
                self.len_bounded(),
                n == count_first_lesson(self.data@.take(i as int)),
            decreases self.data@.len() - i,
        {
            proof {
                assert(self.data@.take(i + 1).drop_last() =~= self.data@.take(i as int));
                assert(self.data@.take(i + 1).last() == self.data@[i as int]);
                lemma_count_first_le_len(self.data@.take(i + 1));
            }
            if self.data[i].first_lesson {
                n = n + 1;
            }
            i = i + 1;
        }
        proof {
            assert(self.data@.take(self.data@.len() as int) =~= self.data@);
        }
        if self.data.len() == 0 {
            return 0;
        }
        let num: u64 = n as u64;
        let den: u64 = self.data.len() as u64;
        proof {
            lemma_count_first_le_len(self.data@);
            lemma_percent_round_le_100(num as int, den as int);
        }
        ((200 * num + den) / (2 * den)) as i32
    }

    /// A person's penalty count: one penalty for every three records.
    pub fn penalties_person(&self, person: Class) -> (r: u32)
        requires
            self.len_bounded(),
        ensures
            r == count_person(self.data@, person) / 3,
    {
        self.entries_person_num(person) / 3
    }

    /// The penalty counts of every person on the roster, summed.
    pub fn total_penalties(&self) -> (r: u32)
        requires
            self.len_bounded(),
        ensures
            r == sum_penalties_over(class_seq(), self.data@),
    {
        let classes = Class::all();
        let mut acc: u32 = 0;
        let mut i: usize = 0;
        proof {
            assert(class_seq().skip(0) =~= class_seq());
            lemma_sum_penalties_le_counts(class_seq(), self.data@);
            lemma_sum_counts_class_seq(self.data@);
        }
        while i < classes.len()
            invariant
                i <= classes@.len(),
                classes@ == class_seq(),
                self.len_bounded(),
                acc + sum_penalties_over(class_seq().skip(i as int), self.data@)
                    == sum_penalties_over(class_seq(), self.data@),
                sum_penalties_over(class_seq(), self.data@) <= self.data@.len(),
            decreases classes@.len() - i,
        {
            proof {
                assert(class_seq().skip(i as int).drop_first() =~= class_seq().skip(i + 1));
                assert(class_seq().skip(i as int)[0] == class_seq()[i as int]);
                lemma_sum_penalties_le_counts(class_seq().skip(i as int), self.data@);
            }
            let p = self.penalties_person(classes[i]);
            acc = acc + p;
            i = i + 1;
        }
        proof {
            assert(class_seq().skip(class_seq().len() as int) =~= Seq::<Class>::empty());
        }
        acc
    }

    /// Every aggregate of one person's tardiness records: count, summed and
    /// average delay, smallest and largest delay, most recent record, share
    /// of all records, share of first lessons, and penalty count. Every
    /// quotient with a zero denominator is 0.
    pub fn get_profile_stats(&self, person: Class) -> (r: ProfileStats)
        requires
            self.bounded(),
        ensures
            r.person == person,
            r.num == count_person(self.data@, person),
            r.sum == sum_person_delays(self.data@, person),
            r.theo_penalties == count_person(self.data@, person) / 3,
            r.min == (match min_delay_person_spec(self.data@, person) {
                None => 0u32,
                Some(m) => m,
            }),
            r.max == (match max_delay_person_spec(self.data@, person) {
                None => 0u32,
                Some(m) => m,
            }),
            r.latest == latest_of(self.data@, person),
            r.avg_min == (if count_person(self.data@, person) == 0 {
                0int
            } else {
                sum_person_delays(self.data@, person) as int / count_person(
                    self.data@,
                    person,
                ) as int
            }),
            r.percent == (if self.data@.len() == 0 {
                0int
            } else {
                100 * count_person(self.data@, person) as int / self.data@.len() as int
            }),
            r.first_lesson_percent == (if count_person(self.data@, person) == 0 {
                0int
            } else {
                100 * count_first_lesson_person(self.data@, person) as int / count_person(
                    self.data@,
                    person,
                ) as int
            }),
    {
        let sum = self.sum_person(person);
        let num = self.entries_person_num(person);
        let mut num_first: u32 = 0;
        let mut min_o: Option<u32> = None;
        let mut max_o: Option<u32> = None;
        let mut latest: Option<Entry> = None;
        let mut i: usize = 0;
        while i < self.data.len()
            invariant
                i <= self.data@.len(),
                self.len_bounded(),
                num_first == count_first_lesson_person(self.data@.take(i as int), person),
                min_o == min_delay_person_spec(self.data@.take(i as int), person),
                max_o == max_delay_person_spec(self.data@.take(i as int), person),
                latest == latest_of(self.data@.take(i as int), person),
            decreases self.data@.len() - i,
        {
            proof {
                assert(self.data@.take(i + 1).drop_last() =~= self.data@.take(i as int));
                assert(self.data@.take(i + 1).last() == self.data@[i as int]);
                lemma_count_first_person_le_count(self.data@.take(i + 1), person);
                lemma_count_person_le_len(self.data@.take(i + 1), person);
            }
            let e = self.data[i];
            if e.person == person {
                if e.first_lesson {
                    num_first = num_first + 1;
                }
                min_o = match min_o {
                    None => Some(e.delay_min),
                    Some(m) => if e.delay_min < m {
                        Some(e.delay_min)
                    } else {
                        Some(m)
                    },
                };
                max_o = match max_o {
                    None => Some(e.delay_min),
                    Some(m) => if e.delay_min > m {
                        Some(e.delay_min)
                    } else {
                        Some(m)
                    },
                };
                latest = match latest {
                    None => Some(e),
                    Some(b) => if crate::time::date_lt(b.date, e.date) || (b.date == e.date
                        && crate::time::time_lt(b.lesson_time, e.lesson_time)) {
                        Some(e)
                    } else {
                        Some(b)
                    },
                };
            }
            i = i + 1;
        }
        proof {
            assert(self.data@.take(self.data@.len() as int) =~= self.data@);
            lemma_count_person_le_len(self.data@, person);
            lemma_count_first_person_le_count(self.data@, person);
        }
        let percent: u32 = if self.data.len() == 0 {
            0
        } else {
            proof {
                lemma_part_le_100(num as int, self.data@.len() as int);
            }
            ((100u64 * (num as u64)) / (self.data.len() as u64)) as u32
        };
        let first_lesson_percent: u32 = if num == 0 {
            0
        } else {
            proof {
                lemma_part_le_100(num_first as int, num as int);
            }
            ((100u64 * (num_first as u64)) / (num as u64)) as u32
        };
        let avg_min: u32 = if num == 0 {
            0
        } else {
            sum / num
        };
        let min = match min_o {
            None => 0,
            Some(m) => m,
        };
        let max = match max_o {
            None => 0,
            Some(m) => m,
        };
        ProfileStats {
            person,
            num,
            avg_min,
            percent,
            min,
            max,
            latest,
            theo_penalties: num / 3,
            sum,
            first_lesson_percent,
        }
    }

    /// The smallest delay of any tardiness record; nothing for an empty
    /// store.
    pub fn min_delay(&self) -> (r: Option<u32>)
        ensures
            r == min_delay_spec(self.data@),
    {
        let mut r: Option<u32> = None;
        let mut i: usize = 0;
        while i < self.data.len()
            invariant
                i <= self.data@.len(),
                r == min_delay_spec(self.data@.take(i as int)),
            decreases self.data@.len() - i,
        {
            proof {
                assert(self.data@.take(i + 1).drop_last() =~= self.data@.take(i as int));
                assert(self.data@.take(i + 1).last() == self.data@[i as int]);
            }
            let d = self.data[i].delay_min;
            r = match r {
                None => Some(d),
                Some(m) => if d < m {
                    Some(d)
                } else {
                    Some(m)
                },
            };
            i = i + 1;
        }
        proof {
            assert(self.data@.take(self.data@.len() as int) =~= self.data@);
        }
        r
    }

    /// The largest delay of any tardiness record; nothing for an empty store.
    pub fn max_delay(&self) -> (r: Option<u32>)
        ensures
            r == max_delay_spec(self.data@),
    {
        let mut r: Option<u32> = None;
        let mut i: usize = 0;
        while i < self.data.len()
            invariant
                i <= self.data@.len(),
                r == max_delay_spec(self.data@.take(i as int)),
            decreases self.data@.len() - i,
        {
            proof {
                assert(self.data@.take(i + 1).drop_last() =~= self.data@.take(i as int));
                assert(self.data@.take(i + 1).last() == self.data@[i as int]);
            }
            let d = self.data[i].delay_min;
            r = match r {
                None => Some(d),
                Some(m) => if d > m {
                    Some(d)
                } else {
                    Some(m)
                },
            };
            i = i + 1;
        }
        proof {
            assert(self.data@.take(self.data@.len() as int) =~= self.data@);
        }
        r
    }
}

/// Per-person aggregate statistics, recomputed on demand.
///
/// `avg_min`, `percent` and `first_lesson_percent` are integer quotients
/// (fractions rounded toward zero); every quotient with a zero denominator
/// is 0.
#[derive(Clone, Copy, Debug)]
pub struct ProfileStats {
    pub person: Class,
    pub num: u32,
    pub avg_min: u32,
    pub percent: u32,
    pub min: u32,
    pub max: u32,
    pub latest: Option<Entry>,
    pub theo_penalties: u32,
    pub sum: u32,
    pub first_lesson_percent: u32,
}

impl ProfileStats {
    /// The statistics of a person with no records: every number is zero and
    /// there is no latest record.
    pub fn empty(p: Class) -> (r: ProfileStats)
        ensures
            r.person == p,
            r.num == 0,
            r.avg_min == 0,
            r.percent == 0,
            r.min == 0,
            r.max == 0,
            r.latest is None,
            r.theo_penalties == 0,
            r.sum == 0,
            r.first_lesson_percent == 0,
    {
        ProfileStats {
            person: p,
            num: 0,
            avg_min: 0,
            percent: 0,
            min: 0,
            max: 0,
            latest: None,
            theo_penalties: 0,
            sum: 0,
            first_lesson_percent: 0,
        }
    }
}

} // verus!
