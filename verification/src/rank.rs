//! Rankings over the record store: one row per person or per lesson, ordered
//! by the chosen metric with a stable descending sort.
use crate::db::class_count;
use crate::db::class_seq;
use crate::db::count_lesson;
use crate::db::count_person;
use crate::db::lemma_count_lesson_le_len;
use crate::db::lemma_count_person_le_len;
use crate::db::lemma_percent_round_le_100;
use crate::db::lesson_count;
use crate::db::lesson_seq;
use crate::db::percent_round;
use crate::db::sum_lesson_delays;
use crate::db::sum_person_delays;
use crate::db::Class;
use crate::db::DataBase;
use crate::db::Entry;
use crate::db::Lesson;
use crate::stats::Ranking;
use vstd::prelude::*;

verus! {

/// One person ranking row: the person, their record count, their summed
/// delay minutes, and their rounded share of all records.
pub type ClassRow = (Class, i32, u32, u32);

/// One lesson ranking row: the lesson, its record count, its summed delay
/// minutes, and its rounded share of all records.
pub type LessonRow = (Lesson, i32, u32, u32);

/// Inserts `x` into `s` before the first element whose key is strictly
/// smaller; elements with equal keys keep their places (stability).
pub open spec fn insert_desc<T>(x: T, s: Seq<T>, key: spec_fn(T) -> int) -> Seq<T>
    decreases s.len(),
{
    if s.len() == 0 {
        seq![x]
    } else if key(x) > key(s[0]) {
        seq![x] + s
    } else {
        seq![s[0]] + insert_desc(x, s.drop_first(), key)
    }
}

/// Sorts `s` descending by `key`; a stable insertion sort, so ties keep
/// their input order.
pub open spec fn sort_desc<T>(s: Seq<T>, key: spec_fn(T) -> int) -> Seq<T>
    decreases s.len(),
{
    if s.len() == 0 {
        Seq::empty()
    } else {
        insert_desc(s.last(), sort_desc(s.drop_last(), key), key)
    }
}

/// The key a metric ranks a person row by.
pub open spec fn class_row_key(m: Ranking) -> spec_fn(ClassRow) -> int {
    |r: ClassRow|
        match m {
            Ranking::Number => r.1 as int,
            Ranking::Sum => r.2 as int,
        }
}

/// The key a metric ranks a lesson row by.
pub open spec fn lesson_row_key(m: Ranking) -> spec_fn(LessonRow) -> int {
    |r: LessonRow|
        match m {
            Ranking::Number => r.1 as int,
            Ranking::Sum => r.2 as int,
        }
}

/// The metric a ranking call uses: by record count when none is given.
pub open spec fn metric_spec(rank: Option<Ranking>) -> Ranking {
    match rank {
        None => Ranking::Number,
        Some(m) => m,
    }
}

/// The unsorted ranking row of one person.
pub open spec fn class_row_of(s: Seq<Entry>, c: Class) -> ClassRow {
    (
        c,
        count_person(s, c) as i32,
        sum_person_delays(s, c) as u32,
        percent_round(count_person(s, c) as int, s.len() as int) as u32,
    )
}

/// The unsorted ranking rows, one per person in display order.
pub open spec fn base_rows_class(s: Seq<Entry>) -> Seq<ClassRow> {
    Seq::new(class_count() as nat, |i: int| class_row_of(s, class_seq()[i]))
}

/// The unsorted ranking row of one lesson.
pub open spec fn lesson_row_of(s: Seq<Entry>, l: Lesson) -> LessonRow {
    (
        l,
        count_lesson(s, l) as i32,
        sum_lesson_delays(s, l) as u32,
        percent_round(count_lesson(s, l) as int, s.len() as int) as u32,
    )
}

/// The unsorted ranking rows, one per lesson in display order.
pub open spec fn base_rows_lesson(s: Seq<Entry>) -> Seq<LessonRow> {
    Seq::new(lesson_count() as nat, |i: int| lesson_row_of(s, lesson_seq()[i]))
}

/// The person ranking as a whole: the per-person rows in display order,
/// stably sorted descending by the metric.
pub open spec fn person_ranking(s: Seq<Entry>, rank: Option<Ranking>) -> Seq<ClassRow> {
    sort_desc(base_rows_class(s), class_row_key(metric_spec(rank)))
}

/// The lesson ranking as a whole: the per-lesson rows in display order,
/// stably sorted descending by the metric.
pub open spec fn lesson_ranking(s: Seq<Entry>, rank: Option<Ranking>) -> Seq<LessonRow> {
    sort_desc(base_rows_lesson(s), lesson_row_key(metric_spec(rank)))
}

/// Sums `f` over the elements of `s`.
pub open spec fn fold_int<T>(s: Seq<T>, f: spec_fn(T) -> int) -> int
    decreases s.len(),
{
    if s.len() == 0 {
        0
    } else {
        f(s[0]) + fold_int(s.drop_first(), f)
    }
}

/// Appending an element adds its summand.
proof fn lemma_fold_int_push<T>(s: Seq<T>, f: spec_fn(T) -> int, x: T)
    ensures
        fold_int(s.push(x), f) == fold_int(s, f) + f(x),
    decreases s.len(),
{
    let t = s.push(x);
    if s.len() == 0 {
        assert(t.len() == 1);
        assert(t[0] == x);
        assert(t.drop_first() =~= Seq::<T>::empty());
        assert(fold_int(Seq::<T>::empty(), f) == 0);
        assert(fold_int(t, f) == f(t[0]) + fold_int(t.drop_first(), f));
    } else {
        assert(t[0] == s[0]);
        assert(t.drop_first() =~= s.drop_first().push(x));
        lemma_fold_int_push(s.drop_first(), f, x);
        assert(fold_int(t, f) == f(t[0]) + fold_int(t.drop_first(), f));
        assert(fold_int(s, f) == f(s[0]) + fold_int(s.drop_first(), f));
    }
}

/// Inserting an element adds its summand, wherever it lands.
proof fn lemma_fold_int_insert_desc<T>(x: T, s: Seq<T>, key: spec_fn(T) -> int, f: spec_fn(T) -> int)
    ensures
        fold_int(insert_desc(x, s, key), f) == f(x) + fold_int(s, f),
    decreases s.len(),
{
    if s.len() == 0 {
        let t = insert_desc(x, s, key);
        assert(t =~= seq![x]);
        assert(t[0] == x);
        assert(t.drop_first() =~= Seq::<T>::empty());
        assert(fold_int(Seq::<T>::empty(), f) == 0);
        assert(fold_int(t, f) == f(t[0]) + fold_int(t.drop_first(), f));
    } else if key(x) > key(s[0]) {
        let t = seq![x] + s;
        assert(insert_desc(x, s, key) == t);
        assert(t[0] == x);
        assert(t.drop_first() =~= s);
        assert(fold_int(t, f) == f(t[0]) + fold_int(t.drop_first(), f));
    } else {
        let rest = insert_desc(x, s.drop_first(), key);
        let t = seq![s[0]] + rest;
        assert(insert_desc(x, s, key) == t);
        assert(t[0] == s[0]);
        assert(t.drop_first() =~= rest);
        lemma_fold_int_insert_desc(x, s.drop_first(), key, f);
        assert(fold_int(t, f) == f(t[0]) + fold_int(t.drop_first(), f));
        assert(fold_int(s, f) == f(s[0]) + fold_int(s.drop_first(), f));
    }
}

/// Sorting does not change a sum over the elements.
pub proof fn lemma_fold_int_sort_desc<T>(s: Seq<T>, key: spec_fn(T) -> int, f: spec_fn(T) -> int)
    ensures
        fold_int(sort_desc(s, key), f) == fold_int(s, f),
    decreases s.len(),
{
    if s.len() > 0 {
        lemma_fold_int_sort_desc(s.drop_last(), key, f);
        lemma_fold_int_insert_desc(s.last(), sort_desc(s.drop_last(), key), key, f);
        lemma_fold_int_push(s.drop_last(), f, s.last());
        assert(s.drop_last().push(s.last()) =~= s);
    }
}

/// Inserting grows the length by one.
proof fn lemma_insert_desc_len<T>(x: T, s: Seq<T>, key: spec_fn(T) -> int)
    ensures
        insert_desc(x, s, key).len() == s.len() + 1,
    decreases s.len(),
{
    if s.len() > 0 && !(key(x) > key(s[0])) {
        lemma_insert_desc_len(x, s.drop_first(), key);
    }
}

/// Sorting keeps the length.
pub proof fn lemma_sort_desc_len<T>(s: Seq<T>, key: spec_fn(T) -> int)
    ensures
        sort_desc(s, key).len() == s.len(),
    decreases s.len(),
{
    if s.len() > 0 {
        lemma_sort_desc_len(s.drop_last(), key);
        lemma_insert_desc_len(s.last(), sort_desc(s.drop_last(), key), key);
    }
}

/// A property of the inserted element and of every element of `s` holds of
/// every element after the insertion.
proof fn lemma_insert_desc_all<T>(x: T, s: Seq<T>, key: spec_fn(T) -> int, p: spec_fn(T) -> bool)
    requires
        p(x),
        forall|i: int| 0 <= i < s.len() ==> p(#[trigger] s[i]),
    ensures
        forall|i: int|
            0 <= i < insert_desc(x, s, key).len() ==> p(#[trigger] insert_desc(x, s, key)[i]),
    decreases s.len(),
{
    let t = insert_desc(x, s, key);
    if s.len() == 0 {
        assert forall|i: int| 0 <= i < t.len() implies p(t[i]) by {
            assert(t[i] == x);
        }
    } else if key(x) > key(s[0]) {
        assert forall|i: int| 0 <= i < t.len() implies p(t[i]) by {
            if i == 0 {
                assert(t[i] == x);
            } else {
                assert(t[i] == s[i - 1]);
            }
        }
    } else {
        let rest = insert_desc(x, s.drop_first(), key);
        lemma_insert_desc_all(x, s.drop_first(), key, p);
        assert forall|i: int| 0 <= i < t.len() implies p(t[i]) by {
            if i == 0 {
                assert(t[i] == s[0]);
            } else {
                assert(t[i] == rest[i - 1]);
            }
        }
    }
}

/// A property of every element of `s` holds of every element of the sorted
/// sequence.
pub proof fn lemma_sort_desc_all<T>(s: Seq<T>, key: spec_fn(T) -> int, p: spec_fn(T) -> bool)
    requires
        forall|i: int| 0 <= i < s.len() ==> p(#[trigger] s[i]),
    ensures
        forall|i: int| 0 <= i < sort_desc(s, key).len() ==> p(#[trigger] sort_desc(s, key)[i]),
    decreases s.len(),
{
    if s.len() > 0 {
        assert forall|i: int| 0 <= i < s.drop_last().len() implies p(#[trigger] s.drop_last()[i])
            by {
            assert(s.drop_last()[i] == s[i]);
        }
        lemma_sort_desc_all(s.drop_last(), key, p);
        assert(p(s.last()));
        lemma_insert_desc_all(s.last(), sort_desc(s.drop_last(), key), key, p);
    }
}

/// When a sum over `s` is positive, some element has a positive summand.
proof fn lemma_fold_int_pos_exists<T>(s: Seq<T>, f: spec_fn(T) -> int)
    requires
        fold_int(s, f) > 0,
    ensures
        exists|i: int| 0 <= i < s.len() && f(#[trigger] s[i]) > 0,
    decreases s.len(),
{
    if f(s[0]) > 0 {
        assert(0 <= 0 < s.len() && f(s[0]) > 0);
    } else {
        lemma_fold_int_pos_exists(s.drop_first(), f);
        let i = choose|i: int| 0 <= i < s.drop_first().len() && f(#[trigger] s.drop_first()[i]) > 0;
        assert(s.drop_first()[i] == s[i + 1]);
        assert(0 <= i + 1 < s.len() && f(s[i + 1]) > 0);
    }
}

/// A sum of nonnegative summands is nonnegative.
proof fn lemma_fold_int_nonneg<T>(s: Seq<T>, f: spec_fn(T) -> int)
    requires
        forall|i: int| 0 <= i < s.len() ==> f(#[trigger] s[i]) >= 0,
    ensures
        fold_int(s, f) >= 0,
    decreases s.len(),
{
    if s.len() > 0 {
        assert forall|i: int|
            0 <= i < s.drop_first().len() implies f(#[trigger] s.drop_first()[i]) >= 0 by {
            assert(s.drop_first()[i] == s[i + 1]);
        }
        lemma_fold_int_nonneg(s.drop_first(), f);
    }
}

/// A sum of nonnegative summands is at least any single summand.
proof fn lemma_fold_int_ge_at<T>(s: Seq<T>, f: spec_fn(T) -> int, i: int)
    requires
        forall|i2: int| 0 <= i2 < s.len() ==> f(#[trigger] s[i2]) >= 0,
        0 <= i < s.len(),
    ensures
        fold_int(s, f) >= f(s[i]),
    decreases s.len(),
{
    assert forall|i2: int|
        0 <= i2 < s.drop_first().len() implies f(#[trigger] s.drop_first()[i2]) >= 0 by {
        assert(s.drop_first()[i2] == s[i2 + 1]);
    }
    if i == 0 {
        lemma_fold_int_nonneg(s.drop_first(), f);
    } else {
        lemma_fold_int_ge_at(s.drop_first(), f, i - 1);
        assert(s.drop_first()[i - 1] == s[i]);
    }
}

/// A sum of nonnegative summands is at least any two distinct summands
/// together.
proof fn lemma_fold_int_ge_pair<T>(s: Seq<T>, f: spec_fn(T) -> int, i: int, j: int)
    requires
        forall|i2: int| 0 <= i2 < s.len() ==> f(#[trigger] s[i2]) >= 0,
        0 <= i < j < s.len(),
    ensures
        fold_int(s, f) >= f(s[i]) + f(s[j]),
    decreases s.len(),
{
    assert forall|i2: int|
        0 <= i2 < s.drop_first().len() implies f(#[trigger] s.drop_first()[i2]) >= 0 by {
        assert(s.drop_first()[i2] == s[i2 + 1]);
    }
    if i == 0 {
        lemma_fold_int_ge_at(s.drop_first(), f, j - 1);
        assert(s.drop_first()[j - 1] == s[j]);
    } else {
        lemma_fold_int_ge_pair(s.drop_first(), f, i - 1, j - 1);
        assert(s.drop_first()[i - 1] == s[i]);
        assert(s.drop_first()[j - 1] == s[j]);
    }
}

/// Descending order: every earlier element ranks at least as high.
pub open spec fn sorted_desc_by<T>(s: Seq<T>, key: spec_fn(T) -> int) -> bool {
    forall|i: int, j: int| 0 <= i < j < s.len() ==> key(s[i]) >= key(s[j])
}

/// Inserting into a descending sequence keeps it descending.
proof fn lemma_insert_desc_sorted<T>(x: T, s: Seq<T>, key: spec_fn(T) -> int)
    requires
        sorted_desc_by(s, key),
    ensures
        sorted_desc_by(insert_desc(x, s, key), key),
    decreases s.len(),
{
    let t = insert_desc(x, s, key);
    if s.len() == 0 {
        assert forall|i: int, j: int| 0 <= i < j < t.len() implies key(t[i]) >= key(t[j]) by {}
    } else if key(x) > key(s[0]) {
        assert forall|i: int, j: int| 0 <= i < j < t.len() implies key(t[i]) >= key(t[j]) by {
            if i == 0 {
                assert(t[i] == x);
                assert(t[j] == s[j - 1]);
                if j > 1 {
                    assert(key(s[0]) >= key(s[j - 1]));
                }
            } else {
                assert(t[i] == s[i - 1]);
                assert(t[j] == s[j - 1]);
            }
        }
    } else {
        let rest = insert_desc(x, s.drop_first(), key);
        assert forall|i: int, j: int|
            0 <= i < j < s.drop_first().len() implies key(#[trigger] s.drop_first()[i]) >= key(
            #[trigger] s.drop_first()[j]) by {
            assert(s.drop_first()[i] == s[i + 1]);
            assert(s.drop_first()[j] == s[j + 1]);
        }
        lemma_insert_desc_sorted(x, s.drop_first(), key);
        let p = |y: T| key(y) <= key(s[0]);
        assert forall|k: int| 0 <= k < s.drop_first().len() implies p(#[trigger] s.drop_first()[k])
            by {
            assert(s.drop_first()[k] == s[k + 1]);
        }
        lemma_insert_desc_all(x, s.drop_first(), key, p);
        assert forall|i: int, j: int| 0 <= i < j < t.len() implies key(t[i]) >= key(t[j]) by {
            if i == 0 {
                assert(t[i] == s[0]);
                assert(t[j] == rest[j - 1]);
                assert(p(rest[j - 1]));
            } else {
                assert(t[i] == rest[i - 1]);
                assert(t[j] == rest[j - 1]);
            }
        }
    }
}

/// The stable sort orders its output descending by the key.
pub proof fn lemma_sort_desc_sorted<T>(s: Seq<T>, key: spec_fn(T) -> int)
    ensures
        sorted_desc_by(sort_desc(s, key), key),
    decreases s.len(),
{
    if s.len() > 0 {
        lemma_sort_desc_sorted(s.drop_last(), key);
        lemma_insert_desc_sorted(s.last(), sort_desc(s.drop_last(), key), key);
    }
}

/// Law: the person ranking is ordered: every earlier row ranks at least as
/// high on the chosen metric.
pub proof fn lemma_person_ranking_sorted(s: Seq<Entry>, rank: Option<Ranking>)
    ensures
        sorted_desc_by(person_ranking(s, rank), class_row_key(metric_spec(rank))),
{
    lemma_sort_desc_sorted(base_rows_class(s), class_row_key(metric_spec(rank)));
}

/// Law: the lesson ranking is ordered: every earlier row ranks at least as
/// high on the chosen metric.
pub proof fn lemma_lesson_ranking_sorted(s: Seq<Entry>, rank: Option<Ranking>)
    ensures
        sorted_desc_by(lesson_ranking(s, rank), lesson_row_key(metric_spec(rank))),
{
    lemma_sort_desc_sorted(base_rows_lesson(s), lesson_row_key(metric_spec(rank)));
}

/// One where a row's subject is a given person, zero elsewhere.
pub open spec fn row_ind_class(c: Class) -> spec_fn(ClassRow) -> int {
    |r: ClassRow|
        if r.0 == c {
            1int
        } else {
            0int
        }
}

/// One where a row's subject is a given lesson, zero elsewhere.
pub open spec fn row_ind_lesson(l: Lesson) -> spec_fn(LessonRow) -> int {
    |r: LessonRow|
        if r.0 == l {
            1int
        } else {
            0int
        }
}

/// The count column of the unsorted person rows, summed from position `k`
/// on, equals the per-person counts summed over the same persons.
proof fn lemma_base_rows_class_counts(s: Seq<Entry>, k: int)
    requires
        s.len() <= 0x7FFF_FFFF,
        0 <= k <= class_count(),
    ensures
        fold_int(base_rows_class(s).skip(k), |r: ClassRow| r.1 as int)
            == crate::db::sum_counts_over(class_seq().skip(k), s),
    decreases class_count() - k,
{
    let rows = base_rows_class(s);
    if k == class_count() {
        assert(rows.skip(k) =~= Seq::<ClassRow>::empty());
        assert(class_seq().skip(k) =~= Seq::<Class>::empty());
    } else {
        lemma_base_rows_class_counts(s, k + 1);
        assert(rows.skip(k)[0] == rows[k]);
        assert(rows.skip(k).drop_first() =~= rows.skip(k + 1));
        assert(class_seq().skip(k)[0] == class_seq()[k]);
        assert(class_seq().skip(k).drop_first() =~= class_seq().skip(k + 1));
        lemma_count_person_le_len(s, class_seq()[k]);
    }
}

/// The indicator of person `c`, summed over the unsorted person rows from
/// position `k` on, counts the occurrences of `c` among the same persons.
proof fn lemma_base_rows_class_occ(s: Seq<Entry>, c: Class, k: int)
    requires
        0 <= k <= class_count(),
    ensures
        fold_int(base_rows_class(s).skip(k), row_ind_class(c)) == crate::db::count_occ(
            class_seq().skip(k),
            c,
        ),
    decreases class_count() - k,
{
    let rows = base_rows_class(s);
    if k == class_count() {
        assert(rows.skip(k) =~= Seq::<ClassRow>::empty());
        assert(class_seq().skip(k) =~= Seq::<Class>::empty());
    } else {
        lemma_base_rows_class_occ(s, c, k + 1);
        assert(rows.skip(k)[0] == rows[k]);
        assert(rows.skip(k).drop_first() =~= rows.skip(k + 1));
        assert(class_seq().skip(k)[0] == class_seq()[k]);
        assert(class_seq().skip(k).drop_first() =~= class_seq().skip(k + 1));
    }
}

/// The indicator of lesson `l`, summed over the unsorted lesson rows from
/// position `k` on, counts the occurrences of `l` among the same lessons.
proof fn lemma_base_rows_lesson_occ(s: Seq<Entry>, l: Lesson, k: int)
    requires
        0 <= k <= lesson_count(),
    ensures
        fold_int(base_rows_lesson(s).skip(k), row_ind_lesson(l)) == crate::db::count_occ_lesson(
            lesson_seq().skip(k),
            l,
        ),
    decreases lesson_count() - k,
{
    let rows = base_rows_lesson(s);
    if k == lesson_count() {
        assert(rows.skip(k) =~= Seq::<LessonRow>::empty());
        assert(lesson_seq().skip(k) =~= Seq::<Lesson>::empty());
    } else {
        lemma_base_rows_lesson_occ(s, l, k + 1);
        assert(rows.skip(k)[0] == rows[k]);
        assert(rows.skip(k).drop_first() =~= rows.skip(k + 1));
        assert(lesson_seq().skip(k)[0] == lesson_seq()[k]);
        assert(lesson_seq().skip(k).drop_first() =~= lesson_seq().skip(k + 1));
    }
}

/// Law: the count column of the person ranking sums to the store's total
/// record count, whichever metric orders it.
pub proof fn lemma_ranking_counts_total(s: Seq<Entry>, rank: Option<Ranking>)
    requires
        s.len() <= 0x7FFF_FFFF,
    ensures
        fold_int(person_ranking(s, rank), |r: ClassRow| r.1 as int) == s.len(),
{
    let key = class_row_key(metric_spec(rank));
    lemma_fold_int_sort_desc(base_rows_class(s), key, |r: ClassRow| r.1 as int);
    lemma_base_rows_class_counts(s, 0);
    assert(base_rows_class(s).skip(0) =~= base_rows_class(s));
    assert(class_seq().skip(0) =~= class_seq());
    crate::db::lemma_sum_counts_class_seq(s);
}

/// Law: the person ranking has exactly one row per person of the roster, and
/// that row carries the person's record count, summed delay minutes and
/// rounded share — also for persons with no records at all.
pub proof fn lemma_ranking_person_complete(s: Seq<Entry>, rank: Option<Ranking>)
    requires
        s.len() <= 0x7FFF_FFFF,
    ensures
        person_ranking(s, rank).len() == class_count(),
        forall|c: Class|
            #![trigger class_row_of(s, c)]
            exists|i: int|
                0 <= i < person_ranking(s, rank).len() && #[trigger] person_ranking(s, rank)[i]
                    == class_row_of(s, c),
        forall|i: int, j: int|
            0 <= i < person_ranking(s, rank).len() && 0 <= j < person_ranking(s, rank).len() && i
                != j ==> (#[trigger] person_ranking(s, rank)[i]).0 != (#[trigger] person_ranking(
                s,
                rank,
            )[j]).0,
{
    let base = base_rows_class(s);
    let key = class_row_key(metric_spec(rank));
    let sorted = person_ranking(s, rank);
    lemma_sort_desc_len(base, key);
    let p = |r: ClassRow| r == class_row_of(s, r.0);
    assert forall|i: int| 0 <= i < base.len() implies p(#[trigger] base[i]) by {
        assert(base[i] == class_row_of(s, class_seq()[i]));
    }
    lemma_sort_desc_all(base, key, p);
    assert forall|c: Class|
        #![trigger class_row_of(s, c)]
        exists|i: int|
            0 <= i < person_ranking(s, rank).len() && #[trigger] person_ranking(s, rank)[i]
                == class_row_of(s, c) by {
        let fc = row_ind_class(c);
        lemma_fold_int_sort_desc(base, key, fc);
        lemma_base_rows_class_occ(s, c, 0);
        assert(base.skip(0) =~= base);
        assert(class_seq().skip(0) =~= class_seq());
        crate::db::lemma_count_occ_class_seq(c);
        lemma_fold_int_pos_exists(sorted, fc);
        let i = choose|i: int| 0 <= i < sorted.len() && fc(#[trigger] sorted[i]) > 0;
        assert(p(sorted[i]));
        assert(sorted[i] == class_row_of(s, c));
    }
    assert forall|i: int, j: int|
        0 <= i < person_ranking(s, rank).len() && 0 <= j < person_ranking(s, rank).len() && i
            != j implies (#[trigger] person_ranking(s, rank)[i]).0 != (#[trigger] person_ranking(
        s,
        rank,
    )[j]).0 by {
        if sorted[i].0 == sorted[j].0 {
            let c = sorted[i].0;
            let fc = row_ind_class(c);
            lemma_fold_int_sort_desc(base, key, fc);
            lemma_base_rows_class_occ(s, c, 0);
            assert(base.skip(0) =~= base);
            assert(class_seq().skip(0) =~= class_seq());
            crate::db::lemma_count_occ_class_seq(c);
            assert forall|i2: int| 0 <= i2 < sorted.len() implies fc(#[trigger] sorted[i2]) >= 0
                by {}
            if i < j {
                lemma_fold_int_ge_pair(sorted, fc, i, j);
            } else {
                lemma_fold_int_ge_pair(sorted, fc, j, i);
            }
        }
    }
}

/// Law: the lesson ranking has exactly one row per lesson of the roster, and
/// that row carries the lesson's record count, summed delay minutes and
/// rounded share — also for lessons with no records at all.
pub proof fn lemma_ranking_lesson_complete(s: Seq<Entry>, rank: Option<Ranking>)
    requires
        s.len() <= 0x7FFF_FFFF,
    ensures
        lesson_ranking(s, rank).len() == lesson_count(),
        forall|l: Lesson|
            #![trigger lesson_row_of(s, l)]
            exists|i: int|
                0 <= i < lesson_ranking(s, rank).len() && #[trigger] lesson_ranking(s, rank)[i]
                    == lesson_row_of(s, l),
        forall|i: int, j: int|
            0 <= i < lesson_ranking(s, rank).len() && 0 <= j < lesson_ranking(s, rank).len() && i
                != j ==> (#[trigger] lesson_ranking(s, rank)[i]).0 != (#[trigger] lesson_ranking(
                s,
                rank,
            )[j]).0,
{
    let base = base_rows_lesson(s);
    let key = lesson_row_key(metric_spec(rank));
    let sorted = lesson_ranking(s, rank);
    lemma_sort_desc_len(base, key);
    let p = |r: LessonRow| r == lesson_row_of(s, r.0);
    assert forall|i: int| 0 <= i < base.len() implies p(#[trigger] base[i]) by {
        assert(base[i] == lesson_row_of(s, lesson_seq()[i]));
    }
    lemma_sort_desc_all(base, key, p);
    assert forall|l: Lesson|
        #![trigger lesson_row_of(s, l)]
        exists|i: int|
            0 <= i < lesson_ranking(s, rank).len() && #[trigger] lesson_ranking(s, rank)[i]
                == lesson_row_of(s, l) by {
        let fl = row_ind_lesson(l);
        lemma_fold_int_sort_desc(base, key, fl);
        lemma_base_rows_lesson_occ(s, l, 0);
        assert(base.skip(0) =~= base);
        assert(lesson_seq().skip(0) =~= lesson_seq());
        crate::db::lemma_count_occ_lesson_seq(l);
        lemma_fold_int_pos_exists(sorted, fl);
        let i = choose|i: int| 0 <= i < sorted.len() && fl(#[trigger] sorted[i]) > 0;
        assert(p(sorted[i]));
        assert(sorted[i] == lesson_row_of(s, l));
    }
    assert forall|i: int, j: int|
        0 <= i < lesson_ranking(s, rank).len() && 0 <= j < lesson_ranking(s, rank).len() && i
            != j implies (#[trigger] lesson_ranking(s, rank)[i]).0 != (#[trigger] lesson_ranking(
        s,
        rank,
    )[j]).0 by {
        if sorted[i].0 == sorted[j].0 {
            let l = sorted[i].0;
            let fl = row_ind_lesson(l);
            lemma_fold_int_sort_desc(base, key, fl);
            lemma_base_rows_lesson_occ(s, l, 0);
            assert(base.skip(0) =~= base);
            assert(lesson_seq().skip(0) =~= lesson_seq());
            crate::db::lemma_count_occ_lesson_seq(l);
            assert forall|i2: int| 0 <= i2 < sorted.len() implies fl(#[trigger] sorted[i2]) >= 0
                by {}
            if i < j {
                lemma_fold_int_ge_pair(sorted, fl, i, j);
            } else {
                lemma_fold_int_ge_pair(sorted, fl, j, i);
            }
        }
    }
}

/// Whether `a` ranks at or below `b` under metric `m` (person rows).
fn class_key_le(a: ClassRow, b: ClassRow, m: Ranking) -> (r: bool)
    ensures
        r == (class_row_key(m)(a) <= class_row_key(m)(b)),
{
    match m {
        Ranking::Number => a.1 <= b.1,
        Ranking::Sum => a.2 <= b.2,
    }
}

/// Whether `a` ranks at or below `b` under metric `m` (lesson rows).
fn lesson_key_le(a: LessonRow, b: LessonRow, m: Ranking) -> (r: bool)
    ensures
        r == (lesson_row_key(m)(a) <= lesson_row_key(m)(b)),
{
    match m {
        Ranking::Number => a.1 <= b.1,
        Ranking::Sum => a.2 <= b.2,
    }
}

/// The share of `num` in `den` as a whole percentage, rounded to the nearest
/// integer; 0 when `den` is 0.
fn percent_of(num: u32, den: u32) -> (r: u32)
    requires
        num <= den,
    ensures
        r == percent_round(num as int, den as int),
{
    if den == 0 {
        return 0;
    }
    proof {
        lemma_percent_round_le_100(num as int, den as int);
    }
    ((200u64 * (num as u64) + (den as u64)) / (2u64 * (den as u64))) as u32
}

impl DataBase {
    /// The person ranking: one row per person in display order, holding the
    /// person's record count, summed delay minutes and rounded share of all
    /// records, sorted descending by the chosen metric (record count when
    /// none is chosen); persons tied on the metric stay in display order.
    pub fn ranking_vec(&self, rank: Option<Ranking>) -> (r: Vec<ClassRow>)
        requires
            self.bounded(),
            self.data@.len() <= 0x7FFF_FFFF,
        ensures
            r@ == person_ranking(self.data@, rank),
    {
        let metric = match rank {
            None => Ranking::Number,
            Some(m) => m,
        };
        let ghost key = class_row_key(metric);
        let classes = Class::all();
        let den: u32 = self.data.len() as u32;
        let mut rows: Vec<ClassRow> = Vec::new();
        let mut i: usize = 0;
        while i < classes.len()
            invariant
                i <= classes@.len(),
                classes@ == class_seq(),
                self.bounded(),
                self.data@.len() <= 0x7FFF_FFFF,
                den == self.data@.len(),
                rows@.len() == i,
                forall|j: int|
                    0 <= j < i ==> rows@[j] == class_row_of(self.data@, class_seq()[j]),
            decreases classes@.len() - i,
        {
            let c = classes[i];
            let count = self.entries_person_num(c);
            let sum = self.sum_person(c);
            proof {
                lemma_count_person_le_len(self.data@, c);
            }
            let pct = percent_of(count, den);
            rows.push((c, count as i32, sum, pct));
            i = i + 1;
        }
        proof {
            assert(rows@ =~= base_rows_class(self.data@));
        }
        let mut out: Vec<ClassRow> = Vec::new();
        let mut k: usize = 0;
        while k < rows.len()
            invariant
                k <= rows@.len(),
                rows@ == base_rows_class(self.data@),
                out@ == sort_desc(rows@.take(k as int), key),
                key == class_row_key(metric),
            decreases rows@.len() - k,
        {
            let x = rows[k];
            let mut j: usize = 0;
            proof {
                assert(out@.skip(0) =~= out@);
                assert(out@.take(0) + insert_desc(x, out@, key) =~= insert_desc(x, out@, key));
            }
            while j < out.len() && class_key_le(x, out[j], metric)
                invariant
                    j <= out@.len(),
                    key == class_row_key(metric),
                    insert_desc(x, out@, key) == out@.take(j as int) + insert_desc(
                        x,
                        out@.skip(j as int),
                        key,
                    ),
                    forall|j2: int| 0 <= j2 < j ==> key(x) <= key(out@[j2]),
                decreases out@.len() - j,
            {
                proof {
                    let sk = out@.skip(j as int);
                    assert(sk[0] == out@[j as int]);
                    assert(sk.drop_first() =~= out@.skip(j + 1));
                    assert(out@.take(j as int) + (seq![out@[j as int]] + insert_desc(
                        x,
                        out@.skip(j + 1),
                        key,
                    )) =~= out@.take(j + 1) + insert_desc(x, out@.skip(j + 1), key));
                }
                j = j + 1;
            }
            proof {
                let sk = out@.skip(j as int);
                if j < out@.len() {
                    assert(sk[0] == out@[j as int]);
                    assert(sk.drop_first() =~= out@.skip(j + 1));
                    assert(insert_desc(x, sk, key) == seq![x] + sk);
                } else {
                    assert(sk =~= Seq::<ClassRow>::empty());
                    assert(insert_desc(x, sk, key) =~= seq![x] + sk);
                }
                assert(out@.take(j as int) + (seq![x] + out@.skip(j as int)) =~= out@.insert(
                    j as int,
                    x,
                ));
                assert(rows@.take(k + 1).drop_last() =~= rows@.take(k as int));
                assert(rows@.take(k + 1).last() == rows@[k as int]);
            }
            out.insert(j, x);
            k = k + 1;
        }
        proof {
            assert(rows@.take(rows@.len() as int) =~= rows@);
        }
        out
    }

    /// The lesson ranking: one row per lesson in display order, holding the
    /// lesson's record count, summed delay minutes and rounded share of all
    /// records, sorted descending by the chosen metric (record count when
    /// none is chosen); lessons tied on the metric stay in display order.
    pub fn ranking_vec_lesson(&self, rank: Option<Ranking>) -> (r: Vec<LessonRow>)
        requires
            self.bounded(),
            self.data@.len() <= 0x7FFF_FFFF,
        ensures
            r@ == lesson_ranking(self.data@, rank),
    {
        let metric = match rank {
            None => Ranking::Number,
            Some(m) => m,
        };
        let ghost key = lesson_row_key(metric);
        let lessons = Lesson::all();
        let den: u32 = self.data.len() as u32;
        let mut rows: Vec<LessonRow> = Vec::new();
        let mut i: usize = 0;
        while i < lessons.len()
            invariant
                i <= lessons@.len(),
                lessons@ == lesson_seq(),
                self.bounded(),
                self.data@.len() <= 0x7FFF_FFFF,
                den == self.data@.len(),
                rows@.len() == i,
                forall|j: int|
                    0 <= j < i ==> rows@[j] == lesson_row_of(self.data@, lesson_seq()[j]),
            decreases lessons@.len() - i,
        {
            let l = lessons[i];
            let count = self.entries_lesson_num(l);
            let sum = self.sum_lesson(l);
            proof {
                lemma_count_lesson_le_len(self.data@, l);
            }
            let pct = percent_of(count, den);
            rows.push((l, count as i32, sum, pct));
            i = i + 1;
        }
        proof {
            assert(rows@ =~= base_rows_lesson(self.data@));
        }
        let mut out: Vec<LessonRow> = Vec::new();
        let mut k: usize = 0;
        while k < rows.len()
            invariant
                k <= rows@.len(),
                rows@ == base_rows_lesson(self.data@),
                out@ == sort_desc(rows@.take(k as int), key),
                key == lesson_row_key(metric),
            decreases rows@.len() - k,
        {
            let x = rows[k];
            let mut j: usize = 0;
            proof {
                assert(out@.skip(0) =~= out@);
                assert(out@.take(0) + insert_desc(x, out@, key) =~= insert_desc(x, out@, key));
            }
            while j < out.len() && lesson_key_le(x, out[j], metric)
                invariant
                    j <= out@.len(),
                    key == lesson_row_key(metric),
                    insert_desc(x, out@, key) == out@.take(j as int) + insert_desc(
                        x,
                        out@.skip(j as int),
                        key,
                    ),
                    forall|j2: int| 0 <= j2 < j ==> key(x) <= key(out@[j2]),
                decreases out@.len() - j,
            {
                proof {
                    let sk = out@.skip(j as int);
                    assert(sk[0] == out@[j as int]);
                    assert(sk.drop_first() =~= out@.skip(j + 1));
                    assert(out@.take(j as int) + (seq![out@[j as int]] + insert_desc(
                        x,
                        out@.skip(j + 1),
                        key,
                    )) =~= out@.take(j + 1) + insert_desc(x, out@.skip(j + 1), key));
                }
                j = j + 1;
            }
            proof {
                let sk = out@.skip(j as int);
                if j < out@.len() {
                    assert(sk[0] == out@[j as int]);
                    assert(sk.drop_first() =~= out@.skip(j + 1));
                    assert(insert_desc(x, sk, key) == seq![x] + sk);
                } else {
                    assert(sk =~= Seq::<LessonRow>::empty());
                    assert(insert_desc(x, sk, key) =~= seq![x] + sk);
                }
                assert(out@.take(j as int) + (seq![x] + out@.skip(j as int)) =~= out@.insert(
                    j as int,
                    x,
                ));
                assert(rows@.take(k + 1).drop_last() =~= rows@.take(k as int));
                assert(rows@.take(k + 1).last() == rows@[k as int]);
            }
            out.insert(j, x);
            k = k + 1;
        }
        proof {
            assert(rows@.take(rows@.len() as int) =~= rows@);
        }
        out
    }
}

} // verus!
