//! The textual file format of the record store: a JSON document with the two
//! top-level arrays `data` and `absences`, enum variants as bare identifier
//! strings, times as `HH:MM:SS` and dates as `YYYY-MM-DD`.
//!
//! The encoder writes one canonical text per store; the decoder accepts a
//! canonical text and returns the store that wrote it.
use crate::db::Class;
use crate::db::DataBase;
use crate::db::DataBaseError;
use crate::db::Entry;
use crate::db::Lesson;
use crate::db::LessonAbs;
use crate::time::Date;
use crate::time::TimeOfDay;
use vstd::prelude::*;

verus! {

/// The decimal digit `d` as a character.
pub open spec fn digit_char(d: int) -> char {
    ((48 + d) as u8) as char
}

/// The canonical decimal form of `n`: no sign, no leading zeros.
pub open spec fn dec_rec(n: nat) -> Seq<char>
    decreases n,
{
    if n < 10 {
        seq![digit_char(n as int)]
    } else {
        dec_rec(n / 10) + seq![digit_char((n % 10) as int)]
    }
}

/// A number as it appears in the document.
pub open spec fn enc_u32(n: u32) -> Seq<char> {
    dec_rec(n as nat)
}

/// A two-digit zero-padded number (for hours, minutes, seconds, months,
/// days).
pub open spec fn enc_2(n: u32) -> Seq<char> {
    seq![digit_char(n as int / 10), digit_char(n as int % 10)]
}

/// A four-digit zero-padded number (for years).
pub open spec fn enc_4(n: u32) -> Seq<char> {
    seq![
        digit_char(n as int / 1000),
        digit_char(n as int / 100 % 10),
        digit_char(n as int / 10 % 10),
        digit_char(n as int % 10),
    ]
}

/// A person's name followed by the closing quote.
#[verifier::opaque]
pub open spec fn class_quoted(c: Class) -> Seq<char> {
    match c {
        Class::Nicole => "Nicole\""@,
        Class::Sophia => "Sophia\""@,
        Class::Emily => "Emily\""@,
        Class::Leander => "Leander\""@,
        Class::Suya => "Suya\""@,
        Class::Jan => "Jan\""@,
        Class::Liam => "Liam\""@,
        Class::Evelin => "Evelin\""@,
        Class::Isabelle => "Isabelle\""@,
        Class::Anina => "Anina\""@,
        Class::Carlo => "Carlo\""@,
        Class::Levin => "Levin\""@,
        Class::Anne => "Anne\""@,
        Class::Kilian => "Kilian\""@,
        Class::Jonah => "Jonah\""@,
        Class::Ida => "Ida\""@,
        Class::Neda => "Neda\""@,
        Class::Antonie => "Antonie\""@,
        Class::Laurin => "Laurin\""@,
        Class::Marija => "Marija\""@,
        Class::Raphael => "Raphael\""@,
        Class::Elena => "Elena\""@,
        Class::Luis => "Luis\""@,
        Class::Mia => "Mia\""@,
        Class::Marie => "Marie\""@,
    }
}

/// A lesson's name followed by the closing quote.
#[verifier::opaque]
pub open spec fn lesson_quoted(l: Lesson) -> Seq<char> {
    match l {
        Lesson::Mathe => "Mathe\""@,
        Lesson::Bio => "Bio\""@,
        Lesson::Deutsch => "Deutsch\""@,
        Lesson::Physik => "Physik\""@,
        Lesson::Franzoesisch => "Franzoesisch\""@,
        Lesson::Italienisch => "Italienisch\""@,
        Lesson::Geschichte => "Geschichte\""@,
        Lesson::Englisch => "Englisch\""@,
        Lesson::Chemie => "Chemie\""@,
        Lesson::Sport => "Sport\""@,
        Lesson::BG => "BG\""@,
        Lesson::Musik => "Musik\""@,
        Lesson::Griechisch => "Griechisch\""@,
        Lesson::Geographie => "Geographie\""@,
    }
}

/// A boolean as it appears in the document.
pub open spec fn enc_bool(b: bool) -> Seq<char> {
    if b {
        "true"@
    } else {
        "false"@
    }
}

/// A time of day as `HH:MM:SS`.
pub open spec fn enc_time(t: TimeOfDay) -> Seq<char> {
    enc_2(t.hour) + ":"@ + enc_2(t.minute) + ":"@ + enc_2(t.second)
}

/// A date as `YYYY-MM-DD`.
pub open spec fn enc_date(d: Date) -> Seq<char> {
    enc_4(d.year) + "-"@ + enc_2(d.month) + "-"@ + enc_2(d.day)
}

/// One tardiness record as a JSON object.
#[verifier::opaque]
pub open spec fn enc_entry(e: Entry) -> Seq<char> {
    "{\"person\":\""@ + class_quoted(e.person) + ",\"lesson\":\""@ + lesson_quoted(e.lesson)
        + ",\"lesson_time\":\""@ + enc_time(e.lesson_time) + "\",\"delay_min\":"@ + enc_u32(
        e.delay_min,
    ) + ",\"first_lesson\":"@ + enc_bool(e.first_lesson) + ",\"date\":\""@ + enc_date(e.date)
        + "\"}"@
}

/// One element of the `present` array: a quoted person name.
pub open spec fn enc_present_elem(c: Class) -> Seq<char> {
    "\""@ + class_quoted(c)
}

/// The element encoder of the `data` array.
pub open spec fn enc_entry_fn() -> spec_fn(Entry) -> Seq<char> {
    |e: Entry| enc_entry(e)
}

/// The element encoder of the `absences` array.
pub open spec fn enc_absence_fn() -> spec_fn(LessonAbs) -> Seq<char> {
    |a: LessonAbs| enc_absence(a)
}

/// The element encoder of a `present` array.
pub open spec fn enc_present_fn() -> spec_fn(Class) -> Seq<char> {
    |c: Class| enc_present_elem(c)
}

/// A comma-separated list, each element encoded by `f`.
pub open spec fn enc_list<T>(s: Seq<T>, f: spec_fn(T) -> Seq<char>) -> Seq<char>
    decreases s.len(),
{
    if s.len() == 0 {
        Seq::empty()
    } else if s.len() == 1 {
        f(s[0])
    } else {
        f(s[0]) + ","@ + enc_list(s.drop_first(), f)
    }
}

/// One absence roster as a JSON object.
#[verifier::opaque]
pub open spec fn enc_absence(a: LessonAbs) -> Seq<char> {
    "{\"present\":["@ + enc_list(a.present@, enc_present_fn()) + "]"@ + ",\"lesson\":\""@
        + lesson_quoted(a.lesson) + ",\"lesson_time\":\""@ + enc_time(a.lesson_time)
        + "\",\"first_lesson\":"@ + enc_bool(a.first_lesson) + ",\"date\":\""@ + enc_date(a.date)
        + "\"}"@
}

/// The whole store as a JSON document.
#[verifier::opaque]
pub open spec fn enc_db(db: DataBase) -> Seq<char> {
    "{\"data\":["@ + enc_list(db.data@, enc_entry_fn()) + "]"@ + ",\"absences\":["@
        + enc_list(db.absences@, enc_absence_fn()) + "]"@ + "}"@
}

/// Appending an element to a list appends a separator (when the list was not
/// empty) and the element's text.
pub proof fn lemma_enc_list_push<T>(s: Seq<T>, f: spec_fn(T) -> Seq<char>, x: T)
    ensures
        s.len() == 0 ==> enc_list(s.push(x), f) == f(x),
        s.len() > 0 ==> enc_list(s.push(x), f) == enc_list(s, f) + ","@ + f(x),
    decreases s.len(),
{
    let t = s.push(x);
    if s.len() == 0 {
        assert(t.len() == 1);
        assert(t[0] == x);
    } else {
        assert(t[0] == s[0]);
        assert(t.drop_first() =~= s.drop_first().push(x));
        lemma_enc_list_push(s.drop_first(), f, x);
        if s.len() == 1 {
            assert(enc_list(t, f) == f(t[0]) + ","@ + enc_list(t.drop_first(), f));
            assert(enc_list(t.drop_first(), f) == f(x));
        } else {
            assert(enc_list(t, f) == f(t[0]) + ","@ + enc_list(t.drop_first(), f));
            assert(enc_list(s, f) == f(s[0]) + ","@ + enc_list(s.drop_first(), f));
            assert(f(t[0]) + ","@ + (enc_list(s.drop_first(), f) + ","@ + f(x)) =~= (f(s[0]) + ","@
                + enc_list(s.drop_first(), f)) + ","@ + f(x));
        }
    }
}

/// Whether `c` is a decimal digit.
pub open spec fn is_digit_char(c: char) -> bool {
    exists|d: int| 0 <= d < 10 && c == digit_char(d)
}

/// Distinct digits have distinct characters.
proof fn lemma_digit_char_injective()
    ensures
        forall|d1: int, d2: int|
            0 <= d1 < 10 && 0 <= d2 < 10 && digit_char(d1) == digit_char(d2) ==> d1 == d2,
{
}

/// A canonical decimal consists of digits, is never empty, has more than one
/// digit exactly for numbers of ten and above, and never starts with a zero
/// digit unless it is the single digit zero.
proof fn lemma_dec_digits(n: nat)
    ensures
        dec_rec(n).len() >= 1,
        forall|k: int| 0 <= k < dec_rec(n).len() ==> is_digit_char(#[trigger] dec_rec(n)[k]),
        (n >= 10) == (dec_rec(n).len() >= 2),
        dec_rec(n).len() >= 2 ==> dec_rec(n)[0] != digit_char(0),
    decreases n,
{
    if n < 10 {
        assert(dec_rec(n)[0] == digit_char(n as int));
        assert(is_digit_char(dec_rec(n)[0]));
    } else {
        lemma_dec_digits(n / 10);
        let t = dec_rec(n);
        let front = dec_rec(n / 10);
        assert forall|k: int| 0 <= k < t.len() implies is_digit_char(#[trigger] t[k]) by {
            if k < front.len() {
                assert(t[k] == front[k]);
            } else {
                assert(t[k] == digit_char((n % 10) as int));
                assert(is_digit_char(t[k]));
            }
        }
        assert(t[0] == front[0]);
        if n / 10 < 10 {
            assert(front[0] == digit_char((n / 10) as int));
            assert(n / 10 >= 1);
        }
    }
}

/// Equal canonical decimals mean equal numbers.
proof fn lemma_dec_injective(a: nat, b: nat)
    requires
        dec_rec(a) == dec_rec(b),
    ensures
        a == b,
    decreases a,
{
    lemma_dec_digits(a);
    lemma_dec_digits(b);
    if a < 10 && b < 10 {
        assert(dec_rec(a)[0] == digit_char(a as int));
        assert(dec_rec(b)[0] == digit_char(b as int));
    } else if a >= 10 && b >= 10 {
        assert(dec_rec(a).last() == digit_char((a % 10) as int));
        assert(dec_rec(b).last() == digit_char((b % 10) as int));
        assert(dec_rec(a).drop_last() =~= dec_rec(a / 10));
        assert(dec_rec(b).drop_last() =~= dec_rec(b / 10));
        lemma_dec_injective(a / 10, b / 10);
    }
}

/// A number whose canonical decimal extends another's by the digit `d` is at
/// least ten times the shorter number plus `d`.
proof fn lemma_dec_prefix_bound(a: nat, b: nat, d: int)
    requires
        0 <= d < 10,
        dec_rec(b).len() > dec_rec(a).len(),
        dec_rec(b).take(dec_rec(a).len() as int) == dec_rec(a),
        dec_rec(b)[dec_rec(a).len() as int] == digit_char(d),
    ensures
        b >= 10 * a + d,
    decreases b,
{
    lemma_dec_digits(a);
    lemma_dec_digits(b);
    assert(b >= 10);
    let front = dec_rec(b / 10);
    if dec_rec(b).len() == dec_rec(a).len() + 1 {
        assert(dec_rec(b).take(dec_rec(a).len() as int) =~= front);
        lemma_dec_injective(a, b / 10);
        assert(dec_rec(b)[dec_rec(a).len() as int] == digit_char((b % 10) as int));
        lemma_digit_char_injective();
        assert(b % 10 == d);
    } else {
        assert(front.take(dec_rec(a).len() as int) =~= dec_rec(b).take(dec_rec(a).len() as int));
        assert(front[dec_rec(a).len() as int] == dec_rec(b)[dec_rec(a).len() as int]);
        lemma_dec_prefix_bound(a, b / 10, d);
        assert(b >= 10 * (b / 10));
    }
}

/// The decimal digit `d` as an appendable one-character text.
fn digit_str(d: u32) -> (r: &'static str)
    requires
        d < 10,
    ensures
        r@ == seq![digit_char(d as int)],
{
    let r: &'static str = match d {
        0 => "0",
        1 => "1",
        2 => "2",
        3 => "3",
        4 => "4",
        5 => "5",
        6 => "6",
        7 => "7",
        8 => "8",
        _ => "9",
    };
    proof {
        reveal_strlit("0");
        reveal_strlit("1");
        reveal_strlit("2");
        reveal_strlit("3");
        reveal_strlit("4");
        reveal_strlit("5");
        reveal_strlit("6");
        reveal_strlit("7");
        reveal_strlit("8");
        reveal_strlit("9");
        assert(r@ =~= seq![digit_char(d as int)]);
    }
    r
}

/// Appends a two-digit zero-padded number.
fn push_2(out: &mut String, n: u32)
    requires
        n < 100,
    ensures
        final (out)@ == old(out)@ + enc_2(n),
{
    out.append(digit_str(n / 10));
    out.append(digit_str(n % 10));
    proof {
        assert(out@ =~= old(out)@ + enc_2(n));
    }
}

/// Appends a four-digit zero-padded number.
fn push_4(out: &mut String, n: u32)
    requires
        n < 10000,
    ensures
        final (out)@ == old(out)@ + enc_4(n),
{
    out.append(digit_str(n / 1000));
    out.append(digit_str(n / 100 % 10));
    out.append(digit_str(n / 10 % 10));
    out.append(digit_str(n % 10));
    proof {
        assert(out@ =~= old(out)@ + enc_4(n));
    }
}

/// Appends a number in canonical decimal form.
fn push_u32(out: &mut String, n: u32)
    ensures
        final (out)@ == old(out)@ + enc_u32(n),
    decreases n,
{
    if n < 10 {
        out.append(digit_str(n));
    } else {
        push_u32(out, n / 10);
        out.append(digit_str(n % 10));
        proof {
            assert(old(out)@ + dec_rec((n / 10) as nat) + seq![digit_char(n as int % 10)] =~= old(
                out,
            )@ + dec_rec(n as nat));
        }
    }
}

/// Appends a person's name and the closing quote.
fn push_class(out: &mut String, c: Class)
    ensures
        final (out)@ == old(out)@ + class_quoted(c),
{
    proof {
        reveal(class_quoted);
    }
    match c {
        Class::Nicole => out.append("Nicole\""),
        Class::Sophia => out.append("Sophia\""),
        Class::Emily => out.append("Emily\""),
        Class::Leander => out.append("Leander\""),
        Class::Suya => out.append("Suya\""),
        Class::Jan => out.append("Jan\""),
        Class::Liam => out.append("Liam\""),
        Class::Evelin => out.append("Evelin\""),
        Class::Isabelle => out.append("Isabelle\""),
        Class::Anina => out.append("Anina\""),
        Class::Carlo => out.append("Carlo\""),
        Class::Levin => out.append("Levin\""),
        Class::Anne => out.append("Anne\""),
        Class::Kilian => out.append("Kilian\""),
        Class::Jonah => out.append("Jonah\""),
        Class::Ida => out.append("Ida\""),
        Class::Neda => out.append("Neda\""),
        Class::Antonie => out.append("Antonie\""),
        Class::Laurin => out.append("Laurin\""),
        Class::Marija => out.append("Marija\""),
        Class::Raphael => out.append("Raphael\""),
        Class::Elena => out.append("Elena\""),
        Class::Luis => out.append("Luis\""),
        Class::Mia => out.append("Mia\""),
        Class::Marie => out.append("Marie\""),
    }
}

/// Appends a lesson's name and the closing quote.
fn push_lesson(out: &mut String, l: Lesson)
    ensures
        final (out)@ == old(out)@ + lesson_quoted(l),
{
    proof {
        reveal(lesson_quoted);
    }
    match l {
        Lesson::Mathe => out.append("Mathe\""),
        Lesson::Bio => out.append("Bio\""),
        Lesson::Deutsch => out.append("Deutsch\""),
        Lesson::Physik => out.append("Physik\""),
        Lesson::Franzoesisch => out.append("Franzoesisch\""),
        Lesson::Italienisch => out.append("Italienisch\""),
        Lesson::Geschichte => out.append("Geschichte\""),
        Lesson::Englisch => out.append("Englisch\""),
        Lesson::Chemie => out.append("Chemie\""),
        Lesson::Sport => out.append("Sport\""),
        Lesson::BG => out.append("BG\""),
        Lesson::Musik => out.append("Musik\""),
        Lesson::Griechisch => out.append("Griechisch\""),
        Lesson::Geographie => out.append("Geographie\""),
    }
}

/// Appends a time of day as `HH:MM:SS`.
fn push_time(out: &mut String, t: TimeOfDay)
    requires
        t.wf(),
    ensures
        final (out)@ == old(out)@ + enc_time(t),
{
    push_2(out, t.hour);
    out.append(":");
    push_2(out, t.minute);
    out.append(":");
    push_2(out, t.second);
    proof {
        assert(out@ =~= old(out)@ + enc_time(t));
    }
}

/// Appends a date as `YYYY-MM-DD`.
fn push_date(out: &mut String, d: Date)
    requires
        d.wf(),
    ensures
        final (out)@ == old(out)@ + enc_date(d),
{
    push_4(out, d.year);
    out.append("-");
    push_2(out, d.month);
    out.append("-");
    push_2(out, d.day);
    proof {
        assert(out@ =~= old(out)@ + enc_date(d));
    }
}

/// Appends a boolean.
fn push_bool(out: &mut String, b: bool)
    ensures
        final (out)@ == old(out)@ + enc_bool(b),
{
    if b {
        out.append("true");
    } else {
        out.append("false");
    }
}

/// Appends one tardiness record.
#[verifier::rlimit(60)]
fn push_entry(out: &mut String, e: &Entry)
    requires
        e.wf(),
    ensures
        final (out)@ == old(out)@ + enc_entry(*e),
{
    out.append("{\"person\":\"");
    push_class(out, e.person);
    out.append(",\"lesson\":\"");
    push_lesson(out, e.lesson);
    out.append(",\"lesson_time\":\"");
    push_time(out, e.lesson_time);
    out.append("\",\"delay_min\":");
    push_u32(out, e.delay_min);
    out.append(",\"first_lesson\":");
    push_bool(out, e.first_lesson);
    out.append(",\"date\":\"");
    push_date(out, e.date);
    out.append("\"}");
    proof {
        reveal(enc_entry);
        assert(out@ =~= old(out)@ + enc_entry(*e));
    }
}

/// Appends one absence roster.
#[verifier::rlimit(60)]
fn push_absence(out: &mut String, a: &LessonAbs)
    requires
        a.wf(),
    ensures
        final (out)@ == old(out)@ + enc_absence(*a),
{
    out.append("{\"present\":[");
    let ghost f = enc_present_fn();
    let mut i: usize = 0;
    while i < a.present.len()
        invariant
            i <= a.present@.len(),
            a.wf(),
            out@ == old(out)@ + "{\"present\":["@ + enc_list(a.present@.take(i as int), f),
            f == enc_present_fn(),
        decreases a.present@.len() - i,
    {
        proof {
            lemma_enc_list_push(a.present@.take(i as int), f, a.present@[i as int]);
            assert(a.present@.take(i as int).push(a.present@[i as int]) =~= a.present@.take(
                i + 1,
            ));
        }
        if i > 0 {
            out.append(",");
        }
        out.append("\"");
        push_class(out, a.present[i]);
        proof {
            if i > 0 {
                assert(out@ =~= old(out)@ + "{\"present\":["@ + enc_list(
                    a.present@.take(i + 1),
                    f,
                ));
            } else {
                assert(out@ =~= old(out)@ + "{\"present\":["@ + enc_list(
                    a.present@.take(i + 1),
                    f,
                ));
            }
        }
        i = i + 1;
    }
    proof {
        assert(a.present@.take(a.present@.len() as int) =~= a.present@);
    }
    out.append("]");
    out.append(",\"lesson\":\"");
    push_lesson(out, a.lesson);
    out.append(",\"lesson_time\":\"");
    push_time(out, a.lesson_time);
    out.append("\",\"first_lesson\":");
    push_bool(out, a.first_lesson);
    out.append(",\"date\":\"");
    push_date(out, a.date);
    out.append("\"}");
    proof {
        reveal(enc_absence);
        assert(out@ =~= old(out)@ + enc_absence(*a));
    }
}

/// Whether the text holds exactly `lit` at position `i`.
fn match_lit(s: &str, i: usize, lit: &str) -> (r: bool)
    ensures
        r == (i + lit@.len() <= s@.len() && s@.subrange(i as int, i as int + lit@.len() as int)
            == lit@),
{
    let n = lit.unicode_len();
    let sl = s.unicode_len();
    if n > sl || i > sl - n {
        return false;
    }
    let mut k: usize = 0;
    while k < n
        invariant
            k <= n,
            n == lit@.len(),
            sl == s@.len(),
            i + n <= sl,
            forall|j: int| 0 <= j < k ==> s@[i + j] == lit@[j],
        decreases n - k,
    {
        if s.get_char(i + k) != lit.get_char(k) {
            proof {
                let sub = s@.subrange(i as int, i as int + lit@.len() as int);
                if sub == lit@ {
                    assert(sub[k as int] == s@[i + k]);
                }
            }
            return false;
        }
        k = k + 1;
    }
    proof {
        assert(s@.subrange(i as int, i as int + lit@.len() as int) =~= lit@);
    }
    true
}

/// The value of a decimal digit character.
fn digit_of(c: char) -> (r: Option<u32>)
    ensures
        r matches Some(d) ==> d < 10 && c == digit_char(d as int),
        r is None ==> forall|d: int| 0 <= d < 10 ==> c != digit_char(d),
{
    match c {
        '0' => Some(0),
        '1' => Some(1),
        '2' => Some(2),
        '3' => Some(3),
        '4' => Some(4),
        '5' => Some(5),
        '6' => Some(6),
        '7' => Some(7),
        '8' => Some(8),
        '9' => Some(9),
        _ => None,
    }
}

/// Reads a two-digit zero-padded number at position `i`.
fn parse_2(s: &str, i: usize) -> (r: Option<u32>)
    ensures
        r matches Some(n) ==> n < 100 && i + 2 <= s@.len() && s@.subrange(i as int, i as int + 2)
            == enc_2(n),
        forall|n0: u32|
            n0 < 100 && i + 2 <= s@.len() && s@.subrange(i as int, i as int + 2) == enc_2(n0)
                ==> r == Some(n0),
{
    let sl = s.unicode_len();
    if sl < 2 || i > sl - 2 {
        return None;
    }
    let c1 = s.get_char(i);
    let c2 = s.get_char(i + 1);
    proof {
        assert forall|n0: u32|
            n0 < 100 && i + 2 <= s@.len() && s@.subrange(i as int, i as int + 2) == enc_2(
                n0,
            ) implies c1 == digit_char(n0 as int / 10) && c2 == digit_char(n0 as int % 10) by {
            assert(s@.subrange(i as int, i as int + 2)[0] == c1);
            assert(s@.subrange(i as int, i as int + 2)[1] == c2);
        }
    }
    let d1 = match digit_of(c1) {
        Some(d) => d,
        None => {
            return None;
        },
    };
    let d2 = match digit_of(c2) {
        Some(d) => d,
        None => {
            return None;
        },
    };
    let n = d1 * 10 + d2;
    proof {
        lemma_digit_char_injective();
        assert(n as int / 10 == d1 && n as int % 10 == d2);
        assert(s@.subrange(i as int, i as int + 2) =~= enc_2(n));
    }
    Some(n)
}

/// Reads a four-digit zero-padded number at position `i`.
#[verifier::rlimit(100)]
fn parse_4(s: &str, i: usize) -> (r: Option<u32>)
    ensures
        r matches Some(n) ==> n < 10000 && i + 4 <= s@.len() && s@.subrange(
            i as int,
            i as int + 4,
        ) == enc_4(n),
        forall|n0: u32|
            n0 < 10000 && i + 4 <= s@.len() && s@.subrange(i as int, i as int + 4) == enc_4(n0)
                ==> r == Some(n0),
{
    let sl = s.unicode_len();
    if sl < 4 || i > sl - 4 {
        return None;
    }
    let c1 = s.get_char(i);
    let c2 = s.get_char(i + 1);
    let c3 = s.get_char(i + 2);
    let c4 = s.get_char(i + 3);
    proof {
        assert forall|n0: u32|
            n0 < 10000 && i + 4 <= s@.len() && s@.subrange(i as int, i as int + 4) == enc_4(
                n0,
            ) implies c1 == digit_char(n0 as int / 1000) && c2 == digit_char(n0 as int / 100 % 10)
            && c3 == digit_char(n0 as int / 10 % 10) && c4 == digit_char(n0 as int % 10) by {
            assert(s@.subrange(i as int, i as int + 4)[0] == c1);
            assert(s@.subrange(i as int, i as int + 4)[1] == c2);
            assert(s@.subrange(i as int, i as int + 4)[2] == c3);
            assert(s@.subrange(i as int, i as int + 4)[3] == c4);
        }
    }
    let d1 = match digit_of(c1) {
        Some(d) => d,
        None => {
            return None;
        },
    };
    let d2 = match digit_of(c2) {
        Some(d) => d,
        None => {
            return None;
        },
    };
    let d3 = match digit_of(c3) {
        Some(d) => d,
        None => {
            return None;
        },
    };
    let d4 = match digit_of(c4) {
        Some(d) => d,
        None => {
            return None;
        },
    };
    let n = d1 * 1000 + d2 * 100 + d3 * 10 + d4;
    proof {
        lemma_digit_char_injective();
        assert(n as int / 1000 == d1 && n as int / 100 % 10 == d2 && n as int / 10 % 10 == d3 && n
            as int % 10 == d4) by (nonlinear_arith)
            requires
                d1 < 10 && d2 < 10 && d3 < 10 && d4 < 10 && n == d1 * 1000 + d2 * 100 + d3 * 10
                    + d4,
        ;
        assert(s@.subrange(i as int, i as int + 4) =~= enc_4(n));
    }
    Some(n)
}

/// A canonical decimal for `n0` stands at positions `i..j0` of `s`, ended by
/// the end of the text or a non-digit.
pub open spec fn dec_at(s: Seq<char>, i: int, n0: u32, j0: int) -> bool {
    i <= j0 <= s.len() && s.subrange(i, j0) == enc_u32(n0) && (j0 == s.len() || !is_digit_char(
        s[j0],
    ))
}

/// Reads a number in canonical decimal form at position `i`, ending before
/// the first non-digit.
fn parse_u32_at(s: &str, i: usize) -> (r: Option<(u32, usize)>)
    ensures
        r matches Some(p) ==> i < p.1 <= s@.len() && s@.subrange(i as int, p.1 as int) == enc_u32(
            p.0,
        ),
        forall|n0: u32, j0: int| dec_at(s@, i as int, n0, j0) ==> r == Some((n0, j0 as usize)),
{
    let sl = s.unicode_len();
    if i >= sl {
        proof {
            assert forall|n0: u32, j0: int| dec_at(s@, i as int, n0, j0) implies false by {
                lemma_dec_digits(n0 as nat);
            }
        }
        return None;
    }
    let c0 = s.get_char(i);
    let d0 = match digit_of(c0) {
        Some(d) => d,
        None => {
            proof {
                assert forall|n0: u32, j0: int| dec_at(s@, i as int, n0, j0) implies false by {
                    lemma_dec_digits(n0 as nat);
                    assert(s@.subrange(i as int, j0)[0] == s@[i as int]);
                    assert(is_digit_char(c0));
                }
            }
            return None;
        },
    };
    let mut n: u32 = d0;
    let mut j: usize = i + 1;
    proof {
        assert(s@.subrange(i as int, j as int) =~= seq![s@[i as int]]);
    }
    if d0 == 0 {
        proof {
            lemma_digit_char_injective();
            assert forall|n0: u32, j0: int| dec_at(s@, i as int, n0, j0) implies n0 == 0 && j0 == i
                + 1 by {
                lemma_dec_digits(n0 as nat);
                assert(s@.subrange(i as int, j0)[0] == s@[i as int]);
                assert(s@[i as int] == digit_char(0));
                if dec_rec(n0 as nat).len() >= 2 {
                    assert(dec_rec(n0 as nat)[0] != digit_char(0));
                } else {
                    assert(dec_rec(n0 as nat) == seq![digit_char(n0 as int)]);
                }
            }
        }
        return Some((0, j));
    }
    while j < sl
        invariant
            i < j <= sl,
            sl == s@.len(),
            n >= 1,
            s@.subrange(i as int, j as int) == enc_u32(n),
        decreases sl - j,
    {
        let c = s.get_char(j);
        match digit_of(c) {
            None => {
                proof {
                    lemma_dec_digits(n as nat);
                    assert(!is_digit_char(c));
                    assert forall|n0: u32, j0: int|
                        dec_at(s@, i as int, n0, j0) implies n0 == n && j0 == j as int by {
                        lemma_dec_digits(n0 as nat);
                        if j0 < j {
                            assert(s@.subrange(i as int, j as int)[j0 - i] == s@[j0]);
                            assert(is_digit_char(s@[j0]));
                        } else if j0 > j {
                            assert(s@.subrange(i as int, j0)[j as int - i] == s@[j as int]);
                            assert(is_digit_char(s@[j as int]));
                        } else {
                            lemma_dec_injective(n0 as nat, n as nat);
                        }
                    }
                }
                return Some((n, j));
            },
            Some(d) => {
                if n > (0xFFFF_FFFFu32 - d) / 10 {
                    proof {
                        lemma_dec_digits(n as nat);
                        assert forall|n0: u32, j0: int|
                            dec_at(s@, i as int, n0, j0) implies false by {
                            lemma_dec_digits(n0 as nat);
                            if j0 < j {
                                assert(s@.subrange(i as int, j as int)[j0 - i] == s@[j0]);
                                assert(is_digit_char(s@[j0]));
                            } else if j0 == j {
                                assert(s@.subrange(i as int, j0) == s@.subrange(i as int, j as int));
                                lemma_dec_injective(n0 as nat, n as nat);
                                assert(s@[j as int] == c);
                                assert(is_digit_char(c));
                            } else {
                                assert(dec_rec(n0 as nat).take(j as int - i) =~= s@.subrange(
                                    i as int,
                                    j as int,
                                ));
                                assert(dec_rec(n0 as nat)[j as int - i] == s@[j as int]);
                                assert(s@[j as int] == digit_char(d as int));
                                lemma_dec_prefix_bound(n as nat, n0 as nat, d as int);
                                assert(10 * (n as int) + d > 0xFFFF_FFFF);
                            }
                        }
                    }
                    return None;
                }
                proof {
                    let n2 = 10 * (n as int) + d;
                    assert(n2 / 10 == n as int && n2 % 10 == d as int);
                    assert(s@.subrange(i as int, j + 1) =~= s@.subrange(i as int, j as int) + seq![
                        s@[j as int],
                    ]);
                }
                n = n * 10 + d;
                j = j + 1;
            },
        }
    }
    proof {
        lemma_dec_digits(n as nat);
        assert forall|n0: u32, j0: int| dec_at(s@, i as int, n0, j0) implies n0 == n && j0
            == j as int by {
            lemma_dec_digits(n0 as nat);
            if j0 < j {
                assert(s@.subrange(i as int, j as int)[j0 - i] == s@[j0]);
                assert(is_digit_char(s@[j0]));
            } else {
                lemma_dec_injective(n0 as nat, n as nat);
            }
        }
    }
    Some((n, j))
}


/// Reads the person back off the first characters of a quoted name; which
/// characters decide is fixed by the roster.
#[verifier::opaque]
pub open spec fn class_of_text(q: Seq<char>) -> Class {
    if q[0] == 'A' {
        if q[2] == 'i' {
            Class::Anina
        } else if q[2] == 'n' {
            Class::Anne
        } else {
            Class::Antonie
        }
    } else if q[0] == 'C' {
        Class::Carlo
    } else if q[0] == 'E' {
        if q[1] == 'm' {
            Class::Emily
        } else if q[1] == 'v' {
            Class::Evelin
        } else {
            Class::Elena
        }
    } else if q[0] == 'I' {
        if q[1] == 's' {
            Class::Isabelle
        } else {
            Class::Ida
        }
    } else if q[0] == 'J' {
        if q[1] == 'a' {
            Class::Jan
        } else {
            Class::Jonah
        }
    } else if q[0] == 'K' {
        Class::Kilian
    } else if q[0] == 'L' {
        if q[1] == 'e' {
            if q[2] == 'a' {
                Class::Leander
            } else {
                Class::Levin
            }
        } else if q[1] == 'i' {
            Class::Liam
        } else if q[1] == 'a' {
            Class::Laurin
        } else {
            Class::Luis
        }
    } else if q[0] == 'M' {
        if q[1] == 'i' {
            Class::Mia
        } else if q[4] == 'e' {
            Class::Marie
        } else {
            Class::Marija
        }
    } else if q[0] == 'N' {
        if q[1] == 'i' {
            Class::Nicole
        } else {
            Class::Neda
        }
    } else if q[0] == 'R' {
        Class::Raphael
    } else {
        if q[1] == 'o' {
            Class::Sophia
        } else {
            Class::Suya
        }
    }
}

/// Reads the lesson back off the first characters of a quoted name.
#[verifier::opaque]
pub open spec fn lesson_of_text(q: Seq<char>) -> Lesson {
    if q[0] == 'M' {
        if q[1] == 'a' {
            Lesson::Mathe
        } else {
            Lesson::Musik
        }
    } else if q[0] == 'B' {
        if q[1] == 'i' {
            Lesson::Bio
        } else {
            Lesson::BG
        }
    } else if q[0] == 'D' {
        Lesson::Deutsch
    } else if q[0] == 'P' {
        Lesson::Physik
    } else if q[0] == 'F' {
        Lesson::Franzoesisch
    } else if q[0] == 'I' {
        Lesson::Italienisch
    } else if q[0] == 'G' {
        if q[1] == 'r' {
            Lesson::Griechisch
        } else if q[2] == 's' {
            Lesson::Geschichte
        } else {
            Lesson::Geographie
        }
    } else if q[0] == 'E' {
        Lesson::Englisch
    } else if q[0] == 'C' {
        Lesson::Chemie
    } else {
        Lesson::Sport
    }
}

/// No quoted person name is a prefix of another's.
#[verifier::rlimit(100)]
proof fn lemma_class_quoted_prefix(c1: Class, c2: Class)
    requires
        class_quoted(c1).len() <= class_quoted(c2).len(),
        class_quoted(c2).take(class_quoted(c1).len() as int) == class_quoted(c1),
    ensures
        c1 == c2,
{
    reveal(class_quoted);
    reveal(class_of_text);
    reveal_strlit("Nicole\"");
    reveal_strlit("Sophia\"");
    reveal_strlit("Emily\"");
    reveal_strlit("Leander\"");
    reveal_strlit("Suya\"");
    reveal_strlit("Jan\"");
    reveal_strlit("Liam\"");
    reveal_strlit("Evelin\"");
    reveal_strlit("Isabelle\"");
    reveal_strlit("Anina\"");
    reveal_strlit("Carlo\"");
    reveal_strlit("Levin\"");
    reveal_strlit("Anne\"");
    reveal_strlit("Kilian\"");
    reveal_strlit("Jonah\"");
    reveal_strlit("Ida\"");
    reveal_strlit("Neda\"");
    reveal_strlit("Antonie\"");
    reveal_strlit("Laurin\"");
    reveal_strlit("Marija\"");
    reveal_strlit("Raphael\"");
    reveal_strlit("Elena\"");
    reveal_strlit("Luis\"");
    reveal_strlit("Mia\"");
    reveal_strlit("Marie\"");
    let q1 = class_quoted(c1);
    let q2 = class_quoted(c2);
    assert forall|k: int| 0 <= k < q1.len() implies q1[k] == q2[k] by {
        assert(q2.take(q1.len() as int)[k] == q2[k]);
        assert(q2.take(q1.len() as int)[k] == q1[k]);
    }
    assert(q1.len() >= 4);
    assert(q1[0] == q2[0] && q1[1] == q2[1] && q1[2] == q2[2]);
    if q1.len() > 4 {
        assert(q1[4] == q2[4]);
    }
    assert(class_of_text(q1) == c1);
    assert(class_of_text(q2) == c2);
    assert(class_of_text(q1) == class_of_text(q2));
}

/// No quoted lesson name is a prefix of another's.
#[verifier::rlimit(100)]
proof fn lemma_lesson_quoted_prefix(l1: Lesson, l2: Lesson)
    requires
        lesson_quoted(l1).len() <= lesson_quoted(l2).len(),
        lesson_quoted(l2).take(lesson_quoted(l1).len() as int) == lesson_quoted(l1),
    ensures
        l1 == l2,
{
    reveal(lesson_quoted);
    reveal(lesson_of_text);
    reveal_strlit("Mathe\"");
    reveal_strlit("Bio\"");
    reveal_strlit("Deutsch\"");
    reveal_strlit("Physik\"");
    reveal_strlit("Franzoesisch\"");
    reveal_strlit("Italienisch\"");
    reveal_strlit("Geschichte\"");
    reveal_strlit("Englisch\"");
    reveal_strlit("Chemie\"");
    reveal_strlit("Sport\"");
    reveal_strlit("BG\"");
    reveal_strlit("Musik\"");
    reveal_strlit("Griechisch\"");
    reveal_strlit("Geographie\"");
    let q1 = lesson_quoted(l1);
    let q2 = lesson_quoted(l2);
    assert forall|k: int| 0 <= k < q1.len() implies q1[k] == q2[k] by {
        assert(q2.take(q1.len() as int)[k] == q2[k]);
        assert(q2.take(q1.len() as int)[k] == q1[k]);
    }
    assert(q1.len() >= 3);
    assert(q1[0] == q2[0] && q1[1] == q2[1] && q1[2] == q2[2]);
    assert(lesson_of_text(q1) == l1);
    assert(lesson_of_text(q2) == l2);
    assert(lesson_of_text(q1) == lesson_of_text(q2));
}

/// At one position of one text there is room for only one quoted person
/// name.
proof fn lemma_class_quoted_unique(s: Seq<char>, i: int, c: Class, j: int, c0: Class, j0: int)
    requires
        0 <= i <= j <= s.len(),
        s.subrange(i, j) == class_quoted(c),
        i <= j0 <= s.len(),
        s.subrange(i, j0) == class_quoted(c0),
    ensures
        c == c0 && j == j0,
{
    assert(s.subrange(i, j).len() == j - i);
    assert(s.subrange(i, j0).len() == j0 - i);
    if j0 <= j {
        assert forall|k: int|
            0 <= k < class_quoted(c0).len() implies class_quoted(c).take(
            class_quoted(c0).len() as int,
        )[k] == class_quoted(c0)[k] by {
            assert(s.subrange(i, j)[k] == s[i + k]);
            assert(s.subrange(i, j0)[k] == s[i + k]);
        }
        assert(class_quoted(c).take(class_quoted(c0).len() as int) =~= class_quoted(c0));
        lemma_class_quoted_prefix(c0, c);
    } else {
        assert forall|k: int|
            0 <= k < class_quoted(c).len() implies class_quoted(c0).take(
            class_quoted(c).len() as int,
        )[k] == class_quoted(c)[k] by {
            assert(s.subrange(i, j)[k] == s[i + k]);
            assert(s.subrange(i, j0)[k] == s[i + k]);
        }
        assert(class_quoted(c0).take(class_quoted(c).len() as int) =~= class_quoted(c));
        lemma_class_quoted_prefix(c, c0);
    }
}

/// At one position of one text there is room for only one quoted lesson
/// name.
proof fn lemma_lesson_quoted_unique(s: Seq<char>, i: int, l: Lesson, j: int, l0: Lesson, j0: int)
    requires
        0 <= i <= j <= s.len(),
        s.subrange(i, j) == lesson_quoted(l),
        i <= j0 <= s.len(),
        s.subrange(i, j0) == lesson_quoted(l0),
    ensures
        l == l0 && j == j0,
{
    assert(s.subrange(i, j).len() == j - i);
    assert(s.subrange(i, j0).len() == j0 - i);
    if j0 <= j {
        assert forall|k: int|
            0 <= k < lesson_quoted(l0).len() implies lesson_quoted(l).take(
            lesson_quoted(l0).len() as int,
        )[k] == lesson_quoted(l0)[k] by {
            assert(s.subrange(i, j)[k] == s[i + k]);
            assert(s.subrange(i, j0)[k] == s[i + k]);
        }
        assert(lesson_quoted(l).take(lesson_quoted(l0).len() as int) =~= lesson_quoted(l0));
        lemma_lesson_quoted_prefix(l0, l);
    } else {
        assert forall|k: int|
            0 <= k < lesson_quoted(l).len() implies lesson_quoted(l0).take(
            lesson_quoted(l).len() as int,
        )[k] == lesson_quoted(l)[k] by {
            assert(s.subrange(i, j)[k] == s[i + k]);
            assert(s.subrange(i, j0)[k] == s[i + k]);
        }
        assert(lesson_quoted(l0).take(lesson_quoted(l).len() as int) =~= lesson_quoted(l));
        lemma_lesson_quoted_prefix(l, l0);
    }
}

/// Reads a person's name and its closing quote at position `i`.
#[verifier::rlimit(100)]
fn parse_class_at(s: &str, i: usize) -> (r: Option<(Class, usize)>)
    ensures
        r matches Some(p) ==> i < p.1 <= s@.len() && s@.subrange(i as int, p.1 as int)
            == class_quoted(p.0),
        forall|c0: Class, j0: int|
            i <= j0 <= s@.len() && s@.subrange(i as int, j0) == class_quoted(c0) ==> r == Some(
                (c0, j0 as usize),
            ),
{
    let sl = s.unicode_len();
    proof {
        assert(sl == s@.len());
        reveal(class_quoted);
    }
    if match_lit(s, i, "Nicole\"") {
        proof {
            reveal_strlit("Nicole\"");
            assert forall|c0: Class, j0: int|
                i <= j0 <= s@.len() && s@.subrange(i as int, j0) == class_quoted(c0) implies c0
                == Class::Nicole && j0 == i + 7 by {
                lemma_class_quoted_unique(s@, i as int, Class::Nicole, i as int + 7, c0, j0);
            }
        }
        return Some((Class::Nicole, i + 7));
    }
    if match_lit(s, i, "Sophia\"") {
        proof {
            reveal_strlit("Sophia\"");
            assert forall|c0: Class, j0: int|
                i <= j0 <= s@.len() && s@.subrange(i as int, j0) == class_quoted(c0) implies c0
                == Class::Sophia && j0 == i + 7 by {
                lemma_class_quoted_unique(s@, i as int, Class::Sophia, i as int + 7, c0, j0);
            }
        }
        return Some((Class::Sophia, i + 7));
    }
    if match_lit(s, i, "Emily\"") {
        proof {
            reveal_strlit("Emily\"");
            assert forall|c0: Class, j0: int|
                i <= j0 <= s@.len() && s@.subrange(i as int, j0) == class_quoted(c0) implies c0
                == Class::Emily && j0 == i + 6 by {
                lemma_class_quoted_unique(s@, i as int, Class::Emily, i as int + 6, c0, j0);
            }
        }
        return Some((Class::Emily, i + 6));
    }
    if match_lit(s, i, "Leander\"") {
        proof {
            reveal_strlit("Leander\"");
            assert forall|c0: Class, j0: int|
                i <= j0 <= s@.len() && s@.subrange(i as int, j0) == class_quoted(c0) implies c0
                == Class::Leander && j0 == i + 8 by {
                lemma_class_quoted_unique(s@, i as int, Class::Leander, i as int + 8, c0, j0);
            }
        }
        return Some((Class::Leander, i + 8));
    }
    if match_lit(s, i, "Suya\"") {
        proof {
            reveal_strlit("Suya\"");
            assert forall|c0: Class, j0: int|
                i <= j0 <= s@.len() && s@.subrange(i as int, j0) == class_quoted(c0) implies c0
                == Class::Suya && j0 == i + 5 by {
                lemma_class_quoted_unique(s@, i as int, Class::Suya, i as int + 5, c0, j0);
            }
        }
        return Some((Class::Suya, i + 5));
    }
    if match_lit(s, i, "Jan\"") {
        proof {
            reveal_strlit("Jan\"");
            assert forall|c0: Class, j0: int|
                i <= j0 <= s@.len() && s@.subrange(i as int, j0) == class_quoted(c0) implies c0
                == Class::Jan && j0 == i + 4 by {
                lemma_class_quoted_unique(s@, i as int, Class::Jan, i as int + 4, c0, j0);
            }
        }
        return Some((Class::Jan, i + 4));
    }
    if match_lit(s, i, "Liam\"") {
        proof {
            reveal_strlit("Liam\"");
            assert forall|c0: Class, j0: int|
                i <= j0 <= s@.len() && s@.subrange(i as int, j0) == class_quoted(c0) implies c0
                == Class::Liam && j0 == i + 5 by {
                lemma_class_quoted_unique(s@, i as int, Class::Liam, i as int + 5, c0, j0);
            }
        }
        return Some((Class::Liam, i + 5));
    }
    if match_lit(s, i, "Evelin\"") {
        proof {
            reveal_strlit("Evelin\"");
            assert forall|c0: Class, j0: int|
                i <= j0 <= s@.len() && s@.subrange(i as int, j0) == class_quoted(c0) implies c0
                == Class::Evelin && j0 == i + 7 by {
                lemma_class_quoted_unique(s@, i as int, Class::Evelin, i as int + 7, c0, j0);
            }
        }
        return Some((Class::Evelin, i + 7));
    }
    if match_lit(s, i, "Isabelle\"") {
        proof {
            reveal_strlit("Isabelle\"");
            assert forall|c0: Class, j0: int|
                i <= j0 <= s@.len() && s@.subrange(i as int, j0) == class_quoted(c0) implies c0
                == Class::Isabelle && j0 == i + 9 by {
                lemma_class_quoted_unique(s@, i as int, Class::Isabelle, i as int + 9, c0, j0);
            }
        }
        return Some((Class::Isabelle, i + 9));
    }
    if match_lit(s, i, "Anina\"") {
        proof {
            reveal_strlit("Anina\"");
            assert forall|c0: Class, j0: int|
                i <= j0 <= s@.len() && s@.subrange(i as int, j0) == class_quoted(c0) implies c0
                == Class::Anina && j0 == i + 6 by {
                lemma_class_quoted_unique(s@, i as int, Class::Anina, i as int + 6, c0, j0);
            }
        }
        return Some((Class::Anina, i + 6));
    }
    if match_lit(s, i, "Carlo\"") {
        proof {
            reveal_strlit("Carlo\"");
            assert forall|c0: Class, j0: int|
                i <= j0 <= s@.len() && s@.subrange(i as int, j0) == class_quoted(c0) implies c0
                == Class::Carlo && j0 == i + 6 by {
                lemma_class_quoted_unique(s@, i as int, Class::Carlo, i as int + 6, c0, j0);
            }
        }
        return Some((Class::Carlo, i + 6));
    }
    if match_lit(s, i, "Levin\"") {
        proof {
            reveal_strlit("Levin\"");
            assert forall|c0: Class, j0: int|
                i <= j0 <= s@.len() && s@.subrange(i as int, j0) == class_quoted(c0) implies c0
                == Class::Levin && j0 == i + 6 by {
                lemma_class_quoted_unique(s@, i as int, Class::Levin, i as int + 6, c0, j0);
            }
        }
        return Some((Class::Levin, i + 6));
    }
    if match_lit(s, i, "Anne\"") {
        proof {
            reveal_strlit("Anne\"");
            assert forall|c0: Class, j0: int|
                i <= j0 <= s@.len() && s@.subrange(i as int, j0) == class_quoted(c0) implies c0
                == Class::Anne && j0 == i + 5 by {
                lemma_class_quoted_unique(s@, i as int, Class::Anne, i as int + 5, c0, j0);
            }
        }
        return Some((Class::Anne, i + 5));
    }
    if match_lit(s, i, "Kilian\"") {
        proof {
            reveal_strlit("Kilian\"");
            assert forall|c0: Class, j0: int|
                i <= j0 <= s@.len() && s@.subrange(i as int, j0) == class_quoted(c0) implies c0
                == Class::Kilian && j0 == i + 7 by {
                lemma_class_quoted_unique(s@, i as int, Class::Kilian, i as int + 7, c0, j0);
            }
        }
        return Some((Class::Kilian, i + 7));
    }
    if match_lit(s, i, "Jonah\"") {
        proof {
            reveal_strlit("Jonah\"");
            assert forall|c0: Class, j0: int|
                i <= j0 <= s@.len() && s@.subrange(i as int, j0) == class_quoted(c0) implies c0
                == Class::Jonah && j0 == i + 6 by {
                lemma_class_quoted_unique(s@, i as int, Class::Jonah, i as int + 6, c0, j0);
            }
        }
        return Some((Class::Jonah, i + 6));
    }
    if match_lit(s, i, "Ida\"") {
        proof {
            reveal_strlit("Ida\"");
            assert forall|c0: Class, j0: int|
                i <= j0 <= s@.len() && s@.subrange(i as int, j0) == class_quoted(c0) implies c0
                == Class::Ida && j0 == i + 4 by {
                lemma_class_quoted_unique(s@, i as int, Class::Ida, i as int + 4, c0, j0);
            }
        }
        return Some((Class::Ida, i + 4));
    }
    if match_lit(s, i, "Neda\"") {
        proof {
            reveal_strlit("Neda\"");
            assert forall|c0: Class, j0: int|
                i <= j0 <= s@.len() && s@.subrange(i as int, j0) == class_quoted(c0) implies c0
                == Class::Neda && j0 == i + 5 by {
                lemma_class_quoted_unique(s@, i as int, Class::Neda, i as int + 5, c0, j0);
            }
        }
        return Some((Class::Neda, i + 5));
    }
    if match_lit(s, i, "Antonie\"") {
        proof {
            reveal_strlit("Antonie\"");
            assert forall|c0: Class, j0: int|
                i <= j0 <= s@.len() && s@.subrange(i as int, j0) == class_quoted(c0) implies c0
                == Class::Antonie && j0 == i + 8 by {
                lemma_class_quoted_unique(s@, i as int, Class::Antonie, i as int + 8, c0, j0);
            }
        }
        return Some((Class::Antonie, i + 8));
    }
    if match_lit(s, i, "Laurin\"") {
        proof {
            reveal_strlit("Laurin\"");
            assert forall|c0: Class, j0: int|
                i <= j0 <= s@.len() && s@.subrange(i as int, j0) == class_quoted(c0) implies c0
                == Class::Laurin && j0 == i + 7 by {
                lemma_class_quoted_unique(s@, i as int, Class::Laurin, i as int + 7, c0, j0);
            }
        }
        return Some((Class::Laurin, i + 7));
    }
    if match_lit(s, i, "Marija\"") {
        proof {
            reveal_strlit("Marija\"");
            assert forall|c0: Class, j0: int|
                i <= j0 <= s@.len() && s@.subrange(i as int, j0) == class_quoted(c0) implies c0
                == Class::Marija && j0 == i + 7 by {
                lemma_class_quoted_unique(s@, i as int, Class::Marija, i as int + 7, c0, j0);
            }
        }
        return Some((Class::Marija, i + 7));
    }
    if match_lit(s, i, "Raphael\"") {
        proof {
            reveal_strlit("Raphael\"");
            assert forall|c0: Class, j0: int|
                i <= j0 <= s@.len() && s@.subrange(i as int, j0) == class_quoted(c0) implies c0
                == Class::Raphael && j0 == i + 8 by {
                lemma_class_quoted_unique(s@, i as int, Class::Raphael, i as int + 8, c0, j0);
            }
        }
        return Some((Class::Raphael, i + 8));
    }
    if match_lit(s, i, "Elena\"") {
        proof {
            reveal_strlit("Elena\"");
            assert forall|c0: Class, j0: int|
                i <= j0 <= s@.len() && s@.subrange(i as int, j0) == class_quoted(c0) implies c0
                == Class::Elena && j0 == i + 6 by {
                lemma_class_quoted_unique(s@, i as int, Class::Elena, i as int + 6, c0, j0);
            }
        }
        return Some((Class::Elena, i + 6));
    }
    if match_lit(s, i, "Luis\"") {
        proof {
            reveal_strlit("Luis\"");
            assert forall|c0: Class, j0: int|
                i <= j0 <= s@.len() && s@.subrange(i as int, j0) == class_quoted(c0) implies c0
                == Class::Luis && j0 == i + 5 by {
                lemma_class_quoted_unique(s@, i as int, Class::Luis, i as int + 5, c0, j0);
            }
        }
        return Some((Class::Luis, i + 5));
    }
    if match_lit(s, i, "Mia\"") {
        proof {
            reveal_strlit("Mia\"");
            assert forall|c0: Class, j0: int|
                i <= j0 <= s@.len() && s@.subrange(i as int, j0) == class_quoted(c0) implies c0
                == Class::Mia && j0 == i + 4 by {
                lemma_class_quoted_unique(s@, i as int, Class::Mia, i as int + 4, c0, j0);
            }
        }
        return Some((Class::Mia, i + 4));
    }
    if match_lit(s, i, "Marie\"") {
        proof {
            reveal_strlit("Marie\"");
            assert forall|c0: Class, j0: int|
                i <= j0 <= s@.len() && s@.subrange(i as int, j0) == class_quoted(c0) implies c0
                == Class::Marie && j0 == i + 6 by {
                lemma_class_quoted_unique(s@, i as int, Class::Marie, i as int + 6, c0, j0);
            }
        }
        return Some((Class::Marie, i + 6));
    }
    proof {
        assert forall|c0: Class, j0: int|
            i <= j0 <= s@.len() && s@.subrange(i as int, j0) == class_quoted(c0) implies false by {
            assert(j0 - i == class_quoted(c0).len());
        }
    }
    None
}

/// Reads a lesson's name and its closing quote at position `i`.
fn parse_lesson_at(s: &str, i: usize) -> (r: Option<(Lesson, usize)>)
    ensures
        r matches Some(p) ==> i < p.1 <= s@.len() && s@.subrange(i as int, p.1 as int)
            == lesson_quoted(p.0),
        forall|l0: Lesson, j0: int|
            i <= j0 <= s@.len() && s@.subrange(i as int, j0) == lesson_quoted(l0) ==> r == Some(
                (l0, j0 as usize),
            ),
{
    let sl = s.unicode_len();
    proof {
        assert(sl == s@.len());
        reveal(lesson_quoted);
    }
    if match_lit(s, i, "Mathe\"") {
        proof {
            reveal_strlit("Mathe\"");
            assert forall|l0: Lesson, j0: int|
                i <= j0 <= s@.len() && s@.subrange(i as int, j0) == lesson_quoted(l0) implies l0
                == Lesson::Mathe && j0 == i + 6 by {
                lemma_lesson_quoted_unique(s@, i as int, Lesson::Mathe, i as int + 6, l0, j0);
            }
        }
        return Some((Lesson::Mathe, i + 6));
    }
    if match_lit(s, i, "Bio\"") {
        proof {
            reveal_strlit("Bio\"");
            assert forall|l0: Lesson, j0: int|
                i <= j0 <= s@.len() && s@.subrange(i as int, j0) == lesson_quoted(l0) implies l0
                == Lesson::Bio && j0 == i + 4 by {
                lemma_lesson_quoted_unique(s@, i as int, Lesson::Bio, i as int + 4, l0, j0);
            }
        }
        return Some((Lesson::Bio, i + 4));
    }
    if match_lit(s, i, "Deutsch\"") {
        proof {
            reveal_strlit("Deutsch\"");
            assert forall|l0: Lesson, j0: int|
                i <= j0 <= s@.len() && s@.subrange(i as int, j0) == lesson_quoted(l0) implies l0
                == Lesson::Deutsch && j0 == i + 8 by {
                lemma_lesson_quoted_unique(s@, i as int, Lesson::Deutsch, i as int + 8, l0, j0);
            }
        }
        return Some((Lesson::Deutsch, i + 8));
    }
    if match_lit(s, i, "Physik\"") {
        proof {
            reveal_strlit("Physik\"");
            assert forall|l0: Lesson, j0: int|
                i <= j0 <= s@.len() && s@.subrange(i as int, j0) == lesson_quoted(l0) implies l0
                == Lesson::Physik && j0 == i + 7 by {
                lemma_lesson_quoted_unique(s@, i as int, Lesson::Physik, i as int + 7, l0, j0);
            }
        }
        return Some((Lesson::Physik, i + 7));
    }
    if match_lit(s, i, "Franzoesisch\"") {
        proof {
            reveal_strlit("Franzoesisch\"");
            assert forall|l0: Lesson, j0: int|
                i <= j0 <= s@.len() && s@.subrange(i as int, j0) == lesson_quoted(l0) implies l0
                == Lesson::Franzoesisch && j0 == i + 13 by {
                lemma_lesson_quoted_unique(s@, i as int, Lesson::Franzoesisch, i as int + 13, l0, j0);
            }
        }
        return Some((Lesson::Franzoesisch, i + 13));
    }
    if match_lit(s, i, "Italienisch\"") {
        proof {
            reveal_strlit("Italienisch\"");
            assert forall|l0: Lesson, j0: int|
                i <= j0 <= s@.len() && s@.subrange(i as int, j0) == lesson_quoted(l0) implies l0
                == Lesson::Italienisch && j0 == i + 12 by {
                lemma_lesson_quoted_unique(s@, i as int, Lesson::Italienisch, i as int + 12, l0, j0);
            }
        }
        return Some((Lesson::Italienisch, i + 12));
    }
    if match_lit(s, i, "Geschichte\"") {
        proof {
            reveal_strlit("Geschichte\"");
            assert forall|l0: Lesson, j0: int|
                i <= j0 <= s@.len() && s@.subrange(i as int, j0) == lesson_quoted(l0) implies l0
                == Lesson::Geschichte && j0 == i + 11 by {
                lemma_lesson_quoted_unique(s@, i as int, Lesson::Geschichte, i as int + 11, l0, j0);
            }
        }
        return Some((Lesson::Geschichte, i + 11));
    }
    if match_lit(s, i, "Englisch\"") {
        proof {
            reveal_strlit("Englisch\"");
            assert forall|l0: Lesson, j0: int|
                i <= j0 <= s@.len() && s@.subrange(i as int, j0) == lesson_quoted(l0) implies l0
                == Lesson::Englisch && j0 == i + 9 by {
                lemma_lesson_quoted_unique(s@, i as int, Lesson::Englisch, i as int + 9, l0, j0);
            }
        }
        return Some((Lesson::Englisch, i + 9));
    }
    if match_lit(s, i, "Chemie\"") {
        proof {
            reveal_strlit("Chemie\"");
            assert forall|l0: Lesson, j0: int|
                i <= j0 <= s@.len() && s@.subrange(i as int, j0) == lesson_quoted(l0) implies l0
                == Lesson::Chemie && j0 == i + 7 by {
                lemma_lesson_quoted_unique(s@, i as int, Lesson::Chemie, i as int + 7, l0, j0);
            }
        }
        return Some((Lesson::Chemie, i + 7));
    }
    if match_lit(s, i, "Sport\"") {
        proof {
            reveal_strlit("Sport\"");
            assert forall|l0: Lesson, j0: int|
                i <= j0 <= s@.len() && s@.subrange(i as int, j0) == lesson_quoted(l0) implies l0
                == Lesson::Sport && j0 == i + 6 by {
                lemma_lesson_quoted_unique(s@, i as int, Lesson::Sport, i as int + 6, l0, j0);
            }
        }
        return Some((Lesson::Sport, i + 6));
    }
    if match_lit(s, i, "BG\"") {
        proof {
            reveal_strlit("BG\"");
            assert forall|l0: Lesson, j0: int|
                i <= j0 <= s@.len() && s@.subrange(i as int, j0) == lesson_quoted(l0) implies l0
                == Lesson::BG && j0 == i + 3 by {
                lemma_lesson_quoted_unique(s@, i as int, Lesson::BG, i as int + 3, l0, j0);
            }
        }
        return Some((Lesson::BG, i + 3));
    }
    if match_lit(s, i, "Musik\"") {
        proof {
            reveal_strlit("Musik\"");
            assert forall|l0: Lesson, j0: int|
                i <= j0 <= s@.len() && s@.subrange(i as int, j0) == lesson_quoted(l0) implies l0
                == Lesson::Musik && j0 == i + 6 by {
                lemma_lesson_quoted_unique(s@, i as int, Lesson::Musik, i as int + 6, l0, j0);
            }
        }
        return Some((Lesson::Musik, i + 6));
    }
    if match_lit(s, i, "Griechisch\"") {
        proof {
            reveal_strlit("Griechisch\"");
            assert forall|l0: Lesson, j0: int|
                i <= j0 <= s@.len() && s@.subrange(i as int, j0) == lesson_quoted(l0) implies l0
                == Lesson::Griechisch && j0 == i + 11 by {
                lemma_lesson_quoted_unique(s@, i as int, Lesson::Griechisch, i as int + 11, l0, j0);
            }
        }
        return Some((Lesson::Griechisch, i + 11));
    }
    if match_lit(s, i, "Geographie\"") {
        proof {
            reveal_strlit("Geographie\"");
            assert forall|l0: Lesson, j0: int|
                i <= j0 <= s@.len() && s@.subrange(i as int, j0) == lesson_quoted(l0) implies l0
                == Lesson::Geographie && j0 == i + 11 by {
                lemma_lesson_quoted_unique(s@, i as int, Lesson::Geographie, i as int + 11, l0, j0);
            }
        }
        return Some((Lesson::Geographie, i + 11));
    }
    proof {
        assert forall|l0: Lesson, j0: int|
            i <= j0 <= s@.len() && s@.subrange(i as int, j0) == lesson_quoted(l0) implies false by {
            assert(j0 - i == lesson_quoted(l0).len());
        }
    }
    None
}

/// Reads `true` or `false` at position `i`.
fn parse_bool_at(s: &str, i: usize) -> (r: Option<(bool, usize)>)
    ensures
        r matches Some(p) ==> i < p.1 <= s@.len() && s@.subrange(i as int, p.1 as int) == enc_bool(
            p.0,
        ),
        forall|b0: bool, j0: int|
            i <= j0 <= s@.len() && s@.subrange(i as int, j0) == enc_bool(b0) ==> r == Some(
                (b0, j0 as usize),
            ),
{
    let sl = s.unicode_len();
    proof {
        assert(sl == s@.len());
    }
    if match_lit(s, i, "true") {
        proof {
            reveal_strlit("true");
            reveal_strlit("false");
            assert forall|b0: bool, j0: int|
                i <= j0 <= s@.len() && s@.subrange(i as int, j0) == enc_bool(b0) implies b0 && j0
                == i + 4 by {
                assert(j0 - i == enc_bool(b0).len());
                assert(s@.subrange(i as int, j0)[0] == s@[i as int]);
                assert(s@.subrange(i as int, i as int + 4)[0] == s@[i as int]);
            }
        }
        return Some((true, i + 4));
    }
    if match_lit(s, i, "false") {
        proof {
            reveal_strlit("true");
            reveal_strlit("false");
            assert forall|b0: bool, j0: int|
                i <= j0 <= s@.len() && s@.subrange(i as int, j0) == enc_bool(b0) implies !b0 && j0
                == i + 5 by {
                assert(j0 - i == enc_bool(b0).len());
                assert(s@.subrange(i as int, j0)[0] == s@[i as int]);
                assert(s@.subrange(i as int, i as int + 5)[0] == s@[i as int]);
            }
        }
        return Some((false, i + 5));
    }
    proof {
        reveal_strlit("true");
        reveal_strlit("false");
        assert forall|b0: bool, j0: int|
            i <= j0 <= s@.len() && s@.subrange(i as int, j0) == enc_bool(b0) implies false by {
            assert(j0 - i == enc_bool(b0).len());
        }
    }
    None
}

/// Splits a text known to hold `a + b` at `i..j` into the two parts.
proof fn lemma_split_concat(s: Seq<char>, i: int, j: int, a: Seq<char>, b: Seq<char>)
    requires
        0 <= i <= j <= s.len(),
        s.subrange(i, j) == a + b,
    ensures
        j == i + a.len() + b.len(),
        s.subrange(i, i + a.len() as int) == a,
        s.subrange(i + a.len() as int, j) == b,
{
    assert(s.subrange(i, j).len() == j - i);
    assert forall|k: int| 0 <= k < a.len() implies s.subrange(i, i + a.len() as int)[k] == a[k] by {
        assert(s.subrange(i, j)[k] == s[i + k]);
        assert(s.subrange(i, i + a.len() as int)[k] == s[i + k]);
        assert((a + b)[k] == a[k]);
    }
    assert(s.subrange(i, i + a.len() as int) =~= a);
    assert forall|k: int|
        0 <= k < b.len() implies s.subrange(i + a.len() as int, j)[k] == b[k] by {
        assert(s.subrange(i, j)[a.len() + k] == s[i + a.len() + k]);
        assert(s.subrange(i + a.len() as int, j)[k] == s[i + a.len() + k]);
        assert((a + b)[a.len() + k] == b[k]);
    }
    assert(s.subrange(i + a.len() as int, j) =~= b);
}

/// A time text at `i..j0` splits into its five fixed-width parts.
proof fn lemma_enc_time_split(s: Seq<char>, i: int, j0: int, t0: TimeOfDay)
    requires
        0 <= i <= j0 <= s.len(),
        s.subrange(i, j0) == enc_time(t0),
    ensures
        j0 == i + 8,
        s.subrange(i, i + 2) == enc_2(t0.hour),
        s.subrange(i + 2, i + 3) == ":"@,
        s.subrange(i + 3, i + 5) == enc_2(t0.minute),
        s.subrange(i + 5, i + 6) == ":"@,
        s.subrange(i + 6, i + 8) == enc_2(t0.second),
{
    reveal_strlit(":");
    lemma_split_concat(
        s,
        i,
        j0,
        enc_2(t0.hour) + ":"@ + enc_2(t0.minute) + ":"@,
        enc_2(t0.second),
    );
    lemma_split_concat(s, i, i + 6, enc_2(t0.hour) + ":"@ + enc_2(t0.minute), ":"@);
    lemma_split_concat(s, i, i + 5, enc_2(t0.hour) + ":"@, enc_2(t0.minute));
    lemma_split_concat(s, i, i + 3, enc_2(t0.hour), ":"@);
}

/// A date text at `i..j0` splits into its five fixed-width parts.
proof fn lemma_enc_date_split(s: Seq<char>, i: int, j0: int, d0: Date)
    requires
        0 <= i <= j0 <= s.len(),
        s.subrange(i, j0) == enc_date(d0),
    ensures
        j0 == i + 10,
        s.subrange(i, i + 4) == enc_4(d0.year),
        s.subrange(i + 4, i + 5) == "-"@,
        s.subrange(i + 5, i + 7) == enc_2(d0.month),
        s.subrange(i + 7, i + 8) == "-"@,
        s.subrange(i + 8, i + 10) == enc_2(d0.day),
{
    reveal_strlit("-");
    lemma_split_concat(
        s,
        i,
        j0,
        enc_4(d0.year) + "-"@ + enc_2(d0.month) + "-"@,
        enc_2(d0.day),
    );
    lemma_split_concat(s, i, i + 8, enc_4(d0.year) + "-"@ + enc_2(d0.month), "-"@);
    lemma_split_concat(s, i, i + 7, enc_4(d0.year) + "-"@, enc_2(d0.month));
    lemma_split_concat(s, i, i + 5, enc_4(d0.year), "-"@);
}

/// Reads a well-formed time of day as `HH:MM:SS` at position `i`.
fn parse_time_at(s: &str, i: usize) -> (r: Option<(TimeOfDay, usize)>)
    ensures
        r matches Some(p) ==> i < p.1 <= s@.len() && s@.subrange(i as int, p.1 as int) == enc_time(
            p.0,
        ) && p.0.wf(),
        forall|t0: TimeOfDay, j0: int|
            t0.wf() && i <= j0 <= s@.len() && s@.subrange(i as int, j0) == enc_time(t0) ==> r
                == Some((t0, j0 as usize)),
{
    let sl = s.unicode_len();
    proof {
        assert(sl == s@.len());
    }
    let h = match parse_2(s, i) {
        Some(n) => n,
        None => {
            proof {
                assert forall|t0: TimeOfDay, j0: int|
                    t0.wf() && i <= j0 <= s@.len() && s@.subrange(i as int, j0) == enc_time(
                        t0,
                    ) implies false by {
                    lemma_enc_time_split(s@, i as int, j0, t0);
                }
            }
            return None;
        },
    };
    if h >= 24 {
        proof {
            assert forall|t0: TimeOfDay, j0: int|
                t0.wf() && i <= j0 <= s@.len() && s@.subrange(i as int, j0) == enc_time(
                    t0,
                ) implies false by {
                lemma_enc_time_split(s@, i as int, j0, t0);
            }
        }
        return None;
    }
    if !match_lit(s, i + 2, ":") {
        proof {
            assert forall|t0: TimeOfDay, j0: int|
                t0.wf() && i <= j0 <= s@.len() && s@.subrange(i as int, j0) == enc_time(
                    t0,
                ) implies false by {
                lemma_enc_time_split(s@, i as int, j0, t0);
                reveal_strlit(":");
            }
        }
        return None;
    }
    proof {
        reveal_strlit(":");
    }
    let m = match parse_2(s, i + 3) {
        Some(n) => n,
        None => {
            proof {
                assert forall|t0: TimeOfDay, j0: int|
                    t0.wf() && i <= j0 <= s@.len() && s@.subrange(i as int, j0) == enc_time(
                        t0,
                    ) implies false by {
                    lemma_enc_time_split(s@, i as int, j0, t0);
                }
            }
            return None;
        },
    };
    if m >= 60 {
        proof {
            assert forall|t0: TimeOfDay, j0: int|
                t0.wf() && i <= j0 <= s@.len() && s@.subrange(i as int, j0) == enc_time(
                    t0,
                ) implies false by {
                lemma_enc_time_split(s@, i as int, j0, t0);
            }
        }
        return None;
    }
    if !match_lit(s, i + 5, ":") {
        proof {
            assert forall|t0: TimeOfDay, j0: int|
                t0.wf() && i <= j0 <= s@.len() && s@.subrange(i as int, j0) == enc_time(
                    t0,
                ) implies false by {
                lemma_enc_time_split(s@, i as int, j0, t0);
                reveal_strlit(":");
            }
        }
        return None;
    }
    let sec = match parse_2(s, i + 6) {
        Some(n) => n,
        None => {
            proof {
                assert forall|t0: TimeOfDay, j0: int|
                    t0.wf() && i <= j0 <= s@.len() && s@.subrange(i as int, j0) == enc_time(
                        t0,
                    ) implies false by {
                    lemma_enc_time_split(s@, i as int, j0, t0);
                }
            }
            return None;
        },
    };
    if sec >= 60 {
        proof {
            assert forall|t0: TimeOfDay, j0: int|
                t0.wf() && i <= j0 <= s@.len() && s@.subrange(i as int, j0) == enc_time(
                    t0,
                ) implies false by {
                lemma_enc_time_split(s@, i as int, j0, t0);
            }
        }
        return None;
    }
    let t = TimeOfDay { hour: h, minute: m, second: sec };
    proof {
        assert(s@.subrange(i as int, i + 8) =~= s@.subrange(i as int, i + 2) + s@.subrange(
            i + 2,
            i + 3,
        ) + s@.subrange(i + 3, i + 5) + s@.subrange(i + 5, i + 6) + s@.subrange(i + 6, i + 8));
        assert(s@.subrange(i as int, i + 8) =~= enc_time(t));
        assert forall|t0: TimeOfDay, j0: int|
            t0.wf() && i <= j0 <= s@.len() && s@.subrange(i as int, j0) == enc_time(
                t0,
            ) implies t0 == t && j0 == i + 8 by {
            lemma_enc_time_split(s@, i as int, j0, t0);
        }
    }
    Some((t, i + 8))
}

/// Reads a well-formed date as `YYYY-MM-DD` at position `i`.
fn parse_date_at(s: &str, i: usize) -> (r: Option<(Date, usize)>)
    ensures
        r matches Some(p) ==> i < p.1 <= s@.len() && s@.subrange(i as int, p.1 as int) == enc_date(
            p.0,
        ) && p.0.wf(),
        forall|d0: Date, j0: int|
            d0.wf() && i <= j0 <= s@.len() && s@.subrange(i as int, j0) == enc_date(d0) ==> r
                == Some((d0, j0 as usize)),
{
    let sl = s.unicode_len();
    proof {
        assert(sl == s@.len());
    }
    let y = match parse_4(s, i) {
        Some(n) => n,
        None => {
            proof {
                assert forall|d0: Date, j0: int|
                    d0.wf() && i <= j0 <= s@.len() && s@.subrange(i as int, j0) == enc_date(
                        d0,
                    ) implies false by {
                    lemma_enc_date_split(s@, i as int, j0, d0);
                }
            }
            return None;
        },
    };
    if !match_lit(s, i + 4, "-") {
        proof {
            assert forall|d0: Date, j0: int|
                d0.wf() && i <= j0 <= s@.len() && s@.subrange(i as int, j0) == enc_date(
                    d0,
                ) implies false by {
                lemma_enc_date_split(s@, i as int, j0, d0);
                reveal_strlit("-");
            }
        }
        return None;
    }
    proof {
        reveal_strlit("-");
    }
    let m = match parse_2(s, i + 5) {
        Some(n) => n,
        None => {
            proof {
                assert forall|d0: Date, j0: int|
                    d0.wf() && i <= j0 <= s@.len() && s@.subrange(i as int, j0) == enc_date(
                        d0,
                    ) implies false by {
                    lemma_enc_date_split(s@, i as int, j0, d0);
                }
            }
            return None;
        },
    };
    if m < 1 || m > 12 {
        proof {
            assert forall|d0: Date, j0: int|
                d0.wf() && i <= j0 <= s@.len() && s@.subrange(i as int, j0) == enc_date(
                    d0,
                ) implies false by {
                lemma_enc_date_split(s@, i as int, j0, d0);
            }
        }
        return None;
    }
    if !match_lit(s, i + 7, "-") {
        proof {
            assert forall|d0: Date, j0: int|
                d0.wf() && i <= j0 <= s@.len() && s@.subrange(i as int, j0) == enc_date(
                    d0,
                ) implies false by {
                lemma_enc_date_split(s@, i as int, j0, d0);
                reveal_strlit("-");
            }
        }
        return None;
    }
    let d = match parse_2(s, i + 8) {
        Some(n) => n,
        None => {
            proof {
                assert forall|d0: Date, j0: int|
                    d0.wf() && i <= j0 <= s@.len() && s@.subrange(i as int, j0) == enc_date(
                        d0,
                    ) implies false by {
                    lemma_enc_date_split(s@, i as int, j0, d0);
                }
            }
            return None;
        },
    };
    if d < 1 || d > crate::time::days_in_month(y, m) {
        proof {
            assert forall|d0: Date, j0: int|
                d0.wf() && i <= j0 <= s@.len() && s@.subrange(i as int, j0) == enc_date(
                    d0,
                ) implies false by {
                lemma_enc_date_split(s@, i as int, j0, d0);
            }
        }
        return None;
    }
    let date = Date { year: y, month: m, day: d };
    proof {
        assert(s@.subrange(i as int, i + 10) =~= s@.subrange(i as int, i + 4) + s@.subrange(
            i + 4,
            i + 5,
        ) + s@.subrange(i + 5, i + 7) + s@.subrange(i + 7, i + 8) + s@.subrange(i + 8, i + 10));
        assert(s@.subrange(i as int, i + 10) =~= enc_date(date));
        assert forall|d0: Date, j0: int|
            d0.wf() && i <= j0 <= s@.len() && s@.subrange(i as int, j0) == enc_date(
                d0,
            ) implies d0 == date && j0 == i + 10 by {
            lemma_enc_date_split(s@, i as int, j0, d0);
        }
    }
    Some((date, i + 10))
}

/// Where each part of an encoded record ends, relative to its start: after
/// the person label, the person, the lesson label, the lesson, and so on.
spec fn ep1(e: Entry, i: int) -> int {
    i + "{\"person\":\""@.len()
}

spec fn ep2(e: Entry, i: int) -> int {
    ep1(e, i) + class_quoted(e.person).len()
}

spec fn ep3(e: Entry, i: int) -> int {
    ep2(e, i) + ",\"lesson\":\""@.len()
}

spec fn ep4(e: Entry, i: int) -> int {
    ep3(e, i) + lesson_quoted(e.lesson).len()
}

spec fn ep5(e: Entry, i: int) -> int {
    ep4(e, i) + ",\"lesson_time\":\""@.len()
}

spec fn ep6(e: Entry, i: int) -> int {
    ep5(e, i) + enc_time(e.lesson_time).len()
}

spec fn ep7(e: Entry, i: int) -> int {
    ep6(e, i) + "\",\"delay_min\":"@.len()
}

spec fn ep8(e: Entry, i: int) -> int {
    ep7(e, i) + enc_u32(e.delay_min).len()
}

spec fn ep9(e: Entry, i: int) -> int {
    ep8(e, i) + ",\"first_lesson\":"@.len()
}

spec fn ep10(e: Entry, i: int) -> int {
    ep9(e, i) + enc_bool(e.first_lesson).len()
}

spec fn ep11(e: Entry, i: int) -> int {
    ep10(e, i) + ",\"date\":\""@.len()
}

spec fn ep12(e: Entry, i: int) -> int {
    ep11(e, i) + enc_date(e.date).len()
}

spec fn ep13(e: Entry, i: int) -> int {
    ep12(e, i) + "\"}"@.len()
}

/// An encoded record at `i..j0` splits into its thirteen parts.
proof fn lemma_enc_entry_split(s: Seq<char>, i: int, j0: int, e: Entry)
    requires
        0 <= i <= j0 <= s.len(),
        s.subrange(i, j0) == enc_entry(e),
    ensures
        s.subrange(i, ep1(e, i)) == "{\"person\":\""@,
        s.subrange(ep1(e, i), ep2(e, i)) == class_quoted(e.person),
        s.subrange(ep2(e, i), ep3(e, i)) == ",\"lesson\":\""@,
        s.subrange(ep3(e, i), ep4(e, i)) == lesson_quoted(e.lesson),
        s.subrange(ep4(e, i), ep5(e, i)) == ",\"lesson_time\":\""@,
        s.subrange(ep5(e, i), ep6(e, i)) == enc_time(e.lesson_time),
        s.subrange(ep6(e, i), ep7(e, i)) == "\",\"delay_min\":"@,
        s.subrange(ep7(e, i), ep8(e, i)) == enc_u32(e.delay_min),
        s.subrange(ep8(e, i), ep9(e, i)) == ",\"first_lesson\":"@,
        s.subrange(ep9(e, i), ep10(e, i)) == enc_bool(e.first_lesson),
        s.subrange(ep10(e, i), ep11(e, i)) == ",\"date\":\""@,
        s.subrange(ep11(e, i), ep12(e, i)) == enc_date(e.date),
        s.subrange(ep12(e, i), ep13(e, i)) == "\"}"@,
        j0 == ep13(e, i),
{
    let p1 = "{\"person\":\""@;
    let c = class_quoted(e.person);
    let p3 = ",\"lesson\":\""@;
    let l = lesson_quoted(e.lesson);
    let p5 = ",\"lesson_time\":\""@;
    let t = enc_time(e.lesson_time);
    let p7 = "\",\"delay_min\":"@;
    let d = enc_u32(e.delay_min);
    let p9 = ",\"first_lesson\":"@;
    let b = enc_bool(e.first_lesson);
    let p11 = ",\"date\":\""@;
    let dt = enc_date(e.date);
    let p13 = "\"}"@;
    reveal(enc_entry);
    lemma_split_concat(s, i, j0, p1 + c + p3 + l + p5 + t + p7 + d + p9 + b + p11 + dt, p13);
    lemma_split_concat(s, i, ep12(e, i), p1 + c + p3 + l + p5 + t + p7 + d + p9 + b + p11, dt);
    lemma_split_concat(s, i, ep11(e, i), p1 + c + p3 + l + p5 + t + p7 + d + p9 + b, p11);
    lemma_split_concat(s, i, ep10(e, i), p1 + c + p3 + l + p5 + t + p7 + d + p9, b);
    lemma_split_concat(s, i, ep9(e, i), p1 + c + p3 + l + p5 + t + p7 + d, p9);
    lemma_split_concat(s, i, ep8(e, i), p1 + c + p3 + l + p5 + t + p7, d);
    lemma_split_concat(s, i, ep7(e, i), p1 + c + p3 + l + p5 + t, p7);
    lemma_split_concat(s, i, ep6(e, i), p1 + c + p3 + l + p5, t);
    lemma_split_concat(s, i, ep5(e, i), p1 + c + p3 + l, p5);
    lemma_split_concat(s, i, ep4(e, i), p1 + c + p3, l);
    lemma_split_concat(s, i, ep3(e, i), p1 + c, p3);
    lemma_split_concat(s, i, ep2(e, i), p1, c);
}

/// Everything a parse of an encoded record may rely on: the parts at their
/// positions, and that the delay number ends at a non-digit.
proof fn lemma_entry_parts(s: Seq<char>, i: int, j0: int, e: Entry)
    requires
        0 <= i <= j0 <= s.len(),
        s.subrange(i, j0) == enc_entry(e),
    ensures
        s.subrange(i, ep1(e, i)) == "{\"person\":\""@,
        s.subrange(ep1(e, i), ep2(e, i)) == class_quoted(e.person),
        s.subrange(ep2(e, i), ep3(e, i)) == ",\"lesson\":\""@,
        s.subrange(ep3(e, i), ep4(e, i)) == lesson_quoted(e.lesson),
        s.subrange(ep4(e, i), ep5(e, i)) == ",\"lesson_time\":\""@,
        s.subrange(ep5(e, i), ep6(e, i)) == enc_time(e.lesson_time),
        s.subrange(ep6(e, i), ep7(e, i)) == "\",\"delay_min\":"@,
        s.subrange(ep7(e, i), ep8(e, i)) == enc_u32(e.delay_min),
        s.subrange(ep8(e, i), ep9(e, i)) == ",\"first_lesson\":"@,
        s.subrange(ep9(e, i), ep10(e, i)) == enc_bool(e.first_lesson),
        s.subrange(ep10(e, i), ep11(e, i)) == ",\"date\":\""@,
        s.subrange(ep11(e, i), ep12(e, i)) == enc_date(e.date),
        s.subrange(ep12(e, i), ep13(e, i)) == "\"}"@,
        j0 == ep13(e, i),
        dec_at(s, ep7(e, i), e.delay_min, ep8(e, i)),
{
    lemma_enc_entry_split(s, i, j0, e);
    reveal_strlit(",\"first_lesson\":");
    assert(s.subrange(ep8(e, i), ep9(e, i))[0] == s[ep8(e, i)]);
    assert(forall|dd: int| 0 <= dd < 10 ==> ',' != digit_char(dd));
    assert(!is_digit_char(s[ep8(e, i)]));
}

/// The opening parts of an encoded record: person, lesson and time of day,
/// with their labels.
pub open spec fn enc_entry_head(person: Class, lesson: Lesson, t: TimeOfDay) -> Seq<char> {
    "{\"person\":\""@ + class_quoted(person) + ",\"lesson\":\""@ + lesson_quoted(lesson)
        + ",\"lesson_time\":\""@ + enc_time(t)
}

/// Adjacent opening parts at `i..c6` make up the head of an encoded record.
proof fn lemma_entry_head_compose(
    s: Seq<char>,
    i: int,
    c1: int,
    c2: int,
    c3: int,
    c4: int,
    c5: int,
    c6: int,
    person: Class,
    lesson: Lesson,
    lesson_time: TimeOfDay,
)
    requires
        0 <= i <= c1 <= c2 <= c3 <= c4 <= c5 <= c6 <= s.len(),
        s.subrange(i, c1) == "{\"person\":\""@,
        s.subrange(c1, c2) == class_quoted(person),
        s.subrange(c2, c3) == ",\"lesson\":\""@,
        s.subrange(c3, c4) == lesson_quoted(lesson),
        s.subrange(c4, c5) == ",\"lesson_time\":\""@,
        s.subrange(c5, c6) == enc_time(lesson_time),
    ensures
        s.subrange(i, c6) == enc_entry_head(person, lesson, lesson_time),
{
    assert(s.subrange(i, c2) =~= s.subrange(i, c1) + s.subrange(c1, c2));
    assert(s.subrange(i, c3) =~= s.subrange(i, c2) + s.subrange(c2, c3));
    assert(s.subrange(i, c4) =~= s.subrange(i, c3) + s.subrange(c3, c4));
    assert(s.subrange(i, c5) =~= s.subrange(i, c4) + s.subrange(c4, c5));
    assert(s.subrange(i, c6) =~= s.subrange(i, c5) + s.subrange(c5, c6));
}

/// Reads the person, lesson and time parts of a record object at position
/// `i`.
#[verifier::rlimit(100)]
fn parse_entry_head(s: &str, i: usize) -> (r: Option<(Class, Lesson, TimeOfDay, usize)>)
    ensures
        r matches Some(p) ==> i < p.3 <= s@.len() && s@.subrange(i as int, p.3 as int)
            == enc_entry_head(p.0, p.1, p.2) && p.2.wf(),
        forall|e0: Entry, j0: int|
            e0.wf() && i <= j0 <= s@.len() && s@.subrange(i as int, j0) == enc_entry(e0) ==> r == Some(
                (e0.person, e0.lesson, e0.lesson_time, ep6(e0, i as int) as usize),
            ),
{
    let sl = s.unicode_len();
    proof {
        assert(sl == s@.len());
    }
    let l1 = "{\"person\":\"";
    if !match_lit(s, i, l1) {
        proof {
            assert forall|e0: Entry, j0: int| e0.wf() && i <= j0 <= s@.len() && s@.subrange(i as int, j0) == enc_entry(e0) implies false by {
                lemma_entry_parts(s@, i as int, j0, e0);
            }
        }
        return None;
    }
    let c1 = i + l1.unicode_len();
    let (person, c2) = match parse_class_at(s, c1) {
        Some(p) => p,
        None => {
            proof {
                assert forall|e0: Entry, j0: int| e0.wf() && i <= j0 <= s@.len() && s@.subrange(i as int, j0) == enc_entry(e0) implies false by {
                    lemma_entry_parts(s@, i as int, j0, e0);
                }
            }
            return None;
        },
    };
    let l2 = ",\"lesson\":\"";
    if !match_lit(s, c2, l2) {
        proof {
            assert forall|e0: Entry, j0: int| e0.wf() && i <= j0 <= s@.len() && s@.subrange(i as int, j0) == enc_entry(e0) implies false by {
                lemma_entry_parts(s@, i as int, j0, e0);
            }
        }
        return None;
    }
    let c3 = c2 + l2.unicode_len();
    let (lesson, c4) = match parse_lesson_at(s, c3) {
        Some(p) => p,
        None => {
            proof {
                assert forall|e0: Entry, j0: int| e0.wf() && i <= j0 <= s@.len() && s@.subrange(i as int, j0) == enc_entry(e0) implies false by {
                    lemma_entry_parts(s@, i as int, j0, e0);
                }
            }
            return None;
        },
    };
    let l3 = ",\"lesson_time\":\"";
    if !match_lit(s, c4, l3) {
        proof {
            assert forall|e0: Entry, j0: int| e0.wf() && i <= j0 <= s@.len() && s@.subrange(i as int, j0) == enc_entry(e0) implies false by {
                lemma_entry_parts(s@, i as int, j0, e0);
            }
        }
        return None;
    }
    let c5 = c4 + l3.unicode_len();
    let (lesson_time, c6) = match parse_time_at(s, c5) {
        Some(p) => p,
        None => {
            proof {
                assert forall|e0: Entry, j0: int| e0.wf() && i <= j0 <= s@.len() && s@.subrange(i as int, j0) == enc_entry(e0) implies false by {
                    lemma_entry_parts(s@, i as int, j0, e0);
                }
            }
            return None;
        },
    };
    proof {
        lemma_entry_head_compose(
            s@,
            i as int,
            c1 as int,
            c2 as int,
            c3 as int,
            c4 as int,
            c5 as int,
            c6 as int,
            person,
            lesson,
            lesson_time,
        );
        assert forall|e0: Entry, j0: int| e0.wf() && i <= j0 <= s@.len() && s@.subrange(i as int, j0) == enc_entry(e0) implies e0.person == person && e0.lesson
            == lesson && e0.lesson_time == lesson_time && ep6(e0, i as int) == c6 as int by {
            lemma_entry_parts(s@, i as int, j0, e0);
        }
    }
    Some((person, lesson, lesson_time, c6))
}

/// Adjacent record parts at `i..c13` make up one whole encoded record.
proof fn lemma_entry_compose(
    s: Seq<char>,
    i: int,
    c6: int,
    c7: int,
    c8: int,
    c9: int,
    c10: int,
    c11: int,
    c12: int,
    c13: int,
    e: Entry,
)
    requires
        0 <= i <= c6 <= c7 <= c8 <= c9 <= c10 <= c11 <= c12 <= c13 <= s.len(),
        s.subrange(i, c6) == enc_entry_head(e.person, e.lesson, e.lesson_time),
        s.subrange(c6, c7) == "\",\"delay_min\":"@,
        s.subrange(c7, c8) == enc_u32(e.delay_min),
        s.subrange(c8, c9) == ",\"first_lesson\":"@,
        s.subrange(c9, c10) == enc_bool(e.first_lesson),
        s.subrange(c10, c11) == ",\"date\":\""@,
        s.subrange(c11, c12) == enc_date(e.date),
        s.subrange(c12, c13) == "\"}"@,
    ensures
        s.subrange(i, c13) == enc_entry(e),
{
    assert(s.subrange(i, c7) =~= s.subrange(i, c6) + s.subrange(c6, c7));
    assert(s.subrange(i, c8) =~= s.subrange(i, c7) + s.subrange(c7, c8));
    assert(s.subrange(i, c9) =~= s.subrange(i, c8) + s.subrange(c8, c9));
    assert(s.subrange(i, c10) =~= s.subrange(i, c9) + s.subrange(c9, c10));
    assert(s.subrange(i, c11) =~= s.subrange(i, c10) + s.subrange(c10, c11));
    assert(s.subrange(i, c12) =~= s.subrange(i, c11) + s.subrange(c11, c12));
    assert(s.subrange(i, c13) =~= s.subrange(i, c12) + s.subrange(c12, c13));
    reveal(enc_entry);
    assert(s.subrange(i, c13) == enc_entry(e));
}

/// Reads the delay, first-lesson flag, date and closing brace of a record
/// object whose opening parts stand at `i..c6`.
#[verifier::rlimit(100)]
fn parse_entry_tail(
    s: &str,
    Ghost(i): Ghost<int>,
    person: Class,
    lesson: Lesson,
    lesson_time: TimeOfDay,
    c6: usize,
) -> (r: Option<(Entry, usize)>)
    requires
        0 <= i <= c6 <= s@.len(),
        s@.subrange(i, c6 as int) == enc_entry_head(person, lesson, lesson_time),
        lesson_time.wf(),
        forall|e0: Entry, j0: int|
            e0.wf() && i <= j0 <= s@.len() && s@.subrange(i, j0) == enc_entry(e0) ==> e0.person == person && e0.lesson == lesson && e0.lesson_time
                == lesson_time && ep6(e0, i) == c6 as int,
    ensures
        r matches Some(p) ==> i < p.1 <= s@.len() && s@.subrange(i, p.1 as int) == enc_entry(p.0)
            && p.0.wf(),
        forall|e0: Entry, j0: int|
            e0.wf() && i <= j0 <= s@.len() && s@.subrange(i, j0) == enc_entry(e0) ==> r == Some((e0, j0 as usize)),
{
    let sl = s.unicode_len();
    proof {
        assert(sl == s@.len());
    }
    let l4 = "\",\"delay_min\":";
    if !match_lit(s, c6, l4) {
        proof {
            assert forall|e0: Entry, j0: int| e0.wf() && i <= j0 <= s@.len() && s@.subrange(i, j0) == enc_entry(e0) implies false by {
                lemma_entry_parts(s@, i, j0, e0);
            }
        }
        return None;
    }
    let c7 = c6 + l4.unicode_len();
    let (delay_min, c8) = match parse_u32_at(s, c7) {
        Some(p) => p,
        None => {
            proof {
                assert forall|e0: Entry, j0: int| e0.wf() && i <= j0 <= s@.len() && s@.subrange(i, j0) == enc_entry(e0) implies false by {
                    lemma_entry_parts(s@, i, j0, e0);
                }
            }
            return None;
        },
    };
    let l5 = ",\"first_lesson\":";
    if !match_lit(s, c8, l5) {
        proof {
            assert forall|e0: Entry, j0: int| e0.wf() && i <= j0 <= s@.len() && s@.subrange(i, j0) == enc_entry(e0) implies false by {
                lemma_entry_parts(s@, i, j0, e0);
            }
        }
        return None;
    }
    let c9 = c8 + l5.unicode_len();
    let (first_lesson, c10) = match parse_bool_at(s, c9) {
        Some(p) => p,
        None => {
            proof {
                assert forall|e0: Entry, j0: int| e0.wf() && i <= j0 <= s@.len() && s@.subrange(i, j0) == enc_entry(e0) implies false by {
                    lemma_entry_parts(s@, i, j0, e0);
                }
            }
            return None;
        },
    };
    let l6 = ",\"date\":\"";
    if !match_lit(s, c10, l6) {
        proof {
            assert forall|e0: Entry, j0: int| e0.wf() && i <= j0 <= s@.len() && s@.subrange(i, j0) == enc_entry(e0) implies false by {
                lemma_entry_parts(s@, i, j0, e0);
            }
        }
        return None;
    }
    let c11 = c10 + l6.unicode_len();
    let (date, c12) = match parse_date_at(s, c11) {
        Some(p) => p,
        None => {
            proof {
                assert forall|e0: Entry, j0: int| e0.wf() && i <= j0 <= s@.len() && s@.subrange(i, j0) == enc_entry(e0) implies false by {
                    lemma_entry_parts(s@, i, j0, e0);
                }
            }
            return None;
        },
    };
    let l7 = "\"}";
    if !match_lit(s, c12, l7) {
        proof {
            assert forall|e0: Entry, j0: int| e0.wf() && i <= j0 <= s@.len() && s@.subrange(i, j0) == enc_entry(e0) implies false by {
                lemma_entry_parts(s@, i, j0, e0);
            }
        }
        return None;
    }
    let c13 = c12 + l7.unicode_len();
    let e = Entry { person, lesson, lesson_time, delay_min, first_lesson, date };
    proof {
        lemma_entry_compose(
            s@,
            i,
            c6 as int,
            c7 as int,
            c8 as int,
            c9 as int,
            c10 as int,
            c11 as int,
            c12 as int,
            c13 as int,
            e,
        );
        assert forall|e0: Entry, j0: int| e0.wf() && i <= j0 <= s@.len() && s@.subrange(i, j0) == enc_entry(e0) implies e0 == e && j0 == c13 as int by {
            lemma_entry_parts(s@, i, j0, e0);
        }
    }
    Some((e, c13))
}

/// Reads one tardiness record object at position `i`.
fn parse_entry_at(s: &str, i: usize) -> (r: Option<(Entry, usize)>)
    ensures
        r matches Some(p) ==> i < p.1 <= s@.len() && s@.subrange(i as int, p.1 as int) == enc_entry(
            p.0,
        ) && p.0.wf(),
        forall|e0: Entry, j0: int|
            e0.wf() && i <= j0 <= s@.len() && s@.subrange(i as int, j0) == enc_entry(e0) ==> r == Some((e0, j0 as usize)),
{
    let (person, lesson, lesson_time, c6) = match parse_entry_head(s, i) {
        Some(p) => p,
        None => {
            proof {
                assert forall|e0: Entry, j0: int| e0.wf() && i <= j0 <= s@.len() && s@.subrange(i as int, j0) == enc_entry(e0) implies false by {
                    lemma_entry_parts(s@, i as int, j0, e0);
                }
            }
            return None;
        },
    };
    let sl = s.unicode_len();
    proof {
        assert(sl == s@.len());
        assert forall|e0: Entry, j0: int|
            e0.wf() && i <= j0 <= s@.len() && s@.subrange(i as int, j0) == enc_entry(
                e0,
            ) implies e0.person == person && e0.lesson == lesson && e0.lesson_time == lesson_time
            && ep6(e0, i as int) == c6 as int by {
            lemma_entry_parts(s@, i as int, j0, e0);
        }
    }
    parse_entry_tail(s, Ghost(i as int), person, lesson, lesson_time, c6)
}

/// The tail of a comma-separated list: the elements from position `k` on,
/// each preceded by a separator.
#[verifier::opaque]
pub open spec fn enc_list_from<T>(s: Seq<T>, k: int, f: spec_fn(T) -> Seq<char>) -> Seq<char>
    decreases s.len() - k,
{
    if k >= s.len() || k < 0 {
        Seq::empty()
    } else {
        ","@ + f(s[k]) + enc_list_from(s, k + 1, f)
    }
}

/// A list's text is the text of its first `k` elements followed by the rest.
proof fn lemma_enc_list_decompose<T>(s: Seq<T>, k: int, f: spec_fn(T) -> Seq<char>)
    requires
        1 <= k <= s.len(),
    ensures
        enc_list(s, f) == enc_list(s.take(k), f) + enc_list_from(s, k, f),
    decreases s.len() - k,
{
    reveal(enc_list_from);
    if k == s.len() {
        assert(s.take(k) =~= s);
        assert(enc_list(s, f) + Seq::<char>::empty() =~= enc_list(s, f));
    } else {
        lemma_enc_list_decompose(s, k + 1, f);
        lemma_enc_list_push(s.take(k), f, s[k]);
        assert(s.take(k).push(s[k]) =~= s.take(k + 1));
        assert((enc_list(s.take(k), f) + ","@ + f(s[k])) + enc_list_from(s, k + 1, f) =~= enc_list(
            s.take(k),
            f,
        ) + (","@ + f(s[k]) + enc_list_from(s, k + 1, f)));
    }
}

/// A non-empty list's text starts with its first element's text.
proof fn lemma_enc_list_first<T>(s: Seq<T>, f: spec_fn(T) -> Seq<char>)
    requires
        s.len() >= 1,
    ensures
        enc_list(s, f) == f(s[0]) + enc_list_from(s, 1, f),
{
    lemma_enc_list_decompose(s, 1, f);
    assert(s.take(1)[0] == s[0]);
    assert(enc_list(s.take(1), f) == f(s[0]));
}

/// An encoded record starts with an opening brace.
proof fn lemma_enc_entry_first(e: Entry)
    ensures
        enc_entry(e).len() >= 1,
        enc_entry(e)[0] == '{',
{
    reveal(enc_entry);
    reveal_strlit("{\"person\":\"");
    assert(enc_entry(e)[0] == "{\"person\":\""@[0]);
}

/// The elements of the `data` array and the closing bracket stand at
/// `i..j0`, and every element is well-formed.
pub open spec fn entries_at(s: Seq<char>, i: int, v0: Seq<Entry>, j0: int) -> bool {
    i <= j0 <= s.len() && s.subrange(i, j0) == enc_list(v0, enc_entry_fn()) + "]"@ && (forall|
        k: int,
    | 0 <= k < v0.len() ==> (#[trigger] v0[k]).wf())
}

/// When the witness list is empty, only the closing bracket stands at `i`.
proof fn lemma_entries_witness_empty(s: Seq<char>, i: int, v0: Seq<Entry>, j0: int)
    requires
        0 <= i,
        entries_at(s, i, v0, j0),
        v0.len() == 0,
    ensures
        j0 == i + 1,
        s.subrange(i, i + 1) == "]"@,
{
    assert(enc_list(v0, enc_entry_fn()) + "]"@ =~= "]"@);
    assert(s.subrange(i, j0).len() == j0 - i);
    reveal_strlit("]");
    assert(s.subrange(i, i + 1) =~= s.subrange(i, j0));
}

/// When the witness list is not empty, its first element's record stands at
/// `i`, followed by the rest of the list.
proof fn lemma_entries_witness_first(s: Seq<char>, i: int, v0: Seq<Entry>, j0: int)
    requires
        0 <= i,
        entries_at(s, i, v0, j0),
        v0.len() >= 1,
    ensures
        i + enc_entry(v0[0]).len() <= j0,
        s.subrange(i, i + enc_entry(v0[0]).len() as int) == enc_entry(v0[0]),
        v0[0].wf(),
        s.subrange(i + enc_entry(v0[0]).len() as int, j0) == enc_list_from(v0, 1, enc_entry_fn())
            + "]"@,
{
    lemma_enc_list_first(v0, enc_entry_fn());
    assert((enc_entry(v0[0]) + enc_list_from(v0, 1, enc_entry_fn())) + "]"@ =~= enc_entry(v0[0]) + (
    enc_list_from(v0, 1, enc_entry_fn()) + "]"@));
    lemma_split_concat(s, i, j0, enc_entry(v0[0]), enc_list_from(v0, 1, enc_entry_fn()) + "]"@);
}

/// Midway through the witness list, either the closing bracket or a
/// separator and the next element's record stands at `cur`.
proof fn lemma_entries_witness_step(
    s: Seq<char>,
    i: int,
    cur: int,
    v0: Seq<Entry>,
    j0: int,
    k: int,
)
    requires
        0 <= i <= cur <= j0,
        entries_at(s, i, v0, j0),
        1 <= k <= v0.len(),
        s.subrange(cur, j0) == enc_list_from(v0, k, enc_entry_fn()) + "]"@,
    ensures
        k == v0.len() ==> j0 == cur + 1 && s.subrange(cur, cur + 1) == "]"@,
        k < v0.len() ==> s.subrange(cur, cur + 1) == ","@ && cur + 2
            + enc_entry(v0[k]).len() <= j0 && s.subrange(
            cur + 1,
            cur + 1 + enc_entry(v0[k]).len() as int,
        ) == enc_entry(v0[k]) && v0[k].wf() && s.subrange(
            cur + 1 + enc_entry(v0[k]).len() as int,
            j0,
        ) == enc_list_from(v0, k + 1, enc_entry_fn()) + "]"@,
{
    reveal(enc_list_from);
    if k == v0.len() {
        assert(enc_list_from(v0, k, enc_entry_fn()) + "]"@ =~= "]"@);
        assert(s.subrange(cur, j0).len() == j0 - cur);
        reveal_strlit("]");
        assert(s.subrange(cur, cur + 1) =~= s.subrange(cur, j0));
    } else {
        assert((","@ + enc_entry(v0[k]) + enc_list_from(v0, k + 1, enc_entry_fn())) + "]"@ =~= ","@
            + (enc_entry(v0[k]) + (enc_list_from(v0, k + 1, enc_entry_fn()) + "]"@)));
        lemma_split_concat(
            s,
            cur,
            j0,
            ","@,
            enc_entry(v0[k]) + (enc_list_from(v0, k + 1, enc_entry_fn()) + "]"@),
        );
        reveal_strlit(",");
        lemma_split_concat(
            s,
            cur + 1,
            j0,
            enc_entry(v0[k]),
            enc_list_from(v0, k + 1, enc_entry_fn()) + "]"@,
        );
        reveal_strlit("]");
        assert((enc_list_from(v0, k + 1, enc_entry_fn()) + "]"@).len() >= 1);
        lemma_enc_entry_first(v0[k]);
    }
}

/// Reads the elements and closing bracket of the `data` array at position
/// `i`.
#[verifier::rlimit(100)]
fn parse_entries_at(s: &str, i: usize) -> (r: Option<(Vec<Entry>, usize)>)
    ensures
        r matches Some(p) ==> i < p.1 <= s@.len() && s@.subrange(i as int, p.1 as int) == enc_list(
            p.0@,
            enc_entry_fn(),
        ) + "]"@ && (forall|k: int| 0 <= k < p.0@.len() ==> (#[trigger] p.0@[k]).wf()),
        forall|v0: Seq<Entry>, j0: int|
            entries_at(s@, i as int, v0, j0) ==> (r matches Some(p) && p.0@ == v0 && p.1
                == j0 as usize),
{
    let sl = s.unicode_len();
    proof {
        assert(sl == s@.len());
    }
    if match_lit(s, i, "]") {
        let v: Vec<Entry> = Vec::new();
        proof {
            reveal_strlit("]");
            assert(enc_list(v@, enc_entry_fn()) + "]"@ =~= s@.subrange(i as int, i + 1));
            assert forall|v0: Seq<Entry>, j0: int|
                entries_at(s@, i as int, v0, j0) implies v@ == v0 && j0 == i + 1 by {
                if v0.len() == 0 {
                    lemma_entries_witness_empty(s@, i as int, v0, j0);
                    assert(v@ =~= v0);
                } else {
                    lemma_entries_witness_first(s@, i as int, v0, j0);
                    lemma_enc_entry_first(v0[0]);
                    let w0 = s@[i as int];
                    assert(s@.subrange(i as int, i + enc_entry(v0[0]).len() as int)[0] == w0);
                    assert(s@.subrange(i as int, i + 1)[0] == s@[i as int]);
                }
            }
        }
        return Some((v, i + 1));
    }
    let (e0, first_end) = match parse_entry_at(s, i) {
        Some(p) => p,
        None => {
            proof {
                assert forall|v0: Seq<Entry>, j0: int|
                    entries_at(s@, i as int, v0, j0) implies false by {
                    if v0.len() == 0 {
                        lemma_entries_witness_empty(s@, i as int, v0, j0);
                    } else {
                        lemma_entries_witness_first(s@, i as int, v0, j0);
                    }
                }
            }
            return None;
        },
    };
    let mut v: Vec<Entry> = Vec::new();
    v.push(e0);
    let mut cur = first_end;
    proof {
        assert(v@ =~= seq![e0]);
        assert(enc_list(v@, enc_entry_fn()) == enc_entry(e0));
        assert forall|v0: Seq<Entry>, j0: int|
            entries_at(s@, i as int, v0, j0) implies cur as int <= j0 && v@.len() <= v0.len()
            && v0.take(v@.len() as int) == v@ && s@.subrange(cur as int, j0) == enc_list_from(
            v0,
            v@.len() as int,
            enc_entry_fn(),
        ) + "]"@ by {
            if v0.len() == 0 {
                lemma_entries_witness_empty(s@, i as int, v0, j0);
            } else {
                lemma_entries_witness_first(s@, i as int, v0, j0);
                assert(v0.take(1) =~= seq![v0[0]]);
            }
        }
    }
    loop
        invariant
            sl == s@.len(),
            i < cur <= s@.len(),
            v@.len() >= 1,
            s@.subrange(i as int, cur as int) == enc_list(v@, enc_entry_fn()),
            forall|k: int| 0 <= k < v@.len() ==> (#[trigger] v@[k]).wf(),
            forall|v0: Seq<Entry>, j0: int|
                entries_at(s@, i as int, v0, j0) ==> (cur as int <= j0 && v@.len() <= v0.len()
                    && v0.take(v@.len() as int) == v@ && s@.subrange(cur as int, j0)
                    == enc_list_from(v0, v@.len() as int, enc_entry_fn()) + "]"@),
        decreases s@.len() - cur,
    {
        if match_lit(s, cur, "]") {
            proof {
                reveal_strlit("]");
                assert(s@.subrange(i as int, cur + 1) =~= s@.subrange(i as int, cur as int)
                    + s@.subrange(cur as int, cur + 1));
                assert forall|v0: Seq<Entry>, j0: int|
                    entries_at(s@, i as int, v0, j0) implies v@ == v0 && j0 == cur + 1 by {
                    lemma_entries_witness_step(s@, i as int, cur as int, v0, j0, v@.len() as int);
                    if v@.len() < v0.len() {
                        reveal_strlit(",");
                        assert(s@.subrange(cur as int, cur + 1)[0] == s@[cur as int]);
                    } else {
                        assert(v0.take(v@.len() as int) =~= v0);
                    }
                }
            }
            return Some((v, cur + 1));
        }
        if !match_lit(s, cur, ",") {
            proof {
                assert forall|v0: Seq<Entry>, j0: int|
                    entries_at(s@, i as int, v0, j0) implies false by {
                    lemma_entries_witness_step(s@, i as int, cur as int, v0, j0, v@.len() as int);
                }
            }
            return None;
        }
        proof {
            reveal_strlit(",");
        }
        let mid = cur + 1;
        let (e, next) = match parse_entry_at(s, mid) {
            Some(p) => p,
            None => {
                proof {
                    assert forall|v0: Seq<Entry>, j0: int|
                        entries_at(s@, i as int, v0, j0) implies false by {
                        lemma_entries_witness_step(
                            s@,
                            i as int,
                            cur as int,
                            v0,
                            j0,
                            v@.len() as int,
                        );
                        if v@.len() == v0.len() {
                            assert(s@.subrange(cur as int, cur + 1)[0] == s@[cur as int]);
                            reveal_strlit("]");
                        }
                    }
                }
                return None;
            },
        };
        proof {
            lemma_enc_list_push(v@, enc_entry_fn(), e);
            assert(s@.subrange(i as int, mid as int) =~= s@.subrange(i as int, cur as int)
                + s@.subrange(cur as int, mid as int));
            assert(s@.subrange(i as int, next as int) =~= s@.subrange(i as int, mid as int)
                + s@.subrange(mid as int, next as int));
            assert(s@.subrange(cur as int, mid as int) == ","@);
            let ghost prev = v@;
            assert forall|v0: Seq<Entry>, j0: int|
                entries_at(s@, i as int, v0, j0) implies next as int <= j0 && prev.len()
                + 1 <= v0.len() && v0.take(prev.len() as int + 1) == prev.push(e) && s@.subrange(
                next as int,
                j0,
            ) == enc_list_from(v0, prev.len() as int + 1, enc_entry_fn()) + "]"@ by {
                lemma_entries_witness_step(s@, i as int, cur as int, v0, j0, prev.len() as int);
                if prev.len() == v0.len() {
                    assert(s@.subrange(cur as int, cur + 1)[0] == s@[cur as int]);
                    reveal_strlit("]");
                } else {
                    assert(v0.take(prev.len() as int + 1) =~= v0.take(prev.len() as int).push(
                        v0[prev.len() as int],
                    ));
                }
            }
        }
        v.push(e);
        cur = next;
    }
}

/// A quoted person name of a `present` array starts with a quote.
proof fn lemma_enc_present_first(c: Class)
    ensures
        enc_present_elem(c).len() >= 1,
        enc_present_elem(c)[0] == '"',
{
    reveal_strlit("\"");
    assert(enc_present_elem(c)[0] == "\""@[0]);
}

/// The elements of a `present` array and the closing bracket stand at
/// `i..j0`.
pub open spec fn present_at(s: Seq<char>, i: int, v0: Seq<Class>, j0: int) -> bool {
    i <= j0 <= s.len() && s.subrange(i, j0) == enc_list(v0, enc_present_fn()) + "]"@
}

/// When the witness list is empty, only the closing bracket stands at `i`.
proof fn lemma_present_witness_empty(s: Seq<char>, i: int, v0: Seq<Class>, j0: int)
    requires
        0 <= i,
        present_at(s, i, v0, j0),
        v0.len() == 0,
    ensures
        j0 == i + 1,
        s.subrange(i, i + 1) == "]"@,
{
    assert(enc_list(v0, enc_present_fn()) + "]"@ =~= "]"@);
    assert(s.subrange(i, j0).len() == j0 - i);
    reveal_strlit("]");
    assert(s.subrange(i, i + 1) =~= s.subrange(i, j0));
}

/// When the witness list is not empty, its first name stands at `i`,
/// followed by the rest of the list.
proof fn lemma_present_witness_first(s: Seq<char>, i: int, v0: Seq<Class>, j0: int)
    requires
        0 <= i,
        present_at(s, i, v0, j0),
        v0.len() >= 1,
    ensures
        i + enc_present_elem(v0[0]).len() <= j0,
        s.subrange(i, i + enc_present_elem(v0[0]).len() as int) == enc_present_elem(v0[0]),
        s.subrange(i + enc_present_elem(v0[0]).len() as int, j0) == enc_list_from(
            v0,
            1,
            enc_present_fn(),
        ) + "]"@,
{
    lemma_enc_list_first(v0, enc_present_fn());
    assert((enc_present_elem(v0[0]) + enc_list_from(v0, 1, enc_present_fn())) + "]"@
        =~= enc_present_elem(v0[0]) + (enc_list_from(v0, 1, enc_present_fn()) + "]"@));
    lemma_split_concat(
        s,
        i,
        j0,
        enc_present_elem(v0[0]),
        enc_list_from(v0, 1, enc_present_fn()) + "]"@,
    );
}

/// Midway through the witness list, either the closing bracket or a
/// separator and the next name stands at `cur`.
proof fn lemma_present_witness_step(
    s: Seq<char>,
    i: int,
    cur: int,
    v0: Seq<Class>,
    j0: int,
    k: int,
)
    requires
        0 <= i <= cur <= j0,
        present_at(s, i, v0, j0),
        1 <= k <= v0.len(),
        s.subrange(cur, j0) == enc_list_from(v0, k, enc_present_fn()) + "]"@,
    ensures
        k == v0.len() ==> j0 == cur + 1 && s.subrange(cur, cur + 1) == "]"@,
        k < v0.len() ==> s.subrange(cur, cur + 1) == ","@ && cur + 2 + enc_present_elem(
            v0[k],
        ).len() <= j0 && s.subrange(cur + 1, cur + 1 + enc_present_elem(v0[k]).len() as int)
            == enc_present_elem(v0[k]) && s.subrange(
            cur + 1 + enc_present_elem(v0[k]).len() as int,
            j0,
        ) == enc_list_from(v0, k + 1, enc_present_fn()) + "]"@,
{
    reveal(enc_list_from);
    if k == v0.len() {
        assert(enc_list_from(v0, k, enc_present_fn()) + "]"@ =~= "]"@);
        assert(s.subrange(cur, j0).len() == j0 - cur);
        reveal_strlit("]");
        assert(s.subrange(cur, cur + 1) =~= s.subrange(cur, j0));
    } else {
        assert((","@ + enc_present_elem(v0[k]) + enc_list_from(v0, k + 1, enc_present_fn())) + "]"@
            =~= ","@ + (enc_present_elem(v0[k]) + (enc_list_from(v0, k + 1, enc_present_fn())
        + "]"@)));
        lemma_split_concat(
            s,
            cur,
            j0,
            ","@,
            enc_present_elem(v0[k]) + (enc_list_from(v0, k + 1, enc_present_fn()) + "]"@),
        );
        reveal_strlit(",");
        lemma_split_concat(
            s,
            cur + 1,
            j0,
            enc_present_elem(v0[k]),
            enc_list_from(v0, k + 1, enc_present_fn()) + "]"@,
        );
        reveal_strlit("]");
        assert((enc_list_from(v0, k + 1, enc_present_fn()) + "]"@).len() >= 1);
        lemma_enc_present_first(v0[k]);
    }
}

/// Reads one quoted person name of a `present` array at position `i`.
fn parse_present_elem_at(s: &str, i: usize) -> (r: Option<(Class, usize)>)
    ensures
        r matches Some(p) ==> i < p.1 <= s@.len() && s@.subrange(i as int, p.1 as int)
            == enc_present_elem(p.0),
        forall|c0: Class, j0: int|
            i <= j0 <= s@.len() && s@.subrange(i as int, j0) == enc_present_elem(c0) ==> r == Some(
                (c0, j0 as usize),
            ),
{
    let sl = s.unicode_len();
    proof {
        assert(sl == s@.len());
    }
    if !match_lit(s, i, "\"") {
        proof {
            assert forall|c0: Class, j0: int|
                i <= j0 <= s@.len() && s@.subrange(i as int, j0) == enc_present_elem(
                    c0,
                ) implies false by {
                lemma_split_concat(s@, i as int, j0, "\""@, class_quoted(c0));
            }
        }
        return None;
    }
    proof {
        reveal_strlit("\"");
    }
    let (c, j) = match parse_class_at(s, i + 1) {
        Some(p) => p,
        None => {
            proof {
                assert forall|c0: Class, j0: int|
                    i <= j0 <= s@.len() && s@.subrange(i as int, j0) == enc_present_elem(
                        c0,
                    ) implies false by {
                    lemma_split_concat(s@, i as int, j0, "\""@, class_quoted(c0));
                }
            }
            return None;
        },
    };
    proof {
        assert(s@.subrange(i as int, j as int) =~= s@.subrange(i as int, i + 1) + s@.subrange(
            i + 1,
            j as int,
        ));
        assert forall|c0: Class, j0: int|
            i <= j0 <= s@.len() && s@.subrange(i as int, j0) == enc_present_elem(
                c0,
            ) implies c0 == c && j0 == j as int by {
            lemma_split_concat(s@, i as int, j0, "\""@, class_quoted(c0));
        }
    }
    Some((c, j))
}

/// Reads the elements and closing bracket of a `present` array at position
/// `i`.
#[verifier::rlimit(100)]
fn parse_present_at(s: &str, i: usize) -> (r: Option<(Vec<Class>, usize)>)
    ensures
        r matches Some(p) ==> i < p.1 <= s@.len() && s@.subrange(i as int, p.1 as int) == enc_list(
            p.0@,
            enc_present_fn(),
        ) + "]"@,
        forall|v0: Seq<Class>, j0: int|
            present_at(s@, i as int, v0, j0) ==> (r matches Some(p) && p.0@ == v0 && p.1
                == j0 as usize),
{
    let sl = s.unicode_len();
    proof {
        assert(sl == s@.len());
    }
    if match_lit(s, i, "]") {
        let v: Vec<Class> = Vec::new();
        proof {
            reveal_strlit("]");
            assert(enc_list(v@, enc_present_fn()) + "]"@ =~= s@.subrange(i as int, i + 1));
            assert forall|v0: Seq<Class>, j0: int|
                present_at(s@, i as int, v0, j0) implies v@ == v0 && j0 == i + 1 by {
                if v0.len() == 0 {
                    lemma_present_witness_empty(s@, i as int, v0, j0);
                    assert(v@ =~= v0);
                } else {
                    lemma_present_witness_first(s@, i as int, v0, j0);
                    lemma_enc_present_first(v0[0]);
                    let w0 = s@[i as int];
                    assert(s@.subrange(i as int, i + enc_present_elem(v0[0]).len() as int)[0]
                        == w0);
                    assert(s@.subrange(i as int, i + 1)[0] == w0);
                }
            }
        }
        return Some((v, i + 1));
    }
    let (c0, first_end) = match parse_present_elem_at(s, i) {
        Some(p) => p,
        None => {
            proof {
                assert forall|v0: Seq<Class>, j0: int|
                    present_at(s@, i as int, v0, j0) implies false by {
                    if v0.len() == 0 {
                        lemma_present_witness_empty(s@, i as int, v0, j0);
                    } else {
                        lemma_present_witness_first(s@, i as int, v0, j0);
                    }
                }
            }
            return None;
        },
    };
    let mut v: Vec<Class> = Vec::new();
    v.push(c0);
    let mut cur = first_end;
    proof {
        assert(v@ =~= seq![c0]);
        assert(enc_list(v@, enc_present_fn()) == enc_present_elem(c0));
        assert forall|v0: Seq<Class>, j0: int|
            present_at(s@, i as int, v0, j0) implies cur as int <= j0 && v@.len() <= v0.len()
            && v0.take(v@.len() as int) == v@ && s@.subrange(cur as int, j0) == enc_list_from(
            v0,
            v@.len() as int,
            enc_present_fn(),
        ) + "]"@ by {
            if v0.len() == 0 {
                lemma_present_witness_empty(s@, i as int, v0, j0);
            } else {
                lemma_present_witness_first(s@, i as int, v0, j0);
                assert(v0.take(1) =~= seq![v0[0]]);
            }
        }
    }
    loop
        invariant
            sl == s@.len(),
            i < cur <= s@.len(),
            v@.len() >= 1,
            s@.subrange(i as int, cur as int) == enc_list(v@, enc_present_fn()),
            forall|v0: Seq<Class>, j0: int|
                present_at(s@, i as int, v0, j0) ==> (cur as int <= j0 && v@.len() <= v0.len()
                    && v0.take(v@.len() as int) == v@ && s@.subrange(cur as int, j0)
                    == enc_list_from(v0, v@.len() as int, enc_present_fn()) + "]"@),
        decreases s@.len() - cur,
    {
        if match_lit(s, cur, "]") {
            proof {
                reveal_strlit("]");
                assert(s@.subrange(i as int, cur + 1) =~= s@.subrange(i as int, cur as int)
                    + s@.subrange(cur as int, cur + 1));
                assert forall|v0: Seq<Class>, j0: int|
                    present_at(s@, i as int, v0, j0) implies v@ == v0 && j0 == cur + 1 by {
                    lemma_present_witness_step(s@, i as int, cur as int, v0, j0, v@.len() as int);
                    if v@.len() < v0.len() {
                        reveal_strlit(",");
                        assert(s@.subrange(cur as int, cur + 1)[0] == s@[cur as int]);
                    } else {
                        assert(v0.take(v@.len() as int) =~= v0);
                    }
                }
            }
            return Some((v, cur + 1));
        }
        if !match_lit(s, cur, ",") {
            proof {
                assert forall|v0: Seq<Class>, j0: int|
                    present_at(s@, i as int, v0, j0) implies false by {
                    lemma_present_witness_step(s@, i as int, cur as int, v0, j0, v@.len() as int);
                }
            }
            return None;
        }
        proof {
            reveal_strlit(",");
        }
        let mid = cur + 1;
        let (c, next) = match parse_present_elem_at(s, mid) {
            Some(p) => p,
            None => {
                proof {
                    assert forall|v0: Seq<Class>, j0: int|
                        present_at(s@, i as int, v0, j0) implies false by {
                        lemma_present_witness_step(
                            s@,
                            i as int,
                            cur as int,
                            v0,
                            j0,
                            v@.len() as int,
                        );
                        if v@.len() == v0.len() {
                            assert(s@.subrange(cur as int, cur + 1)[0] == s@[cur as int]);
                            reveal_strlit("]");
                        }
                    }
                }
                return None;
            },
        };
        proof {
            lemma_enc_list_push(v@, enc_present_fn(), c);
            assert(s@.subrange(i as int, mid as int) =~= s@.subrange(i as int, cur as int)
                + s@.subrange(cur as int, mid as int));
            assert(s@.subrange(i as int, next as int) =~= s@.subrange(i as int, mid as int)
                + s@.subrange(mid as int, next as int));
            assert(s@.subrange(cur as int, mid as int) == ","@);
            let ghost prev = v@;
            assert forall|v0: Seq<Class>, j0: int|
                present_at(s@, i as int, v0, j0) implies next as int <= j0 && prev.len()
                + 1 <= v0.len() && v0.take(prev.len() as int + 1) == prev.push(c) && s@.subrange(
                next as int,
                j0,
            ) == enc_list_from(v0, prev.len() as int + 1, enc_present_fn()) + "]"@ by {
                lemma_present_witness_step(s@, i as int, cur as int, v0, j0, prev.len() as int);
                if prev.len() == v0.len() {
                    assert(s@.subrange(cur as int, cur + 1)[0] == s@[cur as int]);
                    reveal_strlit("]");
                } else {
                    assert(v0.take(prev.len() as int + 1) =~= v0.take(prev.len() as int).push(
                        v0[prev.len() as int],
                    ));
                }
            }
        }
        v.push(c);
        cur = next;
    }
}

/// Two rosters with the same content: the same present list, lesson, time,
/// first-lesson flag and date.
pub open spec fn same_absence(a: LessonAbs, b: LessonAbs) -> bool {
    a.present@ == b.present@ && a.lesson == b.lesson && a.lesson_time == b.lesson_time
        && a.first_lesson == b.first_lesson && a.date == b.date
}

/// Two stores with the same content: equal tardiness records and absence
/// rosters with the same content, in the same order.
pub open spec fn same_store(a: DataBase, b: DataBase) -> bool {
    a.data@ == b.data@ && a.absences@.len() == b.absences@.len() && (forall|k: int|
        0 <= k < a.absences@.len() ==> same_absence(#[trigger] a.absences@[k], b.absences@[k]))
}

/// Where each part of an encoded roster ends, relative to its start.
spec fn ap1(a: LessonAbs, i: int) -> int {
    i + "{\"present\":["@.len()
}

spec fn ap2(a: LessonAbs, i: int) -> int {
    ap1(a, i) + enc_list(a.present@, enc_present_fn()).len()
}

spec fn ap3(a: LessonAbs, i: int) -> int {
    ap2(a, i) + "]"@.len()
}

spec fn ap4(a: LessonAbs, i: int) -> int {
    ap3(a, i) + ",\"lesson\":\""@.len()
}

spec fn ap5(a: LessonAbs, i: int) -> int {
    ap4(a, i) + lesson_quoted(a.lesson).len()
}

spec fn ap6(a: LessonAbs, i: int) -> int {
    ap5(a, i) + ",\"lesson_time\":\""@.len()
}

spec fn ap7(a: LessonAbs, i: int) -> int {
    ap6(a, i) + enc_time(a.lesson_time).len()
}

spec fn ap8(a: LessonAbs, i: int) -> int {
    ap7(a, i) + "\",\"first_lesson\":"@.len()
}

spec fn ap9(a: LessonAbs, i: int) -> int {
    ap8(a, i) + enc_bool(a.first_lesson).len()
}

spec fn ap10(a: LessonAbs, i: int) -> int {
    ap9(a, i) + ",\"date\":\""@.len()
}

spec fn ap11(a: LessonAbs, i: int) -> int {
    ap10(a, i) + enc_date(a.date).len()
}

spec fn ap12(a: LessonAbs, i: int) -> int {
    ap11(a, i) + "\"}"@.len()
}

/// An encoded roster at `i..j0` splits into its parts.
proof fn lemma_absence_parts(s: Seq<char>, i: int, j0: int, a: LessonAbs)
    requires
        0 <= i <= j0 <= s.len(),
        s.subrange(i, j0) == enc_absence(a),
    ensures
        s.subrange(i, ap1(a, i)) == "{\"present\":["@,
        present_at(s, ap1(a, i), a.present@, ap3(a, i)),
        s.subrange(ap3(a, i), ap4(a, i)) == ",\"lesson\":\""@,
        s.subrange(ap4(a, i), ap5(a, i)) == lesson_quoted(a.lesson),
        s.subrange(ap5(a, i), ap6(a, i)) == ",\"lesson_time\":\""@,
        s.subrange(ap6(a, i), ap7(a, i)) == enc_time(a.lesson_time),
        s.subrange(ap7(a, i), ap8(a, i)) == "\",\"first_lesson\":"@,
        s.subrange(ap8(a, i), ap9(a, i)) == enc_bool(a.first_lesson),
        s.subrange(ap9(a, i), ap10(a, i)) == ",\"date\":\""@,
        s.subrange(ap10(a, i), ap11(a, i)) == enc_date(a.date),
        s.subrange(ap11(a, i), ap12(a, i)) == "\"}"@,
        j0 == ap12(a, i),
{
    let p1 = "{\"present\":["@;
    let el = enc_list(a.present@, enc_present_fn());
    let br = "]"@;
    let p3 = ",\"lesson\":\""@;
    let l = lesson_quoted(a.lesson);
    let p5 = ",\"lesson_time\":\""@;
    let t = enc_time(a.lesson_time);
    let p7 = "\",\"first_lesson\":"@;
    let b = enc_bool(a.first_lesson);
    let p9 = ",\"date\":\""@;
    let dt = enc_date(a.date);
    let p11 = "\"}"@;
    reveal(enc_absence);
    lemma_split_concat(s, i, j0, p1 + el + br + p3 + l + p5 + t + p7 + b + p9 + dt, p11);
    lemma_split_concat(s, i, ap11(a, i), p1 + el + br + p3 + l + p5 + t + p7 + b + p9, dt);
    lemma_split_concat(s, i, ap10(a, i), p1 + el + br + p3 + l + p5 + t + p7 + b, p9);
    lemma_split_concat(s, i, ap9(a, i), p1 + el + br + p3 + l + p5 + t + p7, b);
    lemma_split_concat(s, i, ap8(a, i), p1 + el + br + p3 + l + p5 + t, p7);
    lemma_split_concat(s, i, ap7(a, i), p1 + el + br + p3 + l + p5, t);
    lemma_split_concat(s, i, ap6(a, i), p1 + el + br + p3 + l, p5);
    lemma_split_concat(s, i, ap5(a, i), p1 + el + br + p3, l);
    lemma_split_concat(s, i, ap4(a, i), p1 + el + br, p3);
    lemma_split_concat(s, i, ap3(a, i), p1 + el, br);
    lemma_split_concat(s, i, ap2(a, i), p1, el);
    assert(s.subrange(ap1(a, i), ap3(a, i)) =~= s.subrange(ap1(a, i), ap2(a, i)) + s.subrange(
        ap2(a, i),
        ap3(a, i),
    ));
}

/// The opening parts of an encoded roster: the present list, the lesson and
/// the time of day, with their labels.
pub open spec fn enc_absence_head(present: Seq<Class>, lesson: Lesson, t: TimeOfDay) -> Seq<char> {
    "{\"present\":["@ + enc_list(present, enc_present_fn()) + "]"@ + ",\"lesson\":\""@
        + lesson_quoted(lesson) + ",\"lesson_time\":\""@ + enc_time(t)
}

/// Adjacent opening parts at `i..c7` make up the head of an encoded roster.
proof fn lemma_absence_head_compose(
    s: Seq<char>,
    i: int,
    c1: int,
    c2: int,
    c3: int,
    c4: int,
    c5: int,
    c6: int,
    c7: int,
    present: Seq<Class>,
    lesson: Lesson,
    lesson_time: TimeOfDay,
)
    requires
        0 <= i <= c1 <= c2 <= c3 <= c4 <= c5 <= c6 <= c7 <= s.len(),
        s.subrange(i, c1) == "{\"present\":["@,
        s.subrange(c1, c2) == enc_list(present, enc_present_fn()) + "]"@,
        s.subrange(c2, c3) == ",\"lesson\":\""@,
        s.subrange(c3, c4) == lesson_quoted(lesson),
        s.subrange(c4, c5) == ",\"lesson_time\":\""@,
        s.subrange(c5, c6) == enc_time(lesson_time),
        c6 == c7,
    ensures
        s.subrange(i, c7) == enc_absence_head(present, lesson, lesson_time),
{
    assert(s.subrange(i, c2) =~= s.subrange(i, c1) + s.subrange(c1, c2));
    assert(s.subrange(i, c3) =~= s.subrange(i, c2) + s.subrange(c2, c3));
    assert(s.subrange(i, c4) =~= s.subrange(i, c3) + s.subrange(c3, c4));
    assert(s.subrange(i, c5) =~= s.subrange(i, c4) + s.subrange(c4, c5));
    assert(s.subrange(i, c6) =~= s.subrange(i, c5) + s.subrange(c5, c6));
    assert(s.subrange(i, c6) =~= enc_absence_head(present, lesson, lesson_time));
}

/// Adjacent roster parts at `i..c11` make up one whole encoded roster.
proof fn lemma_absence_compose(
    s: Seq<char>,
    i: int,
    c7: int,
    c8: int,
    c9: int,
    c10: int,
    c11: int,
    c12: int,
    c13: int,
    a: LessonAbs,
)
    requires
        0 <= i <= c7 <= c8 <= c9 <= c10 <= c11 <= c12 <= c13 <= s.len(),
        s.subrange(i, c7) == enc_absence_head(a.present@, a.lesson, a.lesson_time),
        s.subrange(c7, c8) == "\",\"first_lesson\":"@,
        s.subrange(c8, c9) == enc_bool(a.first_lesson),
        s.subrange(c9, c10) == ",\"date\":\""@,
        s.subrange(c10, c11) == enc_date(a.date),
        s.subrange(c11, c12) == "\"}"@,
        c12 == c13,
    ensures
        s.subrange(i, c13) == enc_absence(a),
{
    assert(s.subrange(i, c8) =~= s.subrange(i, c7) + s.subrange(c7, c8));
    assert(s.subrange(i, c9) =~= s.subrange(i, c8) + s.subrange(c8, c9));
    assert(s.subrange(i, c10) =~= s.subrange(i, c9) + s.subrange(c9, c10));
    assert(s.subrange(i, c11) =~= s.subrange(i, c10) + s.subrange(c10, c11));
    assert(s.subrange(i, c12) =~= s.subrange(i, c11) + s.subrange(c11, c12));
    reveal(enc_absence);
    assert(s.subrange(i, c12) =~= enc_absence(a));
}

/// Reads the present list, lesson and time parts of a roster object at
/// position `i`.
#[verifier::rlimit(100)]
fn parse_absence_head(s: &str, i: usize) -> (r: Option<(Vec<Class>, Lesson, TimeOfDay, usize)>)
    ensures
        r matches Some(p) ==> i < p.3 <= s@.len() && s@.subrange(i as int, p.3 as int)
            == enc_absence_head(p.0@, p.1, p.2) && p.2.wf(),
        forall|a0: LessonAbs, j0: int|
            a0.wf() && i <= j0 <= s@.len() && s@.subrange(i as int, j0) == enc_absence(a0) ==> (r matches Some(p) && p.0@ == a0.present@ && p.1 == a0.lesson
                && p.2 == a0.lesson_time && p.3 == ap7(a0, i as int) as usize),
{
    let sl = s.unicode_len();
    proof {
        assert(sl == s@.len());
    }
    let l1 = "{\"present\":[";
    if !match_lit(s, i, l1) {
        proof {
            assert forall|a0: LessonAbs, j0: int| a0.wf() && i <= j0 <= s@.len() && s@.subrange(i as int, j0) == enc_absence(a0) implies false by {
                lemma_absence_parts(s@, i as int, j0, a0);
            }
        }
        return None;
    }
    let c1 = i + l1.unicode_len();
    let (present, c2) = match parse_present_at(s, c1) {
        Some(p) => p,
        None => {
            proof {
                assert forall|a0: LessonAbs, j0: int| a0.wf() && i <= j0 <= s@.len() && s@.subrange(i as int, j0) == enc_absence(a0) implies false by {
                    lemma_absence_parts(s@, i as int, j0, a0);
                }
            }
            return None;
        },
    };
    let l2 = ",\"lesson\":\"";
    if !match_lit(s, c2, l2) {
        proof {
            assert forall|a0: LessonAbs, j0: int| a0.wf() && i <= j0 <= s@.len() && s@.subrange(i as int, j0) == enc_absence(a0) implies false by {
                lemma_absence_parts(s@, i as int, j0, a0);
            }
        }
        return None;
    }
    let c3 = c2 + l2.unicode_len();
    let (lesson, c4) = match parse_lesson_at(s, c3) {
        Some(p) => p,
        None => {
            proof {
                assert forall|a0: LessonAbs, j0: int| a0.wf() && i <= j0 <= s@.len() && s@.subrange(i as int, j0) == enc_absence(a0) implies false by {
                    lemma_absence_parts(s@, i as int, j0, a0);
                }
            }
            return None;
        },
    };
    let l3 = ",\"lesson_time\":\"";
    if !match_lit(s, c4, l3) {
        proof {
            assert forall|a0: LessonAbs, j0: int| a0.wf() && i <= j0 <= s@.len() && s@.subrange(i as int, j0) == enc_absence(a0) implies false by {
                lemma_absence_parts(s@, i as int, j0, a0);
            }
        }
        return None;
    }
    let c5 = c4 + l3.unicode_len();
    let (lesson_time, c6) = match parse_time_at(s, c5) {
        Some(p) => p,
        None => {
            proof {
                assert forall|a0: LessonAbs, j0: int| a0.wf() && i <= j0 <= s@.len() && s@.subrange(i as int, j0) == enc_absence(a0) implies false by {
                    lemma_absence_parts(s@, i as int, j0, a0);
                }
            }
            return None;
        },
    };
    proof {
        lemma_absence_head_compose(
            s@,
            i as int,
            c1 as int,
            c2 as int,
            c3 as int,
            c4 as int,
            c5 as int,
            c6 as int,
            c6 as int,
            present@,
            lesson,
            lesson_time,
        );
        assert forall|a0: LessonAbs, j0: int| a0.wf() && i <= j0 <= s@.len() && s@.subrange(i as int, j0) == enc_absence(a0) implies a0.present@ == present@
            && a0.lesson == lesson && a0.lesson_time == lesson_time && ap7(a0, i as int)
            == c6 as int by {
            lemma_absence_parts(s@, i as int, j0, a0);
        }
    }
    Some((present, lesson, lesson_time, c6))
}

/// Reads the first-lesson flag, date and closing brace of a roster object
/// whose opening parts stand at `i..c7`.
#[verifier::rlimit(100)]
fn parse_absence_tail(
    s: &str,
    Ghost(i): Ghost<int>,
    present: Vec<Class>,
    lesson: Lesson,
    lesson_time: TimeOfDay,
    c7: usize,
) -> (r: Option<(LessonAbs, usize)>)
    requires
        0 <= i <= c7 <= s@.len(),
        s@.subrange(i, c7 as int) == enc_absence_head(present@, lesson, lesson_time),
        lesson_time.wf(),
        forall|a0: LessonAbs, j0: int|
            a0.wf() && i <= j0 <= s@.len() && s@.subrange(i, j0) == enc_absence(a0) ==> a0.present@ == present@ && a0.lesson == lesson && a0.lesson_time
                == lesson_time && ap7(a0, i) == c7 as int,
    ensures
        r matches Some(p) ==> i < p.1 <= s@.len() && s@.subrange(i, p.1 as int) == enc_absence(p.0)
            && p.0.wf(),
        forall|a0: LessonAbs, j0: int|
            a0.wf() && i <= j0 <= s@.len() && s@.subrange(i, j0) == enc_absence(a0) ==> (r matches Some(p) && same_absence(p.0, a0) && p.1 == j0 as usize),
{
    let sl = s.unicode_len();
    proof {
        assert(sl == s@.len());
    }
    let l4 = "\",\"first_lesson\":";
    if !match_lit(s, c7, l4) {
        proof {
            assert forall|a0: LessonAbs, j0: int| a0.wf() && i <= j0 <= s@.len() && s@.subrange(i, j0) == enc_absence(a0) implies false by {
                lemma_absence_parts(s@, i, j0, a0);
            }
        }
        return None;
    }
    let c8 = c7 + l4.unicode_len();
    let (first_lesson, c9) = match parse_bool_at(s, c8) {
        Some(p) => p,
        None => {
            proof {
                assert forall|a0: LessonAbs, j0: int| a0.wf() && i <= j0 <= s@.len() && s@.subrange(i, j0) == enc_absence(a0) implies false by {
                    lemma_absence_parts(s@, i, j0, a0);
                }
            }
            return None;
        },
    };
    let l5 = ",\"date\":\"";
    if !match_lit(s, c9, l5) {
        proof {
            assert forall|a0: LessonAbs, j0: int| a0.wf() && i <= j0 <= s@.len() && s@.subrange(i, j0) == enc_absence(a0) implies false by {
                lemma_absence_parts(s@, i, j0, a0);
            }
        }
        return None;
    }
    let c10 = c9 + l5.unicode_len();
    let (date, c11) = match parse_date_at(s, c10) {
        Some(p) => p,
        None => {
            proof {
                assert forall|a0: LessonAbs, j0: int| a0.wf() && i <= j0 <= s@.len() && s@.subrange(i, j0) == enc_absence(a0) implies false by {
                    lemma_absence_parts(s@, i, j0, a0);
                }
            }
            return None;
        },
    };
    let l6 = "\"}";
    if !match_lit(s, c11, l6) {
        proof {
            assert forall|a0: LessonAbs, j0: int| a0.wf() && i <= j0 <= s@.len() && s@.subrange(i, j0) == enc_absence(a0) implies false by {
                lemma_absence_parts(s@, i, j0, a0);
            }
        }
        return None;
    }
    let c12 = c11 + l6.unicode_len();
    let a = LessonAbs { present, lesson, lesson_time, first_lesson, date };
    proof {
        lemma_absence_compose(
            s@,
            i,
            c7 as int,
            c8 as int,
            c9 as int,
            c10 as int,
            c11 as int,
            c12 as int,
            c12 as int,
            a,
        );
        assert forall|a0: LessonAbs, j0: int|
            a0.wf() && i <= j0 <= s@.len() && s@.subrange(i, j0) == enc_absence(
                a0,
            ) implies same_absence(a, a0) && j0 == c12 as int by {
            lemma_absence_parts(s@, i, j0, a0);
        }
    }
    Some((a, c12))
}

/// Reads one absence roster object at position `i`.
fn parse_absence_at(s: &str, i: usize) -> (r: Option<(LessonAbs, usize)>)
    ensures
        r matches Some(p) ==> i < p.1 <= s@.len() && s@.subrange(i as int, p.1 as int)
            == enc_absence(p.0) && p.0.wf(),
        forall|a0: LessonAbs, j0: int|
            a0.wf() && i <= j0 <= s@.len() && s@.subrange(i as int, j0) == enc_absence(a0) ==> (r
                matches Some(p) && same_absence(p.0, a0) && p.1 == j0 as usize),
{
    let (present, lesson, lesson_time, c7) = match parse_absence_head(s, i) {
        Some(p) => p,
        None => {
            proof {
                assert forall|a0: LessonAbs, j0: int| a0.wf() && i <= j0 <= s@.len() && s@.subrange(i as int, j0) == enc_absence(a0) implies false by {
                    lemma_absence_parts(s@, i as int, j0, a0);
                }
            }
            return None;
        },
    };
    let sl = s.unicode_len();
    proof {
        assert(sl == s@.len());
        assert forall|a0: LessonAbs, j0: int| a0.wf() && i <= j0 <= s@.len() && s@.subrange(i as int, j0) == enc_absence(a0) implies a0.present@ == present@
            && a0.lesson == lesson && a0.lesson_time == lesson_time && ap7(a0, i as int)
            == c7 as int by {
            lemma_absence_parts(s@, i as int, j0, a0);
        }
    }
    parse_absence_tail(s, Ghost(i as int), present, lesson, lesson_time, c7)
}

/// An encoded roster starts with an opening brace.
proof fn lemma_enc_absence_first(a: LessonAbs)
    ensures
        enc_absence(a).len() >= 1,
        enc_absence(a)[0] == '{',
{
    reveal(enc_absence);
    reveal_strlit("{\"present\":[");
    assert(enc_absence(a)[0] == "{\"present\":["@[0]);
}

/// The elements of the `absences` array and the closing bracket stand at
/// `i..j0`, and every element is well-formed.
pub open spec fn absences_at(s: Seq<char>, i: int, v0: Seq<LessonAbs>, j0: int) -> bool {
    i <= j0 <= s.len() && s.subrange(i, j0) == enc_list(v0, enc_absence_fn()) + "]"@ && (forall|
        k: int,
    | 0 <= k < v0.len() ==> (#[trigger] v0[k]).wf())
}

/// When the witness list is empty, only the closing bracket stands at `i`.
proof fn lemma_absences_witness_empty(s: Seq<char>, i: int, v0: Seq<LessonAbs>, j0: int)
    requires
        0 <= i,
        absences_at(s, i, v0, j0),
        v0.len() == 0,
    ensures
        j0 == i + 1,
        s.subrange(i, i + 1) == "]"@,
{
    assert(enc_list(v0, enc_absence_fn()) + "]"@ =~= "]"@);
    assert(s.subrange(i, j0).len() == j0 - i);
    reveal_strlit("]");
    assert(s.subrange(i, i + 1) =~= s.subrange(i, j0));
}

/// When the witness list is not empty, its first roster stands at `i`,
/// followed by the rest of the list.
proof fn lemma_absences_witness_first(s: Seq<char>, i: int, v0: Seq<LessonAbs>, j0: int)
    requires
        0 <= i,
        absences_at(s, i, v0, j0),
        v0.len() >= 1,
    ensures
        i + enc_absence(v0[0]).len() <= j0,
        s.subrange(i, i + enc_absence(v0[0]).len() as int) == enc_absence(v0[0]),
        v0[0].wf(),
        s.subrange(i + enc_absence(v0[0]).len() as int, j0) == enc_list_from(
            v0,
            1,
            enc_absence_fn(),
        ) + "]"@,
{
    lemma_enc_list_first(v0, enc_absence_fn());
    assert((enc_absence(v0[0]) + enc_list_from(v0, 1, enc_absence_fn())) + "]"@ =~= enc_absence(
        v0[0],
    ) + (enc_list_from(v0, 1, enc_absence_fn()) + "]"@));
    lemma_split_concat(s, i, j0, enc_absence(v0[0]), enc_list_from(v0, 1, enc_absence_fn()) + "]"@);
}

/// Midway through the witness list, either the closing bracket or a
/// separator and the next roster stands at `cur`.
proof fn lemma_absences_witness_step(
    s: Seq<char>,
    i: int,
    cur: int,
    v0: Seq<LessonAbs>,
    j0: int,
    k: int,
)
    requires
        0 <= i <= cur <= j0,
        absences_at(s, i, v0, j0),
        1 <= k <= v0.len(),
        s.subrange(cur, j0) == enc_list_from(v0, k, enc_absence_fn()) + "]"@,
    ensures
        k == v0.len() ==> j0 == cur + 1 && s.subrange(cur, cur + 1) == "]"@,
        k < v0.len() ==> s.subrange(cur, cur + 1) == ","@ && cur + 2 + enc_absence(
            v0[k],
        ).len() <= j0 && s.subrange(cur + 1, cur + 1 + enc_absence(v0[k]).len() as int)
            == enc_absence(v0[k]) && v0[k].wf() && s.subrange(
            cur + 1 + enc_absence(v0[k]).len() as int,
            j0,
        ) == enc_list_from(v0, k + 1, enc_absence_fn()) + "]"@,
{
    reveal(enc_list_from);
    if k == v0.len() {
        assert(enc_list_from(v0, k, enc_absence_fn()) + "]"@ =~= "]"@);
        assert(s.subrange(cur, j0).len() == j0 - cur);
        reveal_strlit("]");
        assert(s.subrange(cur, cur + 1) =~= s.subrange(cur, j0));
    } else {
        assert((","@ + enc_absence(v0[k]) + enc_list_from(v0, k + 1, enc_absence_fn())) + "]"@
            =~= ","@ + (enc_absence(v0[k]) + (enc_list_from(v0, k + 1, enc_absence_fn()) + "]"@)));
        lemma_split_concat(
            s,
            cur,
            j0,
            ","@,
            enc_absence(v0[k]) + (enc_list_from(v0, k + 1, enc_absence_fn()) + "]"@),
        );
        reveal_strlit(",");
        lemma_split_concat(
            s,
            cur + 1,
            j0,
            enc_absence(v0[k]),
            enc_list_from(v0, k + 1, enc_absence_fn()) + "]"@,
        );
        reveal_strlit("]");
        assert((enc_list_from(v0, k + 1, enc_absence_fn()) + "]"@).len() >= 1);
        lemma_enc_absence_first(v0[k]);
    }
}

/// Reads the elements and closing bracket of the `absences` array at
/// position `i`.
#[verifier::rlimit(100)]
fn parse_absences_at(s: &str, i: usize) -> (r: Option<(Vec<LessonAbs>, usize)>)
    ensures
        r matches Some(p) ==> i < p.1 <= s@.len() && s@.subrange(i as int, p.1 as int) == enc_list(
            p.0@,
            enc_absence_fn(),
        ) + "]"@ && (forall|k: int| 0 <= k < p.0@.len() ==> (#[trigger] p.0@[k]).wf()),
        forall|v0: Seq<LessonAbs>, j0: int|
            absences_at(s@, i as int, v0, j0) ==> (r matches Some(p) && p.0@.len() == v0.len() && (
            forall|k: int| 0 <= k < v0.len() ==> same_absence(#[trigger] p.0@[k], v0[k])) && p.1
                == j0 as usize),
{
    let sl = s.unicode_len();
    proof {
        assert(sl == s@.len());
    }
    if match_lit(s, i, "]") {
        let v: Vec<LessonAbs> = Vec::new();
        proof {
            reveal_strlit("]");
            assert(enc_list(v@, enc_absence_fn()) + "]"@ =~= s@.subrange(i as int, i + 1));
            assert forall|v0: Seq<LessonAbs>, j0: int|
                absences_at(s@, i as int, v0, j0) implies v@.len() == v0.len() && j0 == i + 1 by {
                if v0.len() == 0 {
                    lemma_absences_witness_empty(s@, i as int, v0, j0);
                } else {
                    lemma_absences_witness_first(s@, i as int, v0, j0);
                    lemma_enc_absence_first(v0[0]);
                    let w0 = s@[i as int];
                    assert(s@.subrange(i as int, i + enc_absence(v0[0]).len() as int)[0] == w0);
                    assert(s@.subrange(i as int, i + 1)[0] == w0);
                }
            }
        }
        return Some((v, i + 1));
    }
    let (a0, first_end) = match parse_absence_at(s, i) {
        Some(p) => p,
        None => {
            proof {
                assert forall|v0: Seq<LessonAbs>, j0: int|
                    absences_at(s@, i as int, v0, j0) implies false by {
                    if v0.len() == 0 {
                        lemma_absences_witness_empty(s@, i as int, v0, j0);
                    } else {
                        lemma_absences_witness_first(s@, i as int, v0, j0);
                    }
                }
            }
            return None;
        },
    };
    let mut v: Vec<LessonAbs> = Vec::new();
    v.push(a0);
    let mut cur = first_end;
    proof {
        assert(v@ =~= seq![a0]);
        assert(enc_list(v@, enc_absence_fn()) == enc_absence(a0));
        assert forall|v0: Seq<LessonAbs>, j0: int|
            absences_at(s@, i as int, v0, j0) implies cur as int <= j0 && v@.len() <= v0.len() && (
        forall|k: int| 0 <= k < v@.len() ==> same_absence(#[trigger] v@[k], v0[k]))
            && s@.subrange(cur as int, j0) == enc_list_from(v0, v@.len() as int, enc_absence_fn())
            + "]"@ by {
            if v0.len() == 0 {
                lemma_absences_witness_empty(s@, i as int, v0, j0);
            } else {
                lemma_absences_witness_first(s@, i as int, v0, j0);
            }
        }
    }
    loop
        invariant
            sl == s@.len(),
            i < cur <= s@.len(),
            v@.len() >= 1,
            s@.subrange(i as int, cur as int) == enc_list(v@, enc_absence_fn()),
            forall|k: int| 0 <= k < v@.len() ==> (#[trigger] v@[k]).wf(),
            forall|v0: Seq<LessonAbs>, j0: int|
                absences_at(s@, i as int, v0, j0) ==> (cur as int <= j0 && v@.len() <= v0.len() && (
                forall|k: int| 0 <= k < v@.len() ==> same_absence(#[trigger] v@[k], v0[k]))
                    && s@.subrange(cur as int, j0) == enc_list_from(
                    v0,
                    v@.len() as int,
                    enc_absence_fn(),
                ) + "]"@),
        decreases s@.len() - cur,
    {
        if match_lit(s, cur, "]") {
            proof {
                reveal_strlit("]");
                assert(s@.subrange(i as int, cur + 1) =~= s@.subrange(i as int, cur as int)
                    + s@.subrange(cur as int, cur + 1));
                assert forall|v0: Seq<LessonAbs>, j0: int|
                    absences_at(s@, i as int, v0, j0) implies v@.len() == v0.len() && j0 == cur
                    + 1 by {
                    lemma_absences_witness_step(s@, i as int, cur as int, v0, j0, v@.len() as int);
                    if v@.len() < v0.len() {
                        reveal_strlit(",");
                        assert(s@.subrange(cur as int, cur + 1)[0] == s@[cur as int]);
                    }
                }
            }
            return Some((v, cur + 1));
        }
        if !match_lit(s, cur, ",") {
            proof {
                assert forall|v0: Seq<LessonAbs>, j0: int|
                    absences_at(s@, i as int, v0, j0) implies false by {
                    lemma_absences_witness_step(s@, i as int, cur as int, v0, j0, v@.len() as int);
                }
            }
            return None;
        }
        proof {
            reveal_strlit(",");
        }
        let mid = cur + 1;
        let (a, next) = match parse_absence_at(s, mid) {
            Some(p) => p,
            None => {
                proof {
                    assert forall|v0: Seq<LessonAbs>, j0: int|
                        absences_at(s@, i as int, v0, j0) implies false by {
                        lemma_absences_witness_step(
                            s@,
                            i as int,
                            cur as int,
                            v0,
                            j0,
                            v@.len() as int,
                        );
                        if v@.len() == v0.len() {
                            assert(s@.subrange(cur as int, cur + 1)[0] == s@[cur as int]);
                            reveal_strlit("]");
                        }
                    }
                }
                return None;
            },
        };
        proof {
            lemma_enc_list_push(v@, enc_absence_fn(), a);
            assert(s@.subrange(i as int, mid as int) =~= s@.subrange(i as int, cur as int)
                + s@.subrange(cur as int, mid as int));
            assert(s@.subrange(i as int, next as int) =~= s@.subrange(i as int, mid as int)
                + s@.subrange(mid as int, next as int));
            assert(s@.subrange(cur as int, mid as int) == ","@);
            let ghost prev = v@;
            assert forall|v0: Seq<LessonAbs>, j0: int|
                absences_at(s@, i as int, v0, j0) implies next as int <= j0 && prev.len()
                + 1 <= v0.len() && (forall|k: int|
                0 <= k < prev.len() + 1 ==> same_absence(#[trigger] prev.push(a)[k], v0[k]))
                && s@.subrange(next as int, j0) == enc_list_from(
                v0,
                prev.len() as int + 1,
                enc_absence_fn(),
            ) + "]"@ by {
                lemma_absences_witness_step(s@, i as int, cur as int, v0, j0, prev.len() as int);
                if prev.len() == v0.len() {
                    assert(s@.subrange(cur as int, cur + 1)[0] == s@[cur as int]);
                    reveal_strlit("]");
                } else {
                    assert forall|k: int|
                        0 <= k < prev.len() + 1 implies same_absence(
                        #[trigger] prev.push(a)[k],
                        v0[k],
                    ) by {
                        if k < prev.len() {
                            assert(prev.push(a)[k] == prev[k]);
                        } else {
                            assert(prev.push(a)[k] == a);
                        }
                    }
                }
            }
        }
        v.push(a);
        cur = next;
    }
}

/// Where each part of an encoded store document ends.
spec fn dq1(db: DataBase) -> int {
    "{\"data\":["@.len() as int
}

spec fn dq2(db: DataBase) -> int {
    dq1(db) + enc_list(db.data@, enc_entry_fn()).len() + "]"@.len()
}

spec fn dq3(db: DataBase) -> int {
    dq2(db) + ",\"absences\":["@.len()
}

spec fn dq4(db: DataBase) -> int {
    dq3(db) + enc_list(db.absences@, enc_absence_fn()).len() + "]"@.len()
}

spec fn dq5(db: DataBase) -> int {
    dq4(db) + "}"@.len()
}

/// An encoded store document splits into its five parts.
proof fn lemma_db_parts(s: Seq<char>, db: DataBase)
    requires
        s == enc_db(db),
    ensures
        s.subrange(0, dq1(db)) == "{\"data\":["@,
        s.subrange(dq1(db), dq2(db)) == enc_list(db.data@, enc_entry_fn()) + "]"@,
        s.subrange(dq2(db), dq3(db)) == ",\"absences\":["@,
        s.subrange(dq3(db), dq4(db)) == enc_list(db.absences@, enc_absence_fn()) + "]"@,
        s.subrange(dq4(db), dq5(db)) == "}"@,
        s.len() == dq5(db),
{
    let d1 = "{\"data\":["@;
    let el = enc_list(db.data@, enc_entry_fn());
    let br = "]"@;
    let d2 = ",\"absences\":["@;
    let al = enc_list(db.absences@, enc_absence_fn());
    let d3 = "}"@;
    reveal(enc_db);
    reveal_strlit("]");
    assert(s.subrange(0, s.len() as int) =~= s);
    lemma_split_concat(s, 0, s.len() as int, d1 + el + br + d2 + al + br, d3);
    lemma_split_concat(s, 0, dq4(db), d1 + el + br + d2 + al, br);
    lemma_split_concat(s, 0, dq4(db) - 1, d1 + el + br + d2, al);
    lemma_split_concat(s, 0, dq3(db), d1 + el + br, d2);
    lemma_split_concat(s, 0, dq2(db), d1 + el, br);
    lemma_split_concat(s, 0, dq2(db) - 1, d1, el);
    assert(s.subrange(dq1(db), dq2(db)) =~= s.subrange(dq1(db), dq2(db) - 1) + s.subrange(
        dq2(db) - 1,
        dq2(db),
    ));
    assert(s.subrange(dq3(db), dq4(db)) =~= s.subrange(dq3(db), dq4(db) - 1) + s.subrange(
        dq4(db) - 1,
        dq4(db),
    ));
}

/// Decodes a whole store document. A successful decode means the text is
/// exactly the canonical document of the returned store; and decoding the
/// canonical document of any store with well-formed records succeeds and
/// returns a structurally equal store.
#[verifier::rlimit(100)]
pub fn parse_db(s: &str) -> (r: Result<DataBase, DataBaseError>)
    ensures
        r matches Ok(db) ==> s@ == enc_db(db) && db.records_wf(),
        forall|db0: DataBase|
            db0.records_wf() && s@ == enc_db(db0) ==> (r matches Ok(db) && same_store(db, db0)),
{
    let sl = s.unicode_len();
    proof {
        assert(sl == s@.len());
    }
    let l1 = "{\"data\":[";
    if !match_lit(s, 0, l1) {
        proof {
            assert forall|db0: DataBase|
                db0.records_wf() && s@ == enc_db(db0) implies false by {
                lemma_db_parts(s@, db0);
            }
        }
        return Err(DataBaseError);
    }
    let c1 = l1.unicode_len();
    let (data, c2) = match parse_entries_at(s, c1) {
        Some(p) => p,
        None => {
            proof {
                assert forall|db0: DataBase|
                    db0.records_wf() && s@ == enc_db(db0) implies false by {
                    lemma_db_parts(s@, db0);
                    assert(entries_at(s@, dq1(db0), db0.data@, dq2(db0)));
                }
            }
            return Err(DataBaseError);
        },
    };
    let l2 = ",\"absences\":[";
    if !match_lit(s, c2, l2) {
        proof {
            assert forall|db0: DataBase|
                db0.records_wf() && s@ == enc_db(db0) implies false by {
                lemma_db_parts(s@, db0);
                assert(entries_at(s@, dq1(db0), db0.data@, dq2(db0)));
            }
        }
        return Err(DataBaseError);
    }
    let c3 = c2 + l2.unicode_len();
    let (absences, c4) = match parse_absences_at(s, c3) {
        Some(p) => p,
        None => {
            proof {
                assert forall|db0: DataBase|
                    db0.records_wf() && s@ == enc_db(db0) implies false by {
                    lemma_db_parts(s@, db0);
                    assert(entries_at(s@, dq1(db0), db0.data@, dq2(db0)));
                    assert(absences_at(s@, dq3(db0), db0.absences@, dq4(db0)));
                }
            }
            return Err(DataBaseError);
        },
    };
    let l3 = "}";
    if !match_lit(s, c4, l3) {
        proof {
            assert forall|db0: DataBase|
                db0.records_wf() && s@ == enc_db(db0) implies false by {
                lemma_db_parts(s@, db0);
                assert(entries_at(s@, dq1(db0), db0.data@, dq2(db0)));
                assert(absences_at(s@, dq3(db0), db0.absences@, dq4(db0)));
            }
        }
        return Err(DataBaseError);
    }
    let c5 = c4 + l3.unicode_len();
    if c5 != sl {
        proof {
            assert forall|db0: DataBase|
                db0.records_wf() && s@ == enc_db(db0) implies false by {
                lemma_db_parts(s@, db0);
                assert(entries_at(s@, dq1(db0), db0.data@, dq2(db0)));
                assert(absences_at(s@, dq3(db0), db0.absences@, dq4(db0)));
            }
        }
        return Err(DataBaseError);
    }
    let db = DataBase { data, absences };
    proof {
        let v = s@;
        assert(v.subrange(0, c2 as int) =~= v.subrange(0, c1 as int) + v.subrange(
            c1 as int,
            c2 as int,
        ));
        assert(v.subrange(0, c3 as int) =~= v.subrange(0, c2 as int) + v.subrange(
            c2 as int,
            c3 as int,
        ));
        assert(v.subrange(0, c4 as int) =~= v.subrange(0, c3 as int) + v.subrange(
            c3 as int,
            c4 as int,
        ));
        assert(v.subrange(0, c5 as int) =~= v.subrange(0, c4 as int) + v.subrange(
            c4 as int,
            c5 as int,
        ));
        assert(v.subrange(0, c5 as int) =~= v);
        reveal(enc_db);
        assert(v == enc_db(db));
        assert forall|db0: DataBase|
            db0.records_wf() && s@ == enc_db(db0) implies same_store(db, db0) by {
            lemma_db_parts(s@, db0);
            assert(entries_at(s@, dq1(db0), db0.data@, dq2(db0)));
            assert(absences_at(s@, dq3(db0), db0.absences@, dq4(db0)));
        }
    }
    Ok(db)
}

/// The whole store as its canonical document text.
#[verifier::rlimit(60)]
pub fn encode_db(db: &DataBase) -> (r: String)
    requires
        db.records_wf(),
    ensures
        r@ == enc_db(*db),
{
    let mut out = String::new();
    out.append("{\"data\":[");
    let ghost fe = enc_entry_fn();
    let mut i: usize = 0;
    while i < db.data.len()
        invariant
            i <= db.data@.len(),
            db.records_wf(),
            out@ == "{\"data\":["@ + enc_list(db.data@.take(i as int), fe),
            fe == enc_entry_fn(),
        decreases db.data@.len() - i,
    {
        proof {
            lemma_enc_list_push(db.data@.take(i as int), fe, db.data@[i as int]);
            assert(db.data@.take(i as int).push(db.data@[i as int]) =~= db.data@.take(i + 1));
        }
        if i > 0 {
            out.append(",");
        }
        push_entry(&mut out, &db.data[i]);
        proof {
            assert(out@ =~= "{\"data\":["@ + enc_list(db.data@.take(i + 1), fe));
        }
        i = i + 1;
    }
    proof {
        assert(db.data@.take(db.data@.len() as int) =~= db.data@);
    }
    out.append("]");
    out.append(",\"absences\":[");
    let ghost fa = enc_absence_fn();
    let mut k: usize = 0;
    while k < db.absences.len()
        invariant
            k <= db.absences@.len(),
            db.records_wf(),
            out@ == "{\"data\":["@ + enc_list(db.data@, fe) + "]"@ + ",\"absences\":["@ + enc_list(
                db.absences@.take(k as int),
                fa,
            ),
            fe == enc_entry_fn(),
            fa == enc_absence_fn(),
        decreases db.absences@.len() - k,
    {
        proof {
            lemma_enc_list_push(db.absences@.take(k as int), fa, db.absences@[k as int]);
            assert(db.absences@.take(k as int).push(db.absences@[k as int]) =~= db.absences@.take(
                k + 1,
            ));
        }
        if k > 0 {
            out.append(",");
        }
        push_absence(&mut out, &db.absences[k]);
        proof {
            assert(out@ =~= "{\"data\":["@ + enc_list(db.data@, fe) + "]"@ + ",\"absences\":["@
                + enc_list(db.absences@.take(k + 1), fa));
        }
        k = k + 1;
    }
    proof {
        assert(db.absences@.take(db.absences@.len() as int) =~= db.absences@);
    }
    out.append("]");
    out.append("}");
    proof {
        reveal(enc_db);
        assert(out@ =~= enc_db(*db));
    }
    out
}

} // verus!
