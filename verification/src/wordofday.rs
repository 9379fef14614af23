//! The word-of-day store logic: one cached (date, word) pair, recomputed
//! once per calendar day from the day-of-year ordinal and the corpus's
//! fixed key enumeration. Reading and writing the backing file is the
//! caller's business; the calendar and the selection rule live here.
use vstd::prelude::*;

use crate::codec::{decode_lines, encode_lines, encode_lines_spec, lemma_lines_round_trip, split_lines_spec};
use crate::corpus::Corpus;
use crate::text::{lemma_char_eq, push_char};

verus! {

/// A calendar day of the years 0 through 9999.
#[derive(Clone, Copy, Debug, PartialEq, Eq, Structural)]
pub struct Day {
    pub year: u16,
    pub month: u8,
    pub day: u8,
}

/// The Gregorian leap-year rule.
pub open spec fn is_leap(y: int) -> bool {
    y % 4 == 0 && (y % 100 != 0 || y % 400 == 0)
}

/// How many days month `m` of year `y` has.
pub open spec fn days_in_month(y: int, m: int) -> int {
    if m == 2 {
        if is_leap(y) {
            29
        } else {
            28
        }
    } else if m == 4 || m == 6 || m == 9 || m == 11 {
        30
    } else {
        31
    }
}

/// How many days the months before `m` of year `y` hold together.
pub open spec fn days_before_month(y: int, m: int) -> int
    decreases m,
{
    if m <= 1 {
        0
    } else {
        days_before_month(y, m - 1) + days_in_month(y, m - 1)
    }
}

/// The day-of-year ordinal: 1 for the first of January.
pub open spec fn ordinal_spec(d: Day) -> int {
    days_before_month(d.year as int, d.month as int) + d.day
}

impl Day {
    /// A real calendar day within the supported year range.
    pub open spec fn wf(&self) -> bool {
        &&& self.year <= 9999
        &&& 1 <= self.month <= 12
        &&& 1 <= self.day <= days_in_month(self.year as int, self.month as int)
    }

    /// The day-of-year ordinal, 1 for the first of January.
    pub fn ordinal(&self) -> (r: u32)
        requires
            self.wf(),
        ensures
            r == ordinal_spec(*self),
    {
        let leap = self.year % 4 == 0 && (self.year % 100 != 0 || self.year % 400 == 0);
        let mut sum: u32 = 0;
        let mut m: u8 = 1;
        while m < self.month
            invariant
                1 <= m <= self.month,
                self.wf(),
                leap == is_leap(self.year as int),
                sum == days_before_month(self.year as int, m as int),
                sum <= 31 * (m as int - 1),
            decreases self.month - m,
        {
            let dm: u32 = if m == 2 {
                if leap {
                    29
                } else {
                    28
                }
            } else if m == 4 || m == 6 || m == 9 || m == 11 {
                30
            } else {
                31
            };
            sum = sum + dm;
            m = m + 1;
        }
        sum + (self.day as u32)
    }
}

/// The character for the decimal digit `d`.
pub open spec fn digit_char(d: int) -> char {
    if d == 0 {
        '0'
    } else if d == 1 {
        '1'
    } else if d == 2 {
        '2'
    } else if d == 3 {
        '3'
    } else if d == 4 {
        '4'
    } else if d == 5 {
        '5'
    } else if d == 6 {
        '6'
    } else if d == 7 {
        '7'
    } else if d == 8 {
        '8'
    } else {
        '9'
    }
}

/// Whether `c` is a decimal digit character.
pub open spec fn is_digit(c: char) -> bool {
    48 <= (c as u32) <= 57
}

/// The value of the digit character `c`.
pub open spec fn char_digit(c: char) -> int {
    (c as u32) - 48
}

/// Two fixed decimal digits, leading zero kept.
pub open spec fn dec2(n: int) -> Seq<char> {
    seq![digit_char((n / 10) % 10), digit_char(n % 10)]
}

/// Four fixed decimal digits, leading zeros kept.
pub open spec fn dec4(n: int) -> Seq<char> {
    seq![
        digit_char((n / 1000) % 10),
        digit_char((n / 100) % 10),
        digit_char((n / 10) % 10),
        digit_char(n % 10),
    ]
}

/// The ISO form of a day: four digit year, dash, two digit month, dash,
/// two digit day.
pub open spec fn iso_spec(d: Day) -> Seq<char> {
    dec4(d.year as int) + seq!['-'] + dec2(d.month as int) + seq!['-'] + dec2(d.day as int)
}

/// A digit character carries back exactly its digit.
proof fn lemma_digit_char_value(d: int)
    requires
        0 <= d <= 9,
    ensures
        is_digit(digit_char(d)),
        char_digit(digit_char(d)) == d,
        digit_char(d) != '-',
        digit_char(d) != '\n',
{
}

/// A digit character is the one its value names.
proof fn lemma_char_digit_roundtrip(c: char)
    requires
        is_digit(c),
    ensures
        digit_char(char_digit(c)) == c,
        0 <= char_digit(c) <= 9,
{
    lemma_char_eq(digit_char(char_digit(c)), c);
}

/// The shape of an ISO day: ten characters, dashes at four and seven,
/// digits elsewhere, and the digits carry the fields back exactly.
#[verifier::rlimit(100)]
pub proof fn lemma_iso_shape(d: Day)
    requires
        d.wf(),
    ensures
        iso_spec(d).len() == 10,
        iso_spec(d)[4] == '-',
        iso_spec(d)[7] == '-',
        forall|i: int|
            0 <= i < 10 && i != 4 && i != 7 ==> is_digit(#[trigger] iso_spec(d)[i]),
        char_digit(iso_spec(d)[0]) * 1000 + char_digit(iso_spec(d)[1]) * 100 + char_digit(
            iso_spec(d)[2],
        ) * 10 + char_digit(iso_spec(d)[3]) == d.year,
        char_digit(iso_spec(d)[5]) * 10 + char_digit(iso_spec(d)[6]) == d.month,
        char_digit(iso_spec(d)[8]) * 10 + char_digit(iso_spec(d)[9]) == d.day,
        !iso_spec(d).contains('\n'),
{
    let s = iso_spec(d);
    let y = d.year as int;
    let m = d.month as int;
    let dy = d.day as int;
    assert(s[0] == digit_char(y / 1000 % 10));
    assert(s[1] == digit_char(y / 100 % 10));
    assert(s[2] == digit_char(y / 10 % 10));
    assert(s[3] == digit_char(y % 10));
    assert(s[5] == digit_char(m / 10 % 10));
    assert(s[6] == digit_char(m % 10));
    assert(s[8] == digit_char(dy / 10 % 10));
    assert(s[9] == digit_char(dy % 10));
    lemma_digit_char_value(y / 1000 % 10);
    lemma_digit_char_value(y / 100 % 10);
    lemma_digit_char_value(y / 10 % 10);
    lemma_digit_char_value(y % 10);
    lemma_digit_char_value(m / 10 % 10);
    lemma_digit_char_value(m % 10);
    lemma_digit_char_value(dy / 10 % 10);
    lemma_digit_char_value(dy % 10);
    assert(y / 1000 % 10 * 1000 + y / 100 % 10 * 100 + y / 10 % 10 * 10 + y % 10 == y);
    assert(m / 10 % 10 * 10 + m % 10 == m);
    assert(dy / 10 % 10 * 10 + dy % 10 == dy);
    assert forall|i: int| 0 <= i < 10 implies s[i] != '\n' by {
        if i != 4 && i != 7 {
            assert(is_digit(s[i]));
        }
    }
    if s.contains('\n') {
        let i = choose|i: int| 0 <= i < s.len() && s[i] == '\n';
    }
}

/// The character for a digit value.
fn digit_to_char(d: u8) -> (c: char)
    requires
        d <= 9,
    ensures
        c == digit_char(d as int),
{
    match d {
        0 => '0',
        1 => '1',
        2 => '2',
        3 => '3',
        4 => '4',
        5 => '5',
        6 => '6',
        7 => '7',
        8 => '8',
        _ => '9',
    }
}

/// The digit value at position `i`, or nothing when the character there
/// is no digit.
fn digit_at(s: &str, i: usize) -> (r: Option<u8>)
    requires
        i < s@.len(),
    ensures
        r matches Some(v) ==> is_digit(s@[i as int]) && v == char_digit(s@[i as int]),
        r is None ==> !is_digit(s@[i as int]),
{
    let c = s.get_char(i);
    let u = c as u32;
    if 48 <= u && u <= 57 {
        Some((u - 48) as u8)
    } else {
        None
    }
}

/// How many days the given month has.
pub fn month_length(year: u16, month: u8) -> (r: u8)
    requires
        1 <= month <= 12,
    ensures
        r as int == days_in_month(year as int, month as int),
{
    if month == 2 {
        if year % 4 == 0 && (year % 100 != 0 || year % 400 == 0) {
            29
        } else {
            28
        }
    } else if month == 4 || month == 6 || month == 9 || month == 11 {
        30
    } else {
        31
    }
}

impl Day {
    /// This day in ISO form: `yyyy-mm-dd`.
    pub fn to_iso(&self) -> (r: String)
        requires
            self.wf(),
        ensures
            r@ == iso_spec(*self),
    {
        let y = self.year;
        let m = self.month;
        let d = self.day;
        let mut out = String::new();
        push_char(&mut out, digit_to_char((y / 1000 % 10) as u8));
        push_char(&mut out, digit_to_char((y / 100 % 10) as u8));
        push_char(&mut out, digit_to_char((y / 10 % 10) as u8));
        push_char(&mut out, digit_to_char((y % 10) as u8));
        push_char(&mut out, '-');
        push_char(&mut out, digit_to_char((m / 10 % 10) as u8));
        push_char(&mut out, digit_to_char((m % 10) as u8));
        push_char(&mut out, '-');
        push_char(&mut out, digit_to_char((d / 10 % 10) as u8));
        push_char(&mut out, digit_to_char((d % 10) as u8));
        proof {
            assert(out@ =~= iso_spec(*self));
        }
        out
    }

    /// Reads a day back from its ISO form: the day whose ISO form is
    /// exactly `s`, or nothing when no valid day writes itself so.
    #[verifier::rlimit(100)]
    pub fn from_iso(s: &str) -> (r: Option<Day>)
        ensures
            r matches Some(d) ==> d.wf() && s@ == iso_spec(d),
            r is None ==> forall|d: Day| d.wf() ==> s@ != iso_spec(d),
    {
        if s.unicode_len() != 10 {
            proof {
                assert forall|d: Day| d.wf() implies s@ != iso_spec(d) by {
                    lemma_iso_shape(d);
                }
            }
            return None;
        }
        if s.get_char(4) != '-' || s.get_char(7) != '-' {
            proof {
                assert forall|d: Day| d.wf() implies s@ != iso_spec(d) by {
                    lemma_iso_shape(d);
                }
            }
            return None;
        }
        let digits = [
            digit_at(s, 0),
            digit_at(s, 1),
            digit_at(s, 2),
            digit_at(s, 3),
            digit_at(s, 5),
            digit_at(s, 6),
            digit_at(s, 8),
            digit_at(s, 9),
        ];
        let mut k: usize = 0;
        while k < 8
            invariant
                k <= 8,
                forall|j: int| 0 <= j < k ==> digits@[j] is Some,
            decreases 8 - k,
        {
            if digits[k].is_none() {
                proof {
                    assert forall|d: Day| d.wf() implies s@ != iso_spec(d) by {
                        lemma_iso_shape(d);
                    }
                }
                return None;
            }
            k = k + 1;
        }
        let d0 = digits[0].unwrap();
        let d1 = digits[1].unwrap();
        let d2 = digits[2].unwrap();
        let d3 = digits[3].unwrap();
        let d5 = digits[4].unwrap();
        let d6 = digits[5].unwrap();
        let d8 = digits[6].unwrap();
        let d9 = digits[7].unwrap();
        let year: u16 = (d0 as u16) * 1000 + (d1 as u16) * 100 + (d2 as u16) * 10 + (d3 as u16);
        let month: u8 = d5 * 10 + d6;
        let day: u8 = d8 * 10 + d9;
        if month < 1 || month > 12 {
            proof {
                assert forall|d: Day| d.wf() implies s@ != iso_spec(d) by {
                    if s@ == iso_spec(d) {
                        lemma_iso_shape(d);
                    }
                }
            }
            return None;
        }
        if day < 1 || day > month_length(year, month) {
            proof {
                assert forall|d: Day| d.wf() implies s@ != iso_spec(d) by {
                    if s@ == iso_spec(d) {
                        lemma_iso_shape(d);
                    }
                }
            }
            return None;
        }
        let parsed = Day { year, month, day };
        proof {
            lemma_iso_shape(parsed);
            lemma_char_digit_roundtrip(s@[0]);
            lemma_char_digit_roundtrip(s@[1]);
            lemma_char_digit_roundtrip(s@[2]);
            lemma_char_digit_roundtrip(s@[3]);
            lemma_char_digit_roundtrip(s@[5]);
            lemma_char_digit_roundtrip(s@[6]);
            lemma_char_digit_roundtrip(s@[8]);
            lemma_char_digit_roundtrip(s@[9]);
            assert(s@ =~= iso_spec(parsed));
        }
        Some(parsed)
    }
}

/// Two valid days with the same ISO form are the same day.
pub proof fn lemma_iso_injective(a: Day, b: Day)
    requires
        a.wf(),
        b.wf(),
        iso_spec(a) == iso_spec(b),
    ensures
        a == b,
{
    lemma_iso_shape(a);
    lemma_iso_shape(b);
}

/// The cached word-of-day record: the day and the word chosen for it.
pub struct WodRecord {
    pub date: Day,
    pub word: String,
}

/// The mathematical content of a record.
pub open spec fn rec_view(rec: WodRecord) -> (Day, Seq<char>) {
    (rec.date, rec.word@)
}

/// The mathematical content of a borrowed stored record.
pub open spec fn stored_view(stored: Option<&WodRecord>) -> Option<(Day, Seq<char>)> {
    match stored {
        Some(rec) => Some(rec_view(*rec)),
        None => None,
    }
}

/// The mathematical content of a returned record.
pub open spec fn opt_rec_view(o: Option<WodRecord>) -> Option<(Day, Seq<char>)> {
    match o {
        Some(rec) => Some(rec_view(rec)),
        None => None,
    }
}

/// The freshly selected pair for `today`: the key at position
/// day-of-year modulo key count, and the record to persist.
pub open spec fn wod_fresh(keys: Seq<Seq<char>>, today: Day) -> (Seq<char>, Option<
    (Day, Seq<char>),
>)
    recommends
        keys.len() > 0,
{
    let w = keys[ordinal_spec(today) % (keys.len() as int)];
    (w, Some((today, w)))
}

/// What asking for the word of `today` yields and newly persists, given
/// what was stored: the stored word on a cache hit, else a fresh pick.
pub open spec fn wod_spec(
    keys: Seq<Seq<char>>,
    today: Day,
    stored: Option<(Day, Seq<char>)>,
) -> (Seq<char>, Option<(Day, Seq<char>)>)
    recommends
        keys.len() > 0,
{
    match stored {
        Some(rec) => if rec.0 == today {
            (rec.1, None)
        } else {
            wod_fresh(keys, today)
        },
        None => wod_fresh(keys, today),
    }
}

/// Selects a fresh word of the day and the record to persist for it.
pub fn calculate_new_word_of_the_day(corpus: &Corpus, today: &Day) -> (r: (
    String,
    Option<WodRecord>,
))
    requires
        corpus.wf(),
        today.wf(),
        corpus.key_seq().len() > 0,
    ensures
        ({
            let out = wod_fresh(corpus.key_seq(), *today);
            r.0@ == out.0 && opt_rec_view(r.1) == out.1
        }),
{
    let ord = today.ordinal();
    let n = corpus.len();
    let idx = (ord as usize) % n;
    let word = corpus.key_at(idx).clone();
    let rec = WodRecord { date: *today, word: word.clone() };
    (word, Some(rec))
}

/// The word of `today`: the stored word when the stored record is from
/// `today`, else a fresh deterministic pick; the second component is the
/// record to persist, when one is.
pub fn get_word_of_the_day(corpus: &Corpus, today: &Day, stored: Option<&WodRecord>) -> (r: (
    String,
    Option<WodRecord>,
))
    requires
        corpus.wf(),
        today.wf(),
        corpus.key_seq().len() > 0,
    ensures
        ({
            let out = wod_spec(corpus.key_seq(), *today, stored_view(stored));
            r.0@ == out.0 && opt_rec_view(r.1) == out.1
        }),
{
    match stored {
        Some(rec) => {
            if rec.date == *today {
                (rec.word.clone(), None)
            } else {
                calculate_new_word_of_the_day(corpus, today)
            }
        },
        None => calculate_new_word_of_the_day(corpus, today),
    }
}

/// Law: asked twice on the same calendar day, the second time with
/// whatever the first ask left persisted, the store yields the same word.
pub proof fn lemma_wod_same_day(
    keys: Seq<Seq<char>>,
    today: Day,
    stored: Option<(Day, Seq<char>)>,
)
    requires
        keys.len() > 0,
    ensures
        ({
            let first = wod_spec(keys, today, stored);
            let persisted = if first.1 is Some {
                first.1
            } else {
                stored
            };
            wod_spec(keys, today, persisted).0 == first.0
        }),
{
}

/// The two-line persisted form of a record: the ISO date line, then the
/// word line.
pub open spec fn record_lines(rec: WodRecord) -> Seq<Seq<char>> {
    seq![iso_spec(rec.date), rec.word@]
}

/// Encodes the record for persistence: the ISO date line, then the word
/// line.
pub fn encode_record(rec: &WodRecord) -> (r: String)
    requires
        rec.date.wf(),
    ensures
        r@ == encode_lines_spec(record_lines(*rec)),
{
    let mut lines: Vec<String> = Vec::new();
    lines.push(rec.date.to_iso());
    lines.push(rec.word.clone());
    let out = encode_lines(&lines);
    proof {
        assert(crate::text::str_views(lines@) =~= record_lines(*rec));
    }
    out
}

/// Decodes a persisted record: exactly two lines, the first a valid ISO
/// day, or nothing.
pub fn decode_record(content: &str) -> (r: Option<WodRecord>)
    ensures
        ({
            let ls = split_lines_spec(content@);
            match r {
                Some(rec) => rec.date.wf() && ls == record_lines(rec),
                None => ls.len() != 2 || (forall|d: Day| d.wf() ==> ls[0] != iso_spec(d)),
            }
        }),
{
    let mut lines = decode_lines(content);
    if lines.len() != 2 {
        return None;
    }
    let word = lines.pop().unwrap();
    let date_line = lines.pop().unwrap();
    proof {
        assert(split_lines_spec(content@)[0] == date_line@);
        assert(split_lines_spec(content@)[1] == word@);
    }
    match Day::from_iso(date_line.as_str()) {
        Some(d) => {
            let rec = WodRecord { date: d, word };
            proof {
                assert(split_lines_spec(content@) =~= record_lines(rec));
            }
            Some(rec)
        },
        None => None,
    }
}

/// Law: a record written in its two-line encoding reads back as exactly
/// the two lines that were written, provided the word holds no newline.
pub proof fn lemma_record_round_trip(rec: WodRecord)
    requires
        rec.date.wf(),
        !rec.word@.contains('\n'),
    ensures
        split_lines_spec(encode_lines_spec(record_lines(rec))) == record_lines(rec),
{
    lemma_iso_shape(rec.date);
    assert forall|i: int| 0 <= i < record_lines(rec).len() implies !#[trigger] record_lines(
        rec,
    )[i].contains('\n') by {
        if i == 0 {
            assert(record_lines(rec)[0] == iso_spec(rec.date));
        } else {
            assert(record_lines(rec)[1] == rec.word@);
        }
    }
    lemma_lines_round_trip(record_lines(rec));
}

} // verus!
