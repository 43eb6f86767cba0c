//! Calendar timestamps with second resolution, and the snapshot
//! file-name scheme built on them.
//!
//! A snapshot of a source file named `base` taken at time `t` is stored
//! under the name `YYYYMMDDHHMMSS_base`, where the fourteen leading
//! characters are the zero-padded decimal fields of `t`. For a fixed
//! base name these names sort lexically in chronological order.

use vstd::prelude::*;

verus! {

/// A wall-clock moment with second resolution, as the fields a person
/// would read off a calendar and a clock.
#[derive(Clone, Copy, PartialEq, Eq, Structural, Debug)]
pub struct Timestamp {
    pub year: u16,
    pub month: u8,
    pub day: u8,
    pub hour: u8,
    pub minute: u8,
    pub second: u8,
}

impl Timestamp {
    /// Field ranges under which the fourteen-character rendering is
    /// well defined: a four-digit year and calendar/clock ranges for
    /// the rest.
    pub open spec fn valid(self) -> bool {
        &&& self.year <= 9999
        &&& 1 <= self.month <= 12
        &&& 1 <= self.day <= 31
        &&& self.hour <= 23
        &&& self.minute <= 59
        &&& self.second <= 59
    }

    /// Builds a timestamp from unconstrained integer fields, accepting
    /// exactly those that form a `valid` timestamp.
    pub fn from_fields(year: i32, month: u32, day: u32, hour: u32, minute: u32, second: u32) -> (r:
        Option<Timestamp>)
        ensures
            r is Some <==> {
                &&& 0 <= year <= 9999
                &&& 1 <= month <= 12
                &&& 1 <= day <= 31
                &&& hour <= 23
                &&& minute <= 59
                &&& second <= 59
            },
            r matches Some(t) ==> {
                &&& t.valid()
                &&& t.year == year
                &&& t.month == month
                &&& t.day == day
                &&& t.hour == hour
                &&& t.minute == minute
                &&& t.second == second
            },
    {
        if 0 <= year && year <= 9999 && 1 <= month && month <= 12 && 1 <= day && day <= 31 && hour
            <= 23 && minute <= 59 && second <= 59 {
            Some(
                Timestamp {
                    year: year as u16,
                    month: month as u8,
                    day: day as u8,
                    hour: hour as u8,
                    minute: minute as u8,
                    second: second as u8,
                },
            )
        } else {
            None
        }
    }
}

/// The character for one decimal digit.
pub open spec fn digit_char(d: int) -> char {
    if d == 0 {
        '0'
    } else if d == 1 {
        '1'
    } else if d == 2 {
        '2'
    } else if d == 3 {
        '3'
    } else if d == 4 {
        '4'
    } else if d == 5 {
        '5'
    } else if d == 6 {
        '6'
    } else if d == 7 {
        '7'
    } else if d == 8 {
        '8'
    } else {
        '9'
    }
}

/// `n` rendered as exactly two decimal digits, zero padded.
pub open spec fn pad2(n: int) -> Seq<char> {
    seq![digit_char(n / 10 % 10), digit_char(n % 10)]
}

/// `n` rendered as exactly four decimal digits, zero padded.
pub open spec fn pad4(n: int) -> Seq<char> {
    seq![
        digit_char(n / 1000 % 10),
        digit_char(n / 100 % 10),
        digit_char(n / 10 % 10),
        digit_char(n % 10),
    ]
}

/// The fourteen characters `YYYYMMDDHHMMSS` of a timestamp.
pub open spec fn timestamp_chars(t: Timestamp) -> Seq<char> {
    pad4(t.year as int) + pad2(t.month as int) + pad2(t.day as int) + pad2(t.hour as int) + pad2(
        t.minute as int,
    ) + pad2(t.second as int)
}

/// The snapshot name for base name `base` at time `t`:
/// the timestamp characters, an underscore, then the base name.
pub open spec fn snapshot_name_chars(t: Timestamp, base: Seq<char>) -> Seq<char> {
    timestamp_chars(t) + seq!['_'] + base
}

/// Strict lexicographic order on character strings by code point: the
/// first difference decides, and a proper prefix comes first.
pub open spec fn chars_lt(a: Seq<char>, b: Seq<char>) -> bool
    decreases a.len(),
{
    if b.len() == 0 {
        false
    } else if a.len() == 0 {
        true
    } else if (a[0] as int) < (b[0] as int) {
        true
    } else if (a[0] as int) > (b[0] as int) {
        false
    } else {
        chars_lt(a.skip(1), b.skip(1))
    }
}

/// Chronological order on timestamps, field by field.
pub open spec fn ts_before(a: Timestamp, b: Timestamp) -> bool {
    if a.year != b.year {
        a.year < b.year
    } else if a.month != b.month {
        a.month < b.month
    } else if a.day != b.day {
        a.day < b.day
    } else if a.hour != b.hour {
        a.hour < b.hour
    } else if a.minute != b.minute {
        a.minute < b.minute
    } else {
        a.second < b.second
    }
}

proof fn lemma_chars_lt_at(a: Seq<char>, b: Seq<char>, i: int)
    requires
        a.len() == b.len(),
        0 <= i < a.len(),
        forall|j: int| 0 <= j < i ==> a[j] == b[j],
        (a[i] as int) < (b[i] as int),
    ensures
        chars_lt(a, b),
    decreases i,
{
    if i > 0 {
        lemma_chars_lt_at(a.skip(1), b.skip(1), i - 1);
    }
}

proof fn lemma_chars_lt_concat_right(a: Seq<char>, x: Seq<char>, y: Seq<char>)
    requires
        chars_lt(x, y),
    ensures
        chars_lt(a + x, a + y),
    decreases a.len(),
{
    if a.len() == 0 {
        assert(a + x =~= x);
        assert(a + y =~= y);
    } else {
        lemma_chars_lt_concat_right(a.skip(1), x, y);
        assert((a + x).skip(1) =~= a.skip(1) + x);
        assert((a + y).skip(1) =~= a.skip(1) + y);
    }
}

proof fn lemma_chars_lt_concat_left(a: Seq<char>, b: Seq<char>, x: Seq<char>, y: Seq<char>)
    requires
        a.len() == b.len(),
        chars_lt(a, b),
    ensures
        chars_lt(a + x, b + y),
    decreases a.len(),
{
    if (a[0] as int) == (b[0] as int) {
        lemma_chars_lt_concat_left(a.skip(1), b.skip(1), x, y);
        assert((a + x).skip(1) =~= a.skip(1) + x);
        assert((b + y).skip(1) =~= b.skip(1) + y);
    }
}

proof fn lemma_digit_char_monotone(c: int, d: int)
    requires
        0 <= c < d <= 9,
    ensures
        (digit_char(c) as int) < (digit_char(d) as int),
{
}

proof fn lemma_pad2_lt(m: int, n: int)
    requires
        0 <= m < n <= 99,
    ensures
        chars_lt(pad2(m), pad2(n)),
{
    let a = pad2(m);
    let b = pad2(n);
    assert(m / 10 % 10 == m / 10);
    assert(n / 10 % 10 == n / 10);
    if m / 10 == n / 10 {
        assert(m % 10 < n % 10);
        lemma_digit_char_monotone(m % 10, n % 10);
        lemma_chars_lt_at(a, b, 1);
    } else {
        assert(m / 10 < n / 10);
        lemma_digit_char_monotone(m / 10, n / 10);
        lemma_chars_lt_at(a, b, 0);
    }
}

proof fn lemma_pad4_lt(m: int, n: int)
    requires
        0 <= m < n <= 9999,
    ensures
        chars_lt(pad4(m), pad4(n)),
{
    let a = pad4(m);
    let b = pad4(n);
    assert(m / 1000 % 10 == m / 1000);
    assert(n / 1000 % 10 == n / 1000);
    if m / 1000 != n / 1000 {
        assert(m / 1000 < n / 1000);
        lemma_digit_char_monotone(m / 1000, n / 1000);
        lemma_chars_lt_at(a, b, 0);
    } else if m / 100 != n / 100 {
        assert(m / 100 < n / 100);
        assert(m / 100 % 10 < n / 100 % 10);
        lemma_digit_char_monotone(m / 100 % 10, n / 100 % 10);
        lemma_chars_lt_at(a, b, 1);
    } else if m / 10 != n / 10 {
        assert(m / 10 < n / 10);
        assert(m / 10 % 10 < n / 10 % 10);
        lemma_digit_char_monotone(m / 10 % 10, n / 10 % 10);
        lemma_chars_lt_at(a, b, 2);
    } else {
        assert(m % 10 < n % 10);
        lemma_digit_char_monotone(m % 10, n % 10);
        lemma_chars_lt_at(a, b, 3);
    }
}

proof fn lemma_timestamp_chars_lt(a: Timestamp, b: Timestamp)
    requires
        a.valid(),
        b.valid(),
        ts_before(a, b),
    ensures
        chars_lt(timestamp_chars(a), timestamp_chars(b)),
{
    let ra = pad2(a.month as int) + pad2(a.day as int) + pad2(a.hour as int) + pad2(
        a.minute as int,
    ) + pad2(a.second as int);
    let rb = pad2(b.month as int) + pad2(b.day as int) + pad2(b.hour as int) + pad2(
        b.minute as int,
    ) + pad2(b.second as int);
    assert(timestamp_chars(a) =~= pad4(a.year as int) + ra);
    assert(timestamp_chars(b) =~= pad4(b.year as int) + rb);
    if a.year != b.year {
        lemma_pad4_lt(a.year as int, b.year as int);
        lemma_chars_lt_concat_left(pad4(a.year as int), pad4(b.year as int), ra, rb);
    } else {
        let p0 = pad4(a.year as int);
        let ra1 = pad2(a.day as int) + pad2(a.hour as int) + pad2(a.minute as int) + pad2(
            a.second as int,
        );
        let rb1 = pad2(b.day as int) + pad2(b.hour as int) + pad2(b.minute as int) + pad2(
            b.second as int,
        );
        assert(ra =~= pad2(a.month as int) + ra1);
        assert(rb =~= pad2(b.month as int) + rb1);
        if a.month != b.month {
            lemma_pad2_lt(a.month as int, b.month as int);
            lemma_chars_lt_concat_left(pad2(a.month as int), pad2(b.month as int), ra1, rb1);
        } else {
            let ra2 = pad2(a.hour as int) + pad2(a.minute as int) + pad2(a.second as int);
            let rb2 = pad2(b.hour as int) + pad2(b.minute as int) + pad2(b.second as int);
            assert(ra1 =~= pad2(a.day as int) + ra2);
            assert(rb1 =~= pad2(b.day as int) + rb2);
            if a.day != b.day {
                lemma_pad2_lt(a.day as int, b.day as int);
                lemma_chars_lt_concat_left(pad2(a.day as int), pad2(b.day as int), ra2, rb2);
            } else {
                let ra3 = pad2(a.minute as int) + pad2(a.second as int);
                let rb3 = pad2(b.minute as int) + pad2(b.second as int);
                assert(ra2 =~= pad2(a.hour as int) + ra3);
                assert(rb2 =~= pad2(b.hour as int) + rb3);
                if a.hour != b.hour {
                    lemma_pad2_lt(a.hour as int, b.hour as int);
                    lemma_chars_lt_concat_left(pad2(a.hour as int), pad2(b.hour as int), ra3, rb3);
                } else {
                    if a.minute != b.minute {
                        lemma_pad2_lt(a.minute as int, b.minute as int);
                        lemma_chars_lt_concat_left(
                            pad2(a.minute as int),
                            pad2(b.minute as int),
                            pad2(a.second as int),
                            pad2(b.second as int),
                        );
                    } else {
                        lemma_pad2_lt(a.second as int, b.second as int);
                        lemma_chars_lt_concat_right(
                            pad2(a.minute as int),
                            pad2(a.second as int),
                            pad2(b.second as int),
                        );
                        assert(ra3 =~= pad2(a.minute as int) + pad2(a.second as int));
                        assert(rb3 =~= pad2(b.minute as int) + pad2(b.second as int));
                    }
                    lemma_chars_lt_concat_right(pad2(a.hour as int), ra3, rb3);
                }
                lemma_chars_lt_concat_right(pad2(a.day as int), ra2, rb2);
            }
            lemma_chars_lt_concat_right(pad2(a.month as int), ra1, rb1);
        }
        lemma_chars_lt_concat_right(p0, ra, rb);
    }
}

/// For one fixed base name, snapshot names sort lexically in
/// chronological order: the name taken at an earlier moment is
/// lexically smaller.
pub proof fn lemma_names_sort_chronologically(a: Timestamp, b: Timestamp, base: Seq<char>)
    requires
        a.valid(),
        b.valid(),
        ts_before(a, b),
    ensures
        chars_lt(snapshot_name_chars(a, base), snapshot_name_chars(b, base)),
{
    lemma_timestamp_chars_lt(a, b);
    let tail = seq!['_'] + base;
    lemma_chars_lt_concat_left(timestamp_chars(a), timestamp_chars(b), tail, tail);
    assert(snapshot_name_chars(a, base) =~= timestamp_chars(a) + tail);
    assert(snapshot_name_chars(b, base) =~= timestamp_chars(b) + tail);
}

/// Appends the single character for digit `d` to `s`.
fn push_digit(s: &mut String, d: u8)
    requires
        d < 10,
    ensures
        final(s)@ == old(s)@.push(digit_char(d as int)),
{
    let part: &str = match d {
        0 => "0",
        1 => "1",
        2 => "2",
        3 => "3",
        4 => "4",
        5 => "5",
        6 => "6",
        7 => "7",
        8 => "8",
        _ => "9",
    };
    proof {
        reveal_strlit("0");
        reveal_strlit("1");
        reveal_strlit("2");
        reveal_strlit("3");
        reveal_strlit("4");
        reveal_strlit("5");
        reveal_strlit("6");
        reveal_strlit("7");
        reveal_strlit("8");
        reveal_strlit("9");
        assert(part@ =~= seq![digit_char(d as int)]);
    }
    s.append(part);
    proof {
        assert(s@ =~= old(s)@.push(digit_char(d as int)));
    }
}

/// Appends the two-digit zero-padded rendering of `n` to `s`.
fn push_pad2(s: &mut String, n: u8)
    requires
        n <= 99,
    ensures
        final(s)@ == old(s)@ + pad2(n as int),
{
    push_digit(s, n / 10 % 10);
    push_digit(s, n % 10);
    proof {
        assert(s@ =~= old(s)@ + pad2(n as int));
    }
}

/// Appends the four-digit zero-padded rendering of `n` to `s`.
fn push_pad4(s: &mut String, n: u16)
    requires
        n <= 9999,
    ensures
        final(s)@ == old(s)@ + pad4(n as int),
{
    push_digit(s, (n / 1000 % 10) as u8);
    push_digit(s, (n / 100 % 10) as u8);
    push_digit(s, (n / 10 % 10) as u8);
    push_digit(s, (n % 10) as u8);
    proof {
        assert(s@ =~= old(s)@ + pad4(n as int));
    }
}

impl Timestamp {
    /// The `YYYYMMDDHHMMSS` rendering of this timestamp.
    pub fn format_compact(&self) -> (r: String)
        requires
            self.valid(),
        ensures
            r@ == timestamp_chars(*self),
    {
        let mut s = String::new();
        push_pad4(&mut s, self.year);
        push_pad2(&mut s, self.month);
        push_pad2(&mut s, self.day);
        push_pad2(&mut s, self.hour);
        push_pad2(&mut s, self.minute);
        push_pad2(&mut s, self.second);
        proof {
            assert(s@ =~= timestamp_chars(*self));
        }
        s
    }
}

/// The file name under which a snapshot of a source file whose base
/// name is `base`, taken at time `t`, is stored.
pub fn snapshot_file_name(t: &Timestamp, base: &str) -> (r: String)
    requires
        t.valid(),
    ensures
        r@ == snapshot_name_chars(*t, base@),
{
    let mut s = t.format_compact();
    proof {
        reveal_strlit("_");
        assert("_"@ =~= seq!['_']);
    }
    s.append("_");
    s.append(base);
    proof {
        assert(s@ =~= snapshot_name_chars(*t, base@));
    }
    s
}

} // verus!
