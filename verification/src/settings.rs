//! Effective settings derived from raw console input.
//!
//! The interval and the retention limit are each read as one line of
//! text. A line that is empty, is not an unsigned decimal number, or
//! names a number above `u64::MAX` falls back to the default of 10,
//! matching `str::parse::<u64>` on the happy path: an optional leading
//! `+` followed by ASCII digits.

use vstd::prelude::*;

verus! {

/// The value used for the interval and for the retention limit when
/// the input line cannot be read as a number.
pub const DEFAULT_SETTING: u64 = 10;

/// The characters that trimming removes: those with Unicode's
/// White_Space property, the set `str::trim` uses.
pub open spec fn is_space_char(c: char) -> bool {
    ||| 0x9 <= c as int <= 0xD
    ||| c as int == 0x20
    ||| c as int == 0x85
    ||| c as int == 0xA0
    ||| c as int == 0x1680
    ||| 0x2000 <= c as int <= 0x200A
    ||| c as int == 0x2028
    ||| c as int == 0x2029
    ||| c as int == 0x202F
    ||| c as int == 0x205F
    ||| c as int == 0x3000
}

/// `s` without its leading white space.
pub open spec fn trim_start_chars(s: Seq<char>) -> Seq<char>
    decreases s.len(),
{
    if s.len() > 0 && is_space_char(s[0]) {
        trim_start_chars(s.skip(1))
    } else {
        s
    }
}

/// `s` without its trailing white space.
pub open spec fn trim_end_chars(s: Seq<char>) -> Seq<char>
    decreases s.len(),
{
    if s.len() > 0 && is_space_char(s.last()) {
        trim_end_chars(s.drop_last())
    } else {
        s
    }
}

/// `s` without leading and trailing white space, as `str::trim`
/// leaves it.
pub open spec fn trimmed(s: Seq<char>) -> Seq<char> {
    trim_end_chars(trim_start_chars(s))
}

/// Decides `is_space_char`.
fn is_space(c: char) -> (r: bool)
    ensures
        r == is_space_char(c),
{
    let v = c as u32;
    (9 <= v && v <= 13) || v == 0x20 || v == 0x85 || v == 0xA0 || v == 0x1680 || (0x2000 <= v && v
        <= 0x200A) || v == 0x2028 || v == 0x2029 || v == 0x202F || v == 0x205F || v == 0x3000
}

/// The index of the first character that is not white space.
fn scan_space_start(s: &str) -> (start: usize)
    ensures
        start <= s@.len(),
        trim_start_chars(s@) == s@.skip(start as int),
{
    let len = s.unicode_len();
    let mut start: usize = 0;
    proof {
        assert(s@.skip(0) =~= s@);
    }
    while start < len
        invariant
            start <= len,
            len == s@.len(),
            trim_start_chars(s@) == trim_start_chars(s@.skip(start as int)),
        decreases len - start,
    {
        if !is_space(s.get_char(start)) {
            return start;
        }
        start += 1;
        proof {
            assert(s@.skip(start - 1).skip(1) =~= s@.skip(start as int));
        }
    }
    proof {
        assert(s@.skip(start as int) =~= Seq::<char>::empty());
    }
    start
}

/// The index just past the last character, from `start` on, that is
/// not white space.
fn scan_space_end(s: &str, start: usize) -> (end: usize)
    requires
        start <= s@.len(),
    ensures
        start <= end <= s@.len(),
        trim_end_chars(s@.skip(start as int)) == s@.subrange(start as int, end as int),
{
    let ghost t = s@.skip(start as int);
    let len = s.unicode_len();
    let mut end: usize = len;
    proof {
        assert(t.take(end - start) =~= t);
    }
    while end > start
        invariant
            start <= end <= len,
            len == s@.len(),
            t == s@.skip(start as int),
            trim_end_chars(t) == trim_end_chars(t.take(end - start)),
        decreases end,
    {
        if !is_space(s.get_char(end - 1)) {
            proof {
                assert(t.take(end - start).last() == s@[end - 1]);
                assert(t.take(end - start) =~= s@.subrange(start as int, end as int));
            }
            return end;
        }
        end -= 1;
        proof {
            assert(t.take(end + 1 - start).drop_last() =~= t.take(end - start));
        }
    }
    proof {
        assert(t.take(end - start) =~= s@.subrange(start as int, end as int));
    }
    end
}

/// One raw console line without its surrounding white space, exactly
/// as `str::trim` would leave it.
pub fn trim_input(s: &str) -> (r: String)
    ensures
        r@ == trimmed(s@),
{
    let start = scan_space_start(s);
    let end = scan_space_end(s, start);
    let part = s.substring_char(start, end);
    proof {
        assert(part@ == trimmed(s@));
    }
    part.to_owned()
}

/// Whether `c` is an ASCII decimal digit.
pub open spec fn is_ascii_digit(c: char) -> bool {
    48 <= c as int <= 57
}

/// The numeric value of an ASCII decimal digit.
pub open spec fn digit_val(c: char) -> int {
    c as int - 48
}

/// Whether every character of `s` is an ASCII decimal digit.
pub open spec fn all_digits(s: Seq<char>) -> bool {
    forall|i: int| 0 <= i < s.len() ==> is_ascii_digit(#[trigger] s[i])
}

/// The number written by a digit string, most significant digit first.
pub open spec fn digits_val(s: Seq<char>) -> int
    decreases s.len(),
{
    if s.len() == 0 {
        0
    } else {
        10 * digits_val(s.drop_last()) + digit_val(s.last())
    }
}

/// The digit part of a numeric input: everything after one optional
/// leading `+`.
pub open spec fn parse_body(s: Seq<char>) -> Seq<char> {
    if s.len() > 0 && s[0] == '+' {
        s.skip(1)
    } else {
        s
    }
}

/// What `str::parse::<u64>` accepts: a non-empty all-digit body whose
/// value fits in a `u64`; `None` otherwise.
pub open spec fn parsed_u64(s: Seq<char>) -> Option<u64> {
    let body = parse_body(s);
    if body.len() > 0 && all_digits(body) && digits_val(body) <= u64::MAX {
        Some(digits_val(body) as u64)
    } else {
        None
    }
}

/// The setting a raw input line yields: the parsed number, or the
/// default when parsing fails.
pub open spec fn effective_setting(s: Seq<char>) -> u64 {
    match parsed_u64(s) {
        Some(v) => v,
        None => DEFAULT_SETTING,
    }
}

proof fn lemma_digits_val_nonneg(s: Seq<char>)
    requires
        all_digits(s),
    ensures
        digits_val(s) >= 0,
    decreases s.len(),
{
    if s.len() > 0 {
        assert(all_digits(s.drop_last()));
        lemma_digits_val_nonneg(s.drop_last());
    }
}

proof fn lemma_digits_val_prefix(s: Seq<char>, k: int)
    requires
        all_digits(s),
        0 <= k <= s.len(),
    ensures
        digits_val(s.take(k)) <= digits_val(s),
    decreases s.len(),
{
    if k == s.len() {
        assert(s.take(k) =~= s);
    } else {
        let p = s.drop_last();
        assert(all_digits(p));
        lemma_digits_val_prefix(p, k);
        assert(p.take(k) =~= s.take(k));
        lemma_digits_val_nonneg(p);
    }
}

proof fn lemma_digits_val_push(p: Seq<char>, c: char)
    ensures
        digits_val(p.push(c)) == 10 * digits_val(p) + digit_val(c),
{
    assert(p.push(c).drop_last() =~= p);
    assert(p.push(c).last() == c);
}

/// Reads one raw input line as an unsigned number, substituting the
/// default for empty, malformed, or oversized input.
pub fn parse_or_default(s: &str) -> (r: u64)
    ensures
        r == effective_setting(s@),
{
    let len = s.unicode_len();
    let start: usize = if len > 0 && s.get_char(0) == '+' {
        1
    } else {
        0
    };
    let ghost body = parse_body(s@);
    proof {
        assert(body =~= s@.skip(start as int));
    }
    if len == start {
        return DEFAULT_SETTING;
    }
    let mut i: usize = start;
    let mut acc: u64 = 0;
    while i < len
        invariant
            start <= i <= len,
            len == s@.len(),
            start < len,
            start == 1 <==> (s@.len() > 0 && s@[0] == '+'),
            start <= 1,
            body == parse_body(s@),
            body =~= s@.skip(start as int),
            all_digits(body.take(i - start)),
            acc == digits_val(body.take(i - start)),
        decreases len - i,
    {
        let c = s.get_char(i);
        let cv = c as u32;
        proof {
            assert(body[i - start] == s@[i as int]);
        }
        if cv < 48 || cv > 57 {
            proof {
                assert(!is_ascii_digit(body[i - start]));
                assert(parsed_u64(s@) is None);
            }
            return DEFAULT_SETTING;
        }
        let d: u64 = (cv - 48) as u64;
        let wide: u128 = acc as u128 * 10 + d as u128;
        proof {
            assert(body.take(i - start + 1) =~= body.take(i - start).push(body[i - start]));
            lemma_digits_val_push(body.take(i - start), body[i - start]);
        }
        if wide > u64::MAX as u128 {
            proof {
                if all_digits(body) {
                    lemma_digits_val_prefix(body, i - start + 1);
                }
                assert(parsed_u64(s@) is None);
            }
            return DEFAULT_SETTING;
        }
        acc = wide as u64;
        i += 1;
    }
    proof {
        assert(body.take(i - start) =~= body);
        assert(parsed_u64(s@) == Some(acc));
    }
    acc
}

/// The fixed per-run settings: how often a snapshot is taken and how
/// many snapshots may persist.
#[derive(Clone, Copy, PartialEq, Eq, Structural, Debug)]
pub struct Config {
    pub interval_minutes: u64,
    pub max_snapshots: u64,
}

/// Decides startup from the validated existence of the source path and
/// the two raw numeric input lines: without a source there is no run
/// (and the caller creates nothing), otherwise both settings take
/// their parsed-or-default values.
pub fn config_from_inputs(source_exists: bool, interval_input: &str, limit_input: &str) -> (r:
    Option<Config>)
    ensures
        r is Some <==> source_exists,
        r matches Some(c) ==> c.interval_minutes == effective_setting(interval_input@)
            && c.max_snapshots == effective_setting(limit_input@),
{
    if source_exists {
        Some(
            Config {
                interval_minutes: parse_or_default(interval_input),
                max_snapshots: parse_or_default(limit_input),
            },
        )
    } else {
        None
    }
}

} // verus!
