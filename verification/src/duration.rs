//! A scalar time quantity, counted in whole minutes.

use vstd::prelude::*;

use crate::text::{
    all_digits, dec_digits, dec_pad, digits_val, find_char, fmt_pad2, fmt_u64,
    lemma_dec_digits_all, lemma_dec_digits_len2, lemma_dec_digits_val, lemma_dec_pad_val,
    lemma_digits_val_nonneg, lemma_find_char, parse_uint, scan_char,
};

verus! {

/// A non-negative count of minutes. The canonical text form is
/// `<hours>h<minutes two-digit-padded>`, e.g. `3h05` for 185 minutes.
#[derive(Debug, Clone, Copy, PartialEq, Eq, Structural)]
pub struct Duration {
    minutes: i64,
}

impl View for Duration {
    type V = int;

    closed spec fn view(&self) -> int {
        self.minutes as int
    }
}

impl Duration {
    /// A duration is well formed when it counts a non-negative
    /// number of minutes.
    pub open spec fn valid(&self) -> bool {
        0 <= self@
    }

    /// The duration of `minutes` minutes. Callers own the validity of
    /// the count: it must not be negative.
    pub fn minutes(minutes: i64) -> (r: Self)
        requires
            0 <= minutes,
        ensures
            r@ == minutes,
            r.valid(),
    {
        Duration { minutes }
    }

    /// The additive identity: zero minutes.
    pub fn zero() -> (r: Self)
        ensures
            r@ == 0,
            r.valid(),
    {
        Duration { minutes: 0 }
    }

    /// The minute count this duration stands for.
    pub fn as_minutes(&self) -> (r: i64)
        ensures
            r == self@,
    {
        self.minutes
    }

    /// The sum of two durations, in minutes.
    pub fn add(self, rhs: Self) -> (r: Self)
        requires
            self.valid(),
            rhs.valid(),
            self@ + rhs@ <= i64::MAX,
        ensures
            r@ == self@ + rhs@,
            r.valid(),
    {
        Duration { minutes: self.minutes + rhs.minutes }
    }
}

/// Failure to read a duration from text.
#[derive(Debug, Clone, Copy, PartialEq, Eq, Structural)]
pub enum ParseDurationError {
    /// The text does not match `<digits>h<digits>`, or the minute
    /// count does not fit the machine representation.
    MalformedDuration,
}

/// The canonical text of a minute count `n`: `<hours>h<minutes>`, the
/// minutes two-digit padded, e.g. `1h05` for 65.
pub open spec fn spec_format_duration(n: int) -> Seq<char> {
    dec_digits(n / 60) + seq!['h'] + dec_pad(n % 60, 2)
}

/// Duration text shape: one or more digits, a literal `h`, one or more
/// digits. The minute digits are deliberately not range-checked
/// against 0 to 59, mirroring the leniency of the line format.
pub open spec fn duration_shape(s: Seq<char>) -> bool {
    let i = find_char(s, 0, 'h');
    &&& 1 <= i
    &&& i + 1 < s.len()
    &&& all_digits(s.subrange(0, i))
    &&& all_digits(s.subrange(i + 1, s.len() as int))
}

/// The minute count that duration text denotes: hours times sixty plus
/// minutes. Meaningful only when the text has the duration shape.
pub open spec fn spec_parse_duration(s: Seq<char>) -> int {
    let i = find_char(s, 0, 'h');
    digits_val(s.subrange(0, i)) * 60 + digits_val(s.subrange(i + 1, s.len() as int))
}

impl Duration {
    /// Writes the duration in its canonical text form.
    pub fn format(&self) -> (r: String)
        requires
            self.valid(),
        ensures
            r@ == spec_format_duration(self@),
    {
        proof {
            reveal_strlit("h");
        }
        let total = self.minutes as u64;
        let mut s = fmt_u64(total / 60);
        s.append("h");
        let m = fmt_pad2(total % 60);
        s.append(m.as_str());
        assert(s@ =~= spec_format_duration(self@));
        s
    }

    /// Reads a duration from text. Succeeds exactly on text of the
    /// duration shape whose minute count fits the representation, and
    /// then returns that count.
    pub fn parse(s: &str) -> (r: Result<Duration, ParseDurationError>)
        ensures
            r matches Ok(d) ==> d@ == spec_parse_duration(s@) && d.valid(),
            r is Ok <==> duration_shape(s@) && spec_parse_duration(s@) <= i64::MAX,
            r is Err ==> r == Err::<Duration, ParseDurationError>(
                ParseDurationError::MalformedDuration,
            ),
    {
        let n = s.unicode_len();
        let i = scan_char(s, 0, 'h');
        proof {
            lemma_find_char(s@, 0, 'h');
        }
        if i == 0 || n - i <= 1 {
            return Err(ParseDurationError::MalformedDuration);
        }
        let hours = match parse_uint(s, 0, i) {
            Some(h) => h,
            None => {
                proof {
                    if duration_shape(s@) {
                        let pre = s@.subrange(0, i as int);
                        let post = s@.subrange(i + 1 as int, s@.len() as int);
                        lemma_digits_val_nonneg(pre);
                        lemma_digits_val_nonneg(post);
                    }
                }
                return Err(ParseDurationError::MalformedDuration);
            },
        };
        let mins = match parse_uint(s, i + 1, n) {
            Some(m) => m,
            None => {
                proof {
                    if duration_shape(s@) {
                        let pre = s@.subrange(0, i as int);
                        lemma_digits_val_nonneg(pre);
                    }
                }
                return Err(ParseDurationError::MalformedDuration);
            },
        };
        proof {
            lemma_digits_val_nonneg(s@.subrange(0, i as int));
            lemma_digits_val_nonneg(s@.subrange(i + 1 as int, s@.len() as int));
        }
        let total = match hours.checked_mul(60) {
            Some(x) => x.checked_add(mins),
            None => None,
        };
        match total {
            Some(t) if t <= i64::MAX as u64 => Ok(Duration { minutes: t as i64 }),
            _ => Err(ParseDurationError::MalformedDuration),
        }
    }
}

/// Reads a duration from text, as the command line hands it over.
pub fn parse_duration(arg: &str) -> (r: Result<Duration, ParseDurationError>)
    ensures
        r matches Ok(d) ==> d@ == spec_parse_duration(arg@) && d.valid(),
        r is Ok <==> duration_shape(arg@) && spec_parse_duration(arg@) <= i64::MAX,
{
    Duration::parse(arg)
}

/// Round trip: the canonical text of any non-negative minute count
/// reads back as that same count.
pub proof fn lemma_duration_round_trip(n: int)
    requires
        0 <= n,
    ensures
        duration_shape(spec_format_duration(n)),
        spec_parse_duration(spec_format_duration(n)) == n,
{
    let h = n / 60;
    let m = n % 60;
    let pre = dec_digits(h);
    let pad = dec_pad(m, 2);
    let s = spec_format_duration(n);
    lemma_dec_digits_all(h);
    lemma_dec_digits_val(h);
    lemma_dec_pad_val(m, 2);
    lemma_dec_digits_len2(m);
    assert(s.len() == pre.len() + 1 + pad.len());
    assert(forall|j: int| 0 <= j < pre.len() ==> s[j] == pre[j]);
    assert(s[pre.len() as int] == 'h');
    crate::text::lemma_find_char_pins(s, 0, pre.len() as int, 'h');
    assert(s.subrange(0, pre.len() as int) =~= pre);
    assert(s.subrange(pre.len() as int + 1, s.len() as int) =~= pad);
    assert(n == 60 * (n / 60) + n % 60) by {
        vstd::arithmetic::div_mod::lemma_fundamental_div_mod(n, 60);
    }
}

impl Default for Duration {
    /// The default duration is zero minutes.
    fn default() -> (r: Self)
        ensures
            r@ == 0,
            r.valid(),
    {
        Duration { minutes: 0 }
    }
}

} // verus!
