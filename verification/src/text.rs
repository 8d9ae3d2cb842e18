//! Decimal digits and small text helpers shared by the parsing and
//! formatting code: digit sequences and their numeric value, padded
//! decimal rendering, and scanning for a single character.

use vstd::prelude::*;

verus! {

/// `c` is a decimal digit.
pub open spec fn is_digit(c: char) -> bool {
    '0' <= c && c <= '9'
}

/// Numeric value of a digit character.
pub open spec fn digit_val(c: char) -> int {
    c as int - '0' as int
}

/// Every character of `s` is a decimal digit.
pub open spec fn all_digits(s: Seq<char>) -> bool {
    forall|i: int| 0 <= i < s.len() ==> is_digit(#[trigger] s[i])
}

/// The numeric value of a digit sequence, most significant digit first.
pub open spec fn digits_val(s: Seq<char>) -> int
    decreases s.len(),
{
    if s.len() == 0 {
        0
    } else {
        digits_val(s.drop_last()) * 10 + digit_val(s.last())
    }
}

/// The digit character for a value below ten.
pub open spec fn digit_char(n: int) -> char {
    if n == 0 { '0' }
    else if n == 1 { '1' }
    else if n == 2 { '2' }
    else if n == 3 { '3' }
    else if n == 4 { '4' }
    else if n == 5 { '5' }
    else if n == 6 { '6' }
    else if n == 7 { '7' }
    else if n == 8 { '8' }
    else { '9' }
}

/// The shortest decimal rendering of a non-negative number.
pub open spec fn dec_digits(n: int) -> Seq<char>
    decreases n,
{
    if n < 10 {
        seq![digit_char(n)]
    } else {
        dec_digits(n / 10) + seq![digit_char(n % 10)]
    }
}

/// `k` zero characters.
pub open spec fn zeros(k: int) -> Seq<char>
    decreases k,
{
    if k <= 0 {
        Seq::empty()
    } else {
        zeros(k - 1) + seq!['0']
    }
}

/// The decimal rendering of `n`, left-padded with zeros to `w` characters.
pub open spec fn dec_pad(n: int, w: int) -> Seq<char> {
    zeros(w - dec_digits(n).len()) + dec_digits(n)
}

/// The value of a digit sequence is never negative.
pub proof fn lemma_digits_val_nonneg(s: Seq<char>)
    requires
        all_digits(s),
    ensures
        digits_val(s) >= 0,
    decreases s.len(),
{
    if s.len() > 0 {
        assert(all_digits(s.drop_last())) by {
            assert(forall|i: int| 0 <= i < s.len() - 1 ==> is_digit(#[trigger] s[i]));
        }
        lemma_digits_val_nonneg(s.drop_last());
    }
}

/// Extending a digit sequence on the right cannot decrease its value.
pub proof fn lemma_digits_val_extend(s: Seq<char>)
    requires
        all_digits(s),
        s.len() > 0,
    ensures
        digits_val(s) >= digits_val(s.drop_last()),
{
    assert(all_digits(s.drop_last()));
    lemma_digits_val_nonneg(s.drop_last());
}

/// Every digit sequence that `t` extends on the right has a value no
/// larger than the value of `t`.
pub proof fn lemma_digits_val_prefix(t: Seq<char>, k: int)
    requires
        all_digits(t),
        0 <= k <= t.len(),
    ensures
        digits_val(t.subrange(0, k)) <= digits_val(t),
    decreases t.len() - k,
{
    if k < t.len() {
        lemma_digits_val_prefix(t, k + 1);
        let u = t.subrange(0, k + 1);
        assert(all_digits(u));
        assert(u.drop_last() =~= t.subrange(0, k));
        lemma_digits_val_extend(u);
    } else {
        assert(t.subrange(0, k) =~= t);
    }
}

/// Decimal renderings consist of digits only.
pub proof fn lemma_dec_digits_all(n: int)
    requires
        0 <= n,
    ensures
        all_digits(dec_digits(n)),
        dec_digits(n).len() >= 1,
    decreases n,
{
    if n >= 10 {
        lemma_dec_digits_all(n / 10);
        assert(forall|i: int|
            0 <= i < dec_digits(n).len() ==> is_digit(#[trigger] dec_digits(n)[i]));
    }
}

/// Reading back the decimal rendering of `n` gives `n`.
pub proof fn lemma_dec_digits_val(n: int)
    requires
        0 <= n,
    ensures
        digits_val(dec_digits(n)) == n,
    decreases n,
{
    if n < 10 {
        assert(dec_digits(n) =~= seq![digit_char(n)]);
        assert(dec_digits(n).drop_last() =~= Seq::<char>::empty());
        assert(digits_val(Seq::<char>::empty()) == 0);
        assert(dec_digits(n).last() == digit_char(n));
        assert(digits_val(dec_digits(n)) == digits_val(dec_digits(n).drop_last()) * 10
            + digit_val(dec_digits(n).last()));
        assert(digit_val(digit_char(n)) == n);
    } else {
        lemma_dec_digits_val(n / 10);
        assert(dec_digits(n).drop_last() =~= dec_digits(n / 10));
        assert(dec_digits(n).last() == digit_char(n % 10));
        assert(digit_val(digit_char(n % 10)) == n % 10);
        assert(n == 10 * (n / 10) + n % 10) by {
            vstd::arithmetic::div_mod::lemma_fundamental_div_mod(n, 10);
        }
    }
}

/// Zero padding consists of digits and has the asked-for length.
pub proof fn lemma_zeros_all(k: int)
    ensures
        all_digits(zeros(k)),
        zeros(k).len() == if k <= 0 { 0int } else { k },
    decreases k,
{
    if k > 0 {
        lemma_zeros_all(k - 1);
        assert(forall|i: int| 0 <= i < zeros(k).len() ==> is_digit(#[trigger] zeros(k)[i]));
    }
}

/// Leading zeros do not change the value a digit sequence denotes.
pub proof fn lemma_leading_zeros_val(j: int, t: Seq<char>)
    ensures
        digits_val(zeros(j) + t) == digits_val(t),
    decreases t.len(),
{
    if t.len() == 0 {
        assert(zeros(j) + t =~= zeros(j));
        lemma_zeros_val(j);
    } else {
        lemma_leading_zeros_val(j, t.drop_last());
        assert((zeros(j) + t).drop_last() =~= zeros(j) + t.drop_last());
        assert((zeros(j) + t).last() == t.last());
    }
}

/// A run of zeros denotes the value zero.
pub proof fn lemma_zeros_val(j: int)
    ensures
        digits_val(zeros(j)) == 0,
    decreases j,
{
    if j > 0 {
        lemma_zeros_val(j - 1);
        assert(zeros(j).drop_last() =~= zeros(j - 1));
    }
}

/// The padded rendering still consists of digits and still denotes `n`.
pub proof fn lemma_dec_pad_val(n: int, w: int)
    requires
        0 <= n,
    ensures
        all_digits(dec_pad(n, w)),
        digits_val(dec_pad(n, w)) == n,
        dec_pad(n, w).len() >= dec_digits(n).len(),
        dec_pad(n, w).len() >= w,
{
    lemma_dec_digits_all(n);
    lemma_dec_digits_val(n);
    lemma_zeros_all(w - dec_digits(n).len());
    lemma_leading_zeros_val(w - dec_digits(n).len(), dec_digits(n));
    assert(forall|i: int| 0 <= i < dec_pad(n, w).len() ==> is_digit(#[trigger] dec_pad(n, w)[i]));
}

/// How many characters a small number takes, unpadded.
pub proof fn lemma_dec_digits_len2(n: int)
    requires
        0 <= n < 100,
    ensures
        dec_digits(n).len() == if n < 10 { 1int } else { 2 },
{
    if n < 10 {
        assert(dec_digits(n) =~= seq![digit_char(n)]);
    } else {
        assert(dec_digits(n) == dec_digits(n / 10) + seq![digit_char(n % 10)]);
        assert(dec_digits(n / 10) =~= seq![digit_char(n / 10)]);
    }
}

/// Reads the decimal number written at `s[from .. to]`. Returns the
/// value when every character there is a digit, the range is not empty,
/// and the value fits in a `u64`; returns nothing otherwise.
pub fn parse_uint(s: &str, from: usize, to: usize) -> (r: Option<u64>)
    requires
        from <= to <= s@.len(),
    ensures
        r matches Some(v) <==> from < to && all_digits(s@.subrange(from as int, to as int))
            && digits_val(s@.subrange(from as int, to as int)) <= u64::MAX,
        r matches Some(v) ==> v == digits_val(s@.subrange(from as int, to as int)),
{
    if from == to {
        return None;
    }
    let mut acc: u64 = 0;
    let mut i: usize = from;
    while i < to
        invariant
            from <= i <= to <= s@.len(),
            all_digits(s@.subrange(from as int, i as int)),
            acc == digits_val(s@.subrange(from as int, i as int)),
        decreases to - i,
    {
        let c = s.get_char(i);
        if !(c >= '0' && c <= '9') {
            proof {
                assert(!is_digit(s@.subrange(from as int, to as int)[i - from]));
            }
            return None;
        }
        let d: u64 = (c as u32 - '0' as u32) as u64;
        proof {
            let pre = s@.subrange(from as int, i as int);
            let ext = s@.subrange(from as int, i + 1 as int);
            assert(ext.drop_last() =~= pre);
            assert(ext.last() == s@[i as int]);
        }
        let step = match acc.checked_mul(10) {
            Some(x) => x.checked_add(d),
            None => None,
        };
        match step {
            Some(x) => {
                acc = x;
            },
            None => {
                proof {
                    let ext = s@.subrange(from as int, i + 1 as int);
                    if all_digits(s@.subrange(from as int, to as int)) {
                        lemma_digits_val_prefix(s@.subrange(from as int, to as int), i + 1 - from);
                        assert(s@.subrange(from as int, to as int).subrange(0, i + 1 - from)
                            =~= ext);
                    }
                }
                return None;
            },
        }
        i = i + 1;
    }
    Some(acc)
}

/// A one-character string for a digit value.
pub fn digit_str(d: u64) -> (r: &'static str)
    requires
        d < 10,
    ensures
        r@ =~= seq![digit_char(d as int)],
{
    proof {
        reveal_strlit("0");
        reveal_strlit("1");
        reveal_strlit("2");
        reveal_strlit("3");
        reveal_strlit("4");
        reveal_strlit("5");
        reveal_strlit("6");
        reveal_strlit("7");
        reveal_strlit("8");
        reveal_strlit("9");
    }
    match d {
        0 => "0",
        1 => "1",
        2 => "2",
        3 => "3",
        4 => "4",
        5 => "5",
        6 => "6",
        7 => "7",
        8 => "8",
        _ => "9",
    }
}

/// Writes `n` in decimal, shortest form.
pub fn fmt_u64(n: u64) -> (r: String)
    ensures
        r@ == dec_digits(n as int),
    decreases n,
{
    if n < 10 {
        digit_str(n).to_owned()
    } else {
        let mut s = fmt_u64(n / 10);
        s.append(digit_str(n % 10));
        assert(s@ =~= dec_digits(n as int));
        s
    }
}

/// Writes `n` in decimal, left-padded with zeros to two characters.
pub fn fmt_pad2(n: u64) -> (r: String)
    requires
        n < 100,
    ensures
        r@ == dec_pad(n as int, 2),
{
    let mut s = String::new();
    if n < 10 {
        s.append(digit_str(0));
        proof {
            assert(zeros(0) =~= Seq::<char>::empty());
            assert(zeros(1) =~= seq!['0']);
            assert(dec_digits(n as int).len() == 1);
        }
    } else {
        proof {
            assert(dec_digits(n as int) == dec_digits(n as int / 10) + seq![
                digit_char(n as int % 10),
            ]);
            assert(dec_digits(n as int).len() == 2);
            assert(zeros(0) =~= Seq::<char>::empty());
        }
    }
    let t = fmt_u64(n);
    s.append(t.as_str());
    assert(s@ =~= dec_pad(n as int, 2));
    s
}

/// Writes `n` in decimal, left-padded with zeros to four characters.
pub fn fmt_pad4(n: u64) -> (r: String)
    requires
        n < 10000,
    ensures
        r@ == dec_pad(n as int, 4),
{
    let mut s = String::new();
    proof {
        assert(zeros(0) =~= Seq::<char>::empty());
        assert(zeros(1) =~= seq!['0']);
        assert(zeros(2) =~= seq!['0', '0']);
        assert(zeros(3) =~= seq!['0', '0', '0']);
        reveal_strlit("000");
        reveal_strlit("00");
        reveal_strlit("0");
    }
    if n < 10 {
        s.append("000");
        proof {
            assert(dec_digits(n as int).len() == 1);
        }
    } else if n < 100 {
        s.append("00");
        proof {
            assert(dec_digits(n as int) == dec_digits(n as int / 10) + seq![
                digit_char(n as int % 10),
            ]);
            assert(dec_digits(n as int).len() == 2);
        }
    } else if n < 1000 {
        s.append("0");
        proof {
            let m = n as int;
            assert(dec_digits(m) == dec_digits(m / 10) + seq![digit_char(m % 10)]);
            assert(dec_digits(m / 10) == dec_digits(m / 10 / 10) + seq![
                digit_char(m / 10 % 10),
            ]);
            assert(dec_digits(m).len() == 3);
        }
    } else {
        proof {
            let m = n as int;
            assert(dec_digits(m) == dec_digits(m / 10) + seq![digit_char(m % 10)]);
            assert(dec_digits(m / 10) == dec_digits(m / 10 / 10) + seq![
                digit_char(m / 10 % 10),
            ]);
            assert(dec_digits(m / 10 / 10) == dec_digits(m / 10 / 10 / 10) + seq![
                digit_char(m / 10 / 10 % 10),
            ]);
            assert(m / 10 / 10 / 10 < 10);
            assert(dec_digits(m).len() == 4);
        }
    }
    let t = fmt_u64(n);
    s.append(t.as_str());
    assert(s@ =~= dec_pad(n as int, 4));
    s
}

/// Index of the first occurrence of `c` in `s` at or after `i`, or the
/// length of `s` when there is none.
pub open spec fn find_char(s: Seq<char>, i: int, c: char) -> int
    decreases s.len() - i,
{
    if i < 0 || i >= s.len() {
        s.len() as int
    } else if s[i] == c {
        i
    } else {
        find_char(s, i + 1, c)
    }
}

/// The first occurrence is within bounds, carries `c`, and nothing
/// before it does.
pub proof fn lemma_find_char(s: Seq<char>, i: int, c: char)
    requires
        0 <= i <= s.len(),
    ensures
        i <= find_char(s, i, c) <= s.len(),
        find_char(s, i, c) < s.len() ==> s[find_char(s, i, c)] == c,
        forall|j: int| i <= j < find_char(s, i, c) ==> s[j] != c,
    decreases s.len() - i,
{
    if i < s.len() && s[i] != c {
        lemma_find_char(s, i + 1, c);
    }
}

/// A position carrying `c`, before which no position from `k` on
/// carries it, is the first occurrence from `k`.
pub proof fn lemma_find_char_pins(s: Seq<char>, k: int, i: int, c: char)
    requires
        0 <= k <= i < s.len(),
        s[i] == c,
        forall|j: int| k <= j < i ==> s[j] != c,
    ensures
        find_char(s, k, c) == i,
    decreases i - k,
{
    if k < i {
        lemma_find_char_pins(s, k + 1, i, c);
    }
}

/// Powers of ten.
pub open spec fn pow10(k: int) -> int
    decreases k,
{
    if k <= 0 {
        1
    } else {
        10 * pow10(k - 1)
    }
}

/// A digit sequence of length `k` denotes less than the `k`-th power
/// of ten.
pub proof fn lemma_digits_val_bound(t: Seq<char>)
    requires
        all_digits(t),
    ensures
        digits_val(t) < pow10(t.len() as int),
    decreases t.len(),
{
    if t.len() > 0 {
        assert(all_digits(t.drop_last()));
        lemma_digits_val_bound(t.drop_last());
    }
}

/// A number below the `k`-th power of ten takes at most `k` digits.
pub proof fn lemma_dec_digits_len_le(n: int, k: int)
    requires
        0 <= n < pow10(k),
        1 <= k,
    ensures
        dec_digits(n).len() <= k,
    decreases n,
{
    if n < 10 {
        assert(dec_digits(n) =~= seq![digit_char(n)]);
    } else {
        assert(pow10(k) == 10 * pow10(k - 1));
        assert(n / 10 < pow10(k - 1));
        assert(k >= 2) by {
            if k == 1 {
                assert(pow10(1) == 10 * pow10(0));
                assert(pow10(0) == 1);
            }
        }
        lemma_dec_digits_len_le(n / 10, k - 1);
    }
}

/// Padding to a width at least as wide as the rendering gives exactly
/// that width.
pub proof fn lemma_dec_pad_len(n: int, w: int)
    requires
        0 <= n,
        dec_digits(n).len() <= w,
    ensures
        dec_pad(n, w).len() == w,
{
    lemma_zeros_all(w - dec_digits(n).len());
}

/// The first position at or after `i` that does not carry a space, or
/// the length of `s` when all of the rest are spaces.
pub open spec fn skip_spaces(s: Seq<char>, i: int) -> int
    decreases s.len() - i,
{
    if 0 <= i < s.len() && s[i] == ' ' {
        skip_spaces(s, i + 1)
    } else {
        i
    }
}

/// Space skipping stays within bounds and lands past the spaces.
pub proof fn lemma_skip_spaces(s: Seq<char>, i: int)
    requires
        0 <= i <= s.len(),
    ensures
        i <= skip_spaces(s, i) <= s.len(),
        skip_spaces(s, i) < s.len() ==> s[skip_spaces(s, i)] != ' ',
        forall|j: int| i <= j < skip_spaces(s, i) ==> s[j] == ' ',
    decreases s.len() - i,
{
    if i < s.len() && s[i] == ' ' {
        lemma_skip_spaces(s, i + 1);
    }
}

/// A position not carrying a space, up to which everything from `k` on
/// does, is where space skipping from `k` lands.
pub proof fn lemma_skip_spaces_pins(s: Seq<char>, k: int, i: int)
    requires
        0 <= k <= i <= s.len(),
        i < s.len() ==> s[i] != ' ',
        forall|j: int| k <= j < i ==> s[j] == ' ',
    ensures
        skip_spaces(s, k) == i,
    decreases i - k,
{
    if k < i {
        lemma_skip_spaces_pins(s, k + 1, i);
    }
}

/// Scans `s` from `from` for the first position without a space.
pub fn scan_nonspace(s: &str, from: usize) -> (r: usize)
    requires
        from <= s@.len(),
    ensures
        r == skip_spaces(s@, from as int),
        from <= r <= s@.len(),
{
    proof {
        lemma_skip_spaces(s@, from as int);
    }
    let n = s.unicode_len();
    let mut i: usize = from;
    while i < n
        invariant
            from <= i <= n == s@.len(),
            skip_spaces(s@, from as int) == skip_spaces(s@, i as int),
        decreases n - i,
    {
        if s.get_char(i) != ' ' {
            return i;
        }
        i = i + 1;
    }
    i
}

/// Scans `s` from `from` for the first occurrence of `c`.
pub fn scan_char(s: &str, from: usize, c: char) -> (r: usize)
    requires
        from <= s@.len(),
    ensures
        r == find_char(s@, from as int, c),
{
    let n = s.unicode_len();
    let mut i: usize = from;
    while i < n
        invariant
            from <= i <= n == s@.len(),
            find_char(s@, from as int, c) == find_char(s@, i as int, c),
        decreases n - i,
    {
        if s.get_char(i) == c {
            return i;
        }
        i = i + 1;
    }
    i
}

} // verus!
