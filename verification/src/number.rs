//! Decimal numbers in text.

use vstd::prelude::*;

verus! {

pub open spec fn is_digit(c: char) -> bool {
    '0' <= c <= '9'
}

/// The value of a decimal digit.
pub open spec fn digit_value(c: char) -> int {
    c as int - '0' as int
}

/// The digit with the given value.
pub open spec fn digit_char(d: int) -> char {
    ('0' as int + d) as char
}

/// Every character of `s` is a decimal digit.
pub open spec fn all_digits(s: Seq<char>) -> bool {
    forall|i: int| 0 <= i < s.len() ==> is_digit(#[trigger] s[i])
}

/// The number that the digits of `s` write in base ten.
pub open spec fn digits_value(s: Seq<char>) -> int
    decreases s.len(),
{
    if s.len() == 0 {
        0
    } else {
        digits_value(s.drop_last()) * 10 + digit_value(s.last())
    }
}

/// The number at most `max` that `s` writes: digits, after an optional plus sign.
pub open spec fn unsigned_value(s: Seq<char>, max: int) -> Option<int> {
    let digits = if s.len() > 1 && s[0] == '+' {
        s.drop_first()
    } else {
        s
    };
    if digits.len() > 0 && all_digits(digits) && digits_value(digits) <= max {
        Some(digits_value(digits))
    } else {
        None
    }
}

/// The 64-bit number that `s` writes: digits, after an optional sign.
pub open spec fn signed_value(s: Seq<char>) -> Option<int> {
    if s.len() > 1 && s[0] == '-' {
        let digits = s.drop_first();
        if all_digits(digits) && -digits_value(digits) >= i64::MIN {
            Some(-digits_value(digits))
        } else {
            None
        }
    } else {
        unsigned_value(s, i64::MAX as int)
    }
}

/// `n` in base ten, without leading zeros.
pub open spec fn decimal(n: nat) -> Seq<char>
    decreases n,
{
    if n < 10 {
        seq![digit_char(n as int)]
    } else {
        decimal(n / 10).push(digit_char((n % 10) as int))
    }
}

pub proof fn lemma_digits_value_grows(s: Seq<char>, k: int)
    requires
        all_digits(s),
        0 <= k <= s.len(),
    ensures
        0 <= digits_value(s.take(k)) <= digits_value(s),
    decreases s.len(),
{
    if k == s.len() {
        assert(s.take(k) =~= s);
        if k > 0 {
            assert(is_digit(s[k - 1]));
            lemma_digits_value_grows(s.drop_last(), k - 1);
            assert(s.drop_last().take(k - 1) =~= s.drop_last());
        }
    } else {
        assert(is_digit(s[s.len() - 1]));
        lemma_digits_value_grows(s.drop_last(), k);
        assert(s.drop_last().take(k) =~= s.take(k));
    }
}

/// Writing a number in base ten and reading it back gives the number.
pub proof fn lemma_decimal_reads_back(n: nat)
    ensures
        decimal(n).len() > 0,
        all_digits(decimal(n)),
        digits_value(decimal(n)) == n,
    decreases n,
{
    let last = digit_char((n % 10) as int);
    if n < 10 {
        assert(decimal(n).drop_last() =~= Seq::<char>::empty());
        assert(digits_value(Seq::<char>::empty()) == 0);
    } else {
        lemma_decimal_reads_back(n / 10);
        assert(decimal(n).drop_last() =~= decimal(n / 10));
        assert(decimal(n).last() == last);
        assert(is_digit(last));
    }
}

/// A number up to `max`, written in base ten, is read as itself.
pub proof fn law_unsigned_reads_decimal(n: nat, max: int)
    requires
        n <= max,
    ensures
        unsigned_value(decimal(n), max) == Some(n as int),
{
    lemma_decimal_reads_back(n);
    assert(is_digit(decimal(n)[0]));
}

/// The value of the digits of `s`, where it is at most `max`.
fn parse_digits(s: &[char], max: u64) -> (r: Option<u64>)
    ensures
        match r {
            Some(n) => s@.len() > 0 && all_digits(s@) && digits_value(s@) == n && n <= max,
            None => s@.len() == 0 || !all_digits(s@) || digits_value(s@) > max,
        },
{
    if s.len() == 0 {
        return None;
    }
    let mut n: u64 = 0;
    for i in 0..s.len()
        invariant
            forall|j: int| 0 <= j < i ==> is_digit(#[trigger] s@[j]),
            n == digits_value(s@.take(i as int)),
            n <= max,
    {
        let c = s[i];
        if !('0' <= c && c <= '9') {
            assert(!is_digit(s@[i as int]));
            return None;
        }
        let d: u64 = (c as u32 - '0' as u32) as u64;
        proof {
            assert(s@.take(i + 1).drop_last() =~= s@.take(i as int));
            assert(s@.take(i + 1).last() == c);
            if all_digits(s@) {
                lemma_digits_value_grows(s@, i + 1);
            }
        }
        if d > max || n > (max - d) / 10 {
            return None;
        }
        n = n * 10 + d;
    }
    assert(s@.take(s@.len() as int) =~= s@);
    Some(n)
}

/// Read a number at most `max`, as `str::parse` does for an unsigned type whose
/// greatest value is `max`.
pub fn parse_unsigned(s: &[char], max: u64) -> (r: Option<u64>)
    ensures
        match r {
            Some(n) => unsigned_value(s@, max as int) == Some(n as int) && n <= max,
            None => unsigned_value(s@, max as int) is None,
        },
{
    if s.len() > 1 && s[0] == '+' {
        let digits = vstd::slice::slice_subrange(s, 1, s.len());
        assert(digits@ =~= s@.drop_first());
        parse_digits(digits, max)
    } else {
        parse_digits(s, max)
    }
}

/// Read a number as `str::parse::<u32>` does.
pub fn parse_u32(s: &[char]) -> (r: Option<u32>)
    ensures
        match r {
            Some(n) => unsigned_value(s@, u32::MAX as int) == Some(n as int),
            None => unsigned_value(s@, u32::MAX as int) is None,
        },
{
    match parse_unsigned(s, u32::MAX as u64) {
        Some(n) => Some(n as u32),
        None => None,
    }
}

/// Read a number as `str::parse::<usize>` does.
pub fn parse_usize(s: &[char]) -> (r: Option<usize>)
    ensures
        match r {
            Some(n) => unsigned_value(s@, usize::MAX as int) == Some(n as int),
            None => unsigned_value(s@, usize::MAX as int) is None,
        },
{
    match parse_unsigned(s, usize::MAX as u64) {
        Some(n) => Some(n as usize),
        None => None,
    }
}

/// Read a number as `str::parse::<i64>` does.
pub fn parse_i64(s: &[char]) -> (r: Option<i64>)
    ensures
        match r {
            Some(n) => signed_value(s@) == Some(n as int),
            None => signed_value(s@) is None,
        },
{
    if s.len() > 1 && s[0] == '-' {
        let digits = vstd::slice::slice_subrange(s, 1, s.len());
        assert(digits@ =~= s@.drop_first());
        match parse_digits(digits, 0x8000_0000_0000_0000) {
            Some(n) => {
                if n == 0x8000_0000_0000_0000 {
                    Some(i64::MIN)
                } else {
                    Some(-(n as i64))
                }
            },
            None => None,
        }
    } else {
        match parse_unsigned(s, 0x7fff_ffff_ffff_ffff) {
            Some(n) => Some(n as i64),
            None => None,
        }
    }
}

/// Append `n` in base ten.
pub fn push_decimal(out: &mut String, n: u32)
    ensures
        final(out)@ == old(out)@ + decimal(n as nat),
    decreases n,
{
    if n >= 10 {
        push_decimal(out, n / 10);
    }
    let d = (('0' as u8) + (n % 10) as u8) as char;
    out.push(d);
    assert(out@ =~= old(out)@ + decimal(n as nat));
}

/// A digit behind digits counts them ten times over.
proof fn lemma_digits_concat(a: Seq<char>, b: Seq<char>)
    requires
        digits_value(a) == 0,
    ensures
        digits_value(a + b) == digits_value(b),
    decreases b.len(),
{
    if b.len() == 0 {
        assert(a + b =~= a);
    } else {
        lemma_digits_concat(a, b.drop_last());
        assert((a + b).drop_last() =~= a + b.drop_last());
        assert((a + b).last() == b.last());
    }
}

/// Zeros write nothing.
proof fn lemma_zeros(zeros: Seq<char>)
    requires
        forall|i: int| 0 <= i < zeros.len() ==> #[trigger] zeros[i] == '0',
    ensures
        digits_value(zeros) == 0,
    decreases zeros.len(),
{
    if zeros.len() > 0 {
        assert(zeros[zeros.len() - 1] == '0');
        lemma_zeros(zeros.drop_last());
    }
}

/// A number is read with zeros and a sign before it, and is not where it is too large.
pub proof fn law_numbers_are_read(zeros: Seq<char>, n: nat, max: int)
    requires
        forall|i: int| 0 <= i < zeros.len() ==> #[trigger] zeros[i] == '0',
    ensures
        unsigned_value(zeros + decimal(n), max) == if n <= max {
            Some(n as int)
        } else {
            None
        },
        unsigned_value(seq!['+'] + (zeros + decimal(n)), max) == if n <= max {
            Some(n as int)
        } else {
            None
        },
        signed_value(zeros + decimal(n)) == if n <= i64::MAX {
            Some(n as int)
        } else {
            None
        },
        signed_value(seq!['-'] + (zeros + decimal(n))) == if n <= 0x8000_0000_0000_0000 {
            Some(-(n as int))
        } else {
            None
        },
{
    let s = zeros + decimal(n);
    lemma_zeros(zeros);
    lemma_decimal_reads_back(n);
    lemma_digits_concat(zeros, decimal(n));
    assert forall|i: int| 0 <= i < s.len() implies is_digit(#[trigger] s[i]) by {
        if i < zeros.len() {
            assert(s[i] == zeros[i]);
        } else {
            assert(s[i] == decimal(n)[i - zeros.len()]);
        }
    }
    assert(all_digits(s));
    assert(is_digit(s[0]));
    assert((seq!['+'] + s).drop_first() =~= s);
    assert((seq!['-'] + s).drop_first() =~= s);
}

/// Text that holds anything but digits, a sign at its front apart, is no number, nor is a
/// sign alone.
pub proof fn law_other_text_is_no_number(s: Seq<char>, i: int, max: int)
    requires
        s.len() == 0 || (s.len() == 1 && !is_digit(s[0])) || (0 < i < s.len() && !is_digit(s[i]))
            || (s[0] != '+' && s[0] != '-' && !is_digit(s[0])),
    ensures
        unsigned_value(s, max) is None,
        signed_value(s) is None,
{
    if s.len() > 0 {
        let rest = s.drop_first();
        if 0 < i < s.len() {
            assert(rest[i - 1] == s[i]);
        }
    }
}

} // verus!
