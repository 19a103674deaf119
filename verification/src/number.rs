//! Decimal numbers: formatting unsigned integers, and parsing them by the
//! rules of the standard library's `FromStr` for unsigned integers.
use vstd::prelude::*;

verus! {

pub open spec fn is_digit(c: char) -> bool {
    '0' <= c <= '9'
}

pub open spec fn digit_value(c: char) -> nat {
    (c as u32 - 48) as nat
}

pub open spec fn digit_char(d: nat) -> char {
    (d + 48) as char
}

/// The decimal digits of `n`, most significant first, with no leading zero.
pub open spec fn decimal(n: nat) -> Seq<char>
    decreases n,
{
    if n < 10 {
        seq![digit_char(n)]
    } else {
        decimal(n / 10).push(digit_char(n % 10))
    }
}

/// The value of a string of decimal digits.
pub open spec fn digits_value(s: Seq<char>) -> nat
    decreases s.len(),
{
    if s.len() == 0 {
        0
    } else {
        digits_value(s.drop_last()) * 10 + digit_value(s.last())
    }
}

pub open spec fn all_digits(s: Seq<char>) -> bool {
    forall|i: int| 0 <= i < s.len() ==> is_digit(#[trigger] s[i])
}

/// `s` without one leading `+`.
pub open spec fn unsigned_body(s: Seq<char>) -> Seq<char> {
    if s.len() > 0 && s[0] == '+' {
        s.drop_first()
    } else {
        s
    }
}

/// What parsing `s` as an unsigned integer no larger than `max` gives: an
/// optional `+`, then at least one decimal digit, with a value at most `max`.
pub open spec fn parse_unsigned(s: Seq<char>, max: nat) -> Option<nat> {
    let d = unsigned_body(s);
    if d.len() > 0 && all_digits(d) && digits_value(d) <= max {
        Some(digits_value(d))
    } else {
        None
    }
}

pub open spec fn parse_u64_spec(s: Seq<char>) -> Option<u64> {
    match parse_unsigned(s, u64::MAX as nat) {
        Some(v) => Some(v as u64),
        None => None,
    }
}

pub open spec fn parse_u16_spec(s: Seq<char>) -> Option<u16> {
    match parse_unsigned(s, u16::MAX as nat) {
        Some(v) => Some(v as u16),
        None => None,
    }
}

proof fn lemma_digits_value_prefix_monotone(s: Seq<char>, j: int, k: int)
    requires
        0 <= j <= k <= s.len(),
        all_digits(s),
    ensures
        digits_value(s.subrange(0, j)) <= digits_value(s.subrange(0, k)),
    decreases k - j,
{
    if j < k {
        lemma_digits_value_prefix_monotone(s, j, k - 1);
        assert(s.subrange(0, k).drop_last() == s.subrange(0, k - 1));
    }
}

/// The decimal digits of `n`.
pub fn format_u64(n: u64) -> (r: Vec<char>)
    ensures
        r@ == decimal(n as nat),
    decreases n,
{
    if n < 10 {
        let mut v: Vec<char> = Vec::new();
        v.push(((n as u8) + 48) as char);
        assert(v@ =~= seq![digit_char(n as nat)]);
        v
    } else {
        let mut v = format_u64(n / 10);
        v.push((((n % 10) as u8) + 48) as char);
        v
    }
}

/// Parses an unsigned 64-bit integer as `str::parse::<u64>` does.
pub fn parse_u64(s: &[char]) -> (r: Option<u64>)
    ensures
        r == parse_u64_spec(s@),
{
    let n = s.len();
    let mut i: usize = 0;
    if n > 0 && s[0] == '+' {
        i = 1;
    }
    let start = i;
    let ghost d = unsigned_body(s@);
    assert(d == s@.subrange(start as int, n as int));
    if start == n {
        return None;
    }
    let mut acc: u64 = 0;
    while i < n
        invariant
            start <= i <= n == s.len(),
            d == s@.subrange(start as int, n as int),
            d == unsigned_body(s@),
            d.len() > 0,
            all_digits(d.subrange(0, i - start)),
            acc == digits_value(d.subrange(0, i - start)),
        decreases n - i,
    {
        let c = s[i];
        if !('0' <= c && c <= '9') {
            assert(d[i - start] == c);
            assert(!is_digit(d[i - start]));
            assert(!all_digits(d));
            assert(parse_unsigned(s@, u64::MAX as nat) is None);
            return None;
        }
        let dv = (c as u32 - 48) as u64;
        assert(d.subrange(0, i - start + 1).drop_last() == d.subrange(0, i - start));
        assert(d.subrange(0, i - start + 1).last() == c);
        assert(digits_value(d.subrange(0, i - start + 1)) == acc * 10 + dv);
        match acc.checked_mul(10) {
            None => {
                proof {
                    assert(digits_value(d.subrange(0, i - start + 1)) > u64::MAX);
                    if all_digits(d) {
                        lemma_digits_value_prefix_monotone(d, i - start + 1, d.len() as int);
                        assert(d.subrange(0, d.len() as int) == d);
                    }
                }
                return None;
            },
            Some(m) => match m.checked_add(dv) {
                None => {
                    proof {
                        assert(digits_value(d.subrange(0, i - start + 1)) > u64::MAX);
                        if all_digits(d) {
                            lemma_digits_value_prefix_monotone(d, i - start + 1, d.len() as int);
                            assert(d.subrange(0, d.len() as int) == d);
                        }
                    }
                    return None;
                },
                Some(a) => {
                    acc = a;
                },
            },
        }
        i = i + 1;
    }
    assert(d.subrange(0, n - start) == d);
    Some(acc)
}

/// Parses an unsigned 16-bit integer as `str::parse::<u16>` does.
pub fn parse_u16(s: &[char]) -> (r: Option<u16>)
    ensures
        r == parse_u16_spec(s@),
{
    match parse_u64(s) {
        Some(v) => {
            if v <= 65535 {
                Some(v as u16)
            } else {
                None
            }
        },
        None => {
            assert(parse_unsigned(s@, u16::MAX as nat) is None);
            None
        },
    }
}

/// The decimal digits of any number are all digits and read back as it.
pub proof fn lemma_decimal_digits(n: nat)
    ensures
        decimal(n).len() > 0,
        all_digits(decimal(n)),
        digits_value(decimal(n)) == n,
        decimal(n)[0] != '+',
    decreases n,
{
    assert(digit_value(digit_char(n % 10)) == n % 10);
    if n < 10 {
        assert(decimal(n).drop_last() =~= Seq::<char>::empty());
        assert(n % 10 == n);
        assert(decimal(n).last() == digit_char(n));
        assert(digits_value(Seq::<char>::empty()) == 0);
    } else {
        lemma_decimal_digits(n / 10);
        assert(n == (n / 10) * 10 + n % 10);
        assert(decimal(n).drop_last() == decimal(n / 10));
        assert(decimal(n).last() == digit_char(n % 10));
        assert(digits_value(decimal(n)) == digits_value(decimal(n / 10)) * 10 + n % 10);
        assert forall|i: int| 0 <= i < decimal(n).len() implies is_digit(#[trigger] decimal(n)[i]) by {
            if i < decimal(n).len() - 1 {
                assert(decimal(n)[i] == decimal(n / 10)[i]);
            }
        }
    }
}

/// Formatting a number in decimal and parsing the text gives the number back.
pub proof fn lemma_parse_format_u64(n: u64)
    ensures
        parse_u64_spec(decimal(n as nat)) == Some(n),
{
    lemma_decimal_digits(n as nat);
}

/// Formatting a 16-bit number in decimal and parsing it as one gives it back.
pub proof fn lemma_parse_format_u16(n: u16)
    ensures
        parse_u16_spec(decimal(n as nat)) == Some(n),
{
    lemma_decimal_digits(n as nat);
}

} // verus!
