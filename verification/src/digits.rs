//! Decimal digits: reading an unsigned integer from a string of digit
//! characters, and the digit sequence of an integer.

use vstd::prelude::*;

verus! {

/// A decimal digit character.
pub open spec fn is_ascii_digit(c: char) -> bool {
    '0' <= c && c <= '9'
}

/// Every character of `s` is a decimal digit.
pub open spec fn all_digits(s: Seq<char>) -> bool {
    forall|i: int| 0 <= i < s.len() ==> is_ascii_digit(#[trigger] s[i])
}

/// The number denoted by the digit string `s`, most significant digit first.
pub open spec fn digits_int(s: Seq<char>) -> int
    recommends
        all_digits(s),
    decreases s.len(),
{
    if s.len() == 0 {
        0
    } else {
        digits_int(s.drop_last()) * 10 + (s.last() as int - '0' as int)
    }
}

/// `s` is a non-empty digit run whose value fits in a `u64`.
pub open spec fn is_digit_run_u64(s: Seq<char>) -> bool {
    s.len() > 0 && all_digits(s) && digits_int(s) <= u64::MAX
}

/// The digit run of a number token: everything after an optional single
/// leading `+`.
pub open spec fn strip_plus(s: Seq<char>) -> Seq<char> {
    if s.len() > 0 && s[0] == '+' {
        s.drop_first()
    } else {
        s
    }
}

/// `s` is a number token accepted as a `u64`: after an optional single
/// leading `+`, a non-empty digit run remains whose value fits in a `u64`
/// (the syntax `u64` parsing accepts).
pub open spec fn parses_as_u64(s: Seq<char>) -> bool {
    is_digit_run_u64(strip_plus(s))
}

/// The value a number token denotes: its digit run read in decimal.
pub open spec fn token_value(s: Seq<char>) -> int {
    digits_int(strip_plus(s))
}

/// A digit string denotes a non-negative number.
pub proof fn lemma_digits_nonneg(s: Seq<char>)
    requires
        all_digits(s),
    ensures
        digits_int(s) >= 0,
    decreases s.len(),
{
    if s.len() > 0 {
        assert(all_digits(s.drop_last()));
        lemma_digits_nonneg(s.drop_last());
    }
}

/// Reading more digits can only make the number larger.
pub proof fn lemma_digits_take_le(s: Seq<char>, i: int)
    requires
        all_digits(s),
        0 <= i <= s.len(),
    ensures
        digits_int(s.take(i)) <= digits_int(s),
    decreases s.len() - i,
{
    if i == s.len() {
        assert(s.take(i) =~= s);
    } else {
        assert(all_digits(s.take(i + 1)));
        assert(s.take(i + 1).drop_last() =~= s.take(i));
        lemma_digits_nonneg(s.take(i));
        assert(digits_int(s.take(i)) <= digits_int(s.take(i + 1)));
        lemma_digits_take_le(s, i + 1);
    }
}

/// Reads a non-negative integer written in decimal: an optional leading `+`,
/// then a non-empty digit run. Returns the value exactly when the whole
/// string has that shape and the value fits in a `u64`.
pub fn parse_u64(s: &str) -> (r: Option<u64>)
    ensures
        match r {
            Some(v) => parses_as_u64(s@) && v == token_value(s@),
            None => !parses_as_u64(s@),
        },
{
    let n = s.unicode_len();
    if n > 0 && s.get_char(0) == '+' {
        let rest = s.substring_char(1, n);
        assert(rest@ =~= strip_plus(s@));
        parse_digit_run(rest)
    } else {
        assert(s@ =~= strip_plus(s@));
        parse_digit_run(s)
    }
}

/// Reads a bare digit run as a `u64`.
fn parse_digit_run(s: &str) -> (r: Option<u64>)
    ensures
        match r {
            Some(v) => is_digit_run_u64(s@) && v == digits_int(s@),
            None => !is_digit_run_u64(s@),
        },
{
    let n = s.unicode_len();
    if n == 0 {
        return None;
    }
    let mut val: u64 = 0;
    let mut i: usize = 0;
    while i < n
        invariant
            0 < n == s@.len(),
            0 <= i <= n,
            all_digits(s@.take(i as int)),
            val == digits_int(s@.take(i as int)),
        decreases n - i,
    {
        let c = s.get_char(i);
        if c < '0' || c > '9' {
            assert(!is_ascii_digit(s@[i as int]));
            return None;
        }
        let d: u64 = (c as u32 - '0' as u32) as u64;
        if val > (u64::MAX - d) / 10 {
            proof {
                let m = (u64::MAX - d) as int;
                assert(m == 10 * (m / 10) + m % 10 && 0 <= m % 10 < 10) by {
                    vstd::arithmetic::div_mod::lemma_fundamental_div_mod(m, 10);
                    vstd::arithmetic::div_mod::lemma_mod_bound(m, 10);
                }
                assert(10 * val >= 10 * (m / 10 + 1));
                assert(10 * val + d > u64::MAX);
                assert(s@.take(i + 1).drop_last() =~= s@.take(i as int));
                assert(digits_int(s@.take(i + 1)) > u64::MAX);
                if all_digits(s@) {
                    lemma_digits_take_le(s@, i + 1);
                }
            }
            return None;
        }
        proof {
            let m = (u64::MAX - d) as int;
            assert(m == 10 * (m / 10) + m % 10 && 0 <= m % 10 < 10) by {
                vstd::arithmetic::div_mod::lemma_fundamental_div_mod(m, 10);
                vstd::arithmetic::div_mod::lemma_mod_bound(m, 10);
            }
            assert(10 * val <= m);
            assert(s@.take(i + 1).drop_last() =~= s@.take(i as int));
        }
        val = val * 10 + d;
        i = i + 1;
    }
    proof {
        assert(s@.take(n as int) =~= s@);
    }
    Some(val)
}

/// The decimal digits of `n`, most significant first; `0` has the single
/// digit `0`.
pub open spec fn digits_of(n: nat) -> Seq<u8>
    decreases n,
{
    if n < 10 {
        seq![n as u8]
    } else {
        digits_of(n / 10).push((n % 10) as u8)
    }
}

} // verus!
