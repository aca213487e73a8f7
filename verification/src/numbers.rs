//! Decimal rendering of position values and parsing of item identifiers.

use vstd::prelude::*;

verus! {

/// The character for one decimal digit value.
pub open spec fn digit_char(d: nat) -> char {
    ((48 + d) as u8) as char
}

/// The decimal digit sequence of `n`, most significant first, no sign and
/// no leading zero (except for `n == 0` itself).
pub open spec fn dec_seq(n: nat) -> Seq<char>
    decreases n,
{
    if n < 10 {
        seq![digit_char(n)]
    } else {
        dec_seq(n / 10).push(digit_char(n % 10))
    }
}

/// Whether `c` is a decimal digit.
pub open spec fn is_digit(c: char) -> bool {
    48 <= c as u32 && c as u32 <= 57
}

pub open spec fn all_digits(s: Seq<char>) -> bool {
    forall|i: int| 0 <= i < s.len() ==> is_digit(s[i])
}

/// The numeric value of a digit sequence, most significant first.
pub open spec fn digits_val(s: Seq<char>) -> nat
    decreases s.len(),
{
    if s.len() == 0 {
        0
    } else {
        (digits_val(s.drop_last()) * 10 + (s.last() as u32 - 48)) as nat
    }
}

/// Once a prefix's value is at least 6, appending any further character
/// (digit or not) cannot shrink the value below that prefix's value.
pub proof fn lemma_digits_val_prefix(s: Seq<char>, m: int)
    requires
        0 <= m <= s.len(),
        digits_val(s.take(m)) >= 6,
    ensures
        digits_val(s) >= digits_val(s.take(m)),
    decreases s.len() - m,
{
    if m < s.len() {
        assert(s.take(m + 1).drop_last() =~= s.take(m));
        let v = digits_val(s.take(m));
        let c = s.take(m + 1).last();
        assert(digits_val(s.take(m + 1)) == (v * 10 + (c as u32 - 48)) as nat);
        assert(v * 10 + (c as u32 - 48) >= v);
        lemma_digits_val_prefix(s, m + 1);
    } else {
        assert(s.take(m) =~= s);
    }
}

/// What it means for a string to parse as an unsigned integer: an optional
/// leading `+`, then one or more decimal digits, the whole value fitting in
/// a `u64`.
pub open spec fn parse_digits_spec(s: Seq<char>) -> Option<u64> {
    if s.len() > 0 && all_digits(s) && digits_val(s) <= u64::MAX {
        Some(digits_val(s) as u64)
    } else {
        None
    }
}

pub open spec fn parse_u64_spec(s: Seq<char>) -> Option<u64> {
    if s.len() > 0 && s[0] == '+' {
        parse_digits_spec(s.skip(1))
    } else {
        parse_digits_spec(s)
    }
}

/// The decimal digits of `n`, most significant first.
pub fn dec_chars(n: u64) -> (out: Vec<char>)
    ensures
        out@ == dec_seq(n as nat),
{
    let mut rev: Vec<char> = Vec::new();
    let mut m: u64 = n;
    while m >= 10
        invariant
            dec_seq(n as nat) =~= dec_seq(m as nat) + rev@.reverse(),
        decreases m,
    {
        let d: char = ((48 + (m % 10)) as u8) as char;
        let ghost m_old = m as nat;
        let ghost rev_old = rev@;
        rev.push(d);
        m = m / 10;
        proof {
            assert(d == digit_char(m_old % 10));
            assert(dec_seq(m_old) == dec_seq(m_old / 10).push(digit_char(m_old % 10)));
            assert(rev@.reverse() =~= seq![d] + rev_old.reverse());
            assert(dec_seq(m_old / 10).push(d) + rev_old.reverse() =~= dec_seq(m_old / 10) + (
            seq![d] + rev_old.reverse()));
            assert(dec_seq(n as nat) =~= dec_seq(m as nat) + rev@.reverse());
        }
    }
    let d: char = ((48 + (m % 10)) as u8) as char;
    let ghost rev_old = rev@;
    rev.push(d);
    proof {
        assert(d == digit_char(m as nat));
        assert(rev@.reverse() =~= seq![d] + rev_old.reverse());
        assert(dec_seq(m as nat) =~= seq![d]);
        assert(dec_seq(n as nat) =~= rev@.reverse());
    }
    let len = rev.len();
    let mut out: Vec<char> = Vec::new();
    let mut i: usize = 0;
    while i < len
        invariant
            len == rev@.len(),
            0 <= i <= len,
            out@ =~= rev@.reverse().take(i as int),
        decreases len - i,
    {
        out.push(rev[len - 1 - i]);
        proof {
            assert(rev@.reverse()[i as int] == rev@[len - 1 - i]);
            assert(out@ =~= rev@.reverse().take(i + 1));
        }
        i += 1;
    }
    proof {
        assert(rev@.reverse().take(len as int) =~= rev@.reverse());
    }
    out
}

/// Parses an unsigned decimal integer: an optional leading `+` followed by
/// decimal digits, rejecting values beyond `u64::MAX`.
pub fn parse_u64(s: &str) -> (r: Option<u64>)
    ensures
        r == parse_u64_spec(s@),
{
    let n = s.unicode_len();
    let mut i: usize = 0;
    if n > 0 && s.get_char(0) == '+' {
        i = 1;
    }
    let ghost digits = s@.skip(i as int);
    proof {
        if i == 0 {
            assert(digits =~= s@);
        }
        assert(parse_u64_spec(s@) == parse_digits_spec(digits));
    }
    if i == n {
        return None;
    }
    let mut acc: u128 = 0;
    let mut j: usize = i;
    while j < n
        invariant
            n == s@.len(),
            i <= j <= n,
            i <= 1,
            i < n,
            digits == s@.skip(i as int),
            parse_u64_spec(s@) == parse_digits_spec(digits),
            acc <= u64::MAX,
            acc == digits_val(digits.take(j - i)),
            all_digits(digits.take(j - i)),
        decreases n - j,
    {
        let c = s.get_char(j);
        let cv: u32 = c as u32;
        if cv < 48 || cv > 57 {
            proof {
                assert(digits[j - i] == c);
                assert(!is_digit(digits[j - i]));
            }
            return None;
        }
        let d: u128 = (cv - 48) as u128;
        proof {
            assert(digits.take(j - i + 1).drop_last() =~= digits.take(j - i));
            assert(digits.take(j - i + 1).last() == c);
        }
        acc = acc * 10 + d;
        proof {
            assert(acc == digits_val(digits.take(j - i + 1)));
        }
        if acc > u64::MAX as u128 {
            proof {
                lemma_digits_val_prefix(digits, j - i + 1);
            }
            return None;
        }
        j += 1;
    }
    proof {
        assert(digits.take(n - i) =~= digits);
    }
    Some(acc as u64)
}

} // verus!
