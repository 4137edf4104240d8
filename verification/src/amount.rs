//! Parsing of monetary amounts.
//!
//! An amount is written as a non-negative decimal — digits, optionally a
//! single `.` and further digits, with at least one digit overall. It is
//! stored as an integer in minor currency units: the written value times
//! one hundred, rounded to the nearest minor unit with ties rounded up
//! (only the third fractional digit onward can be rounded away).

use vstd::prelude::*;
use crate::errors::LedgerError;

verus! {

/// The largest amount the engine accepts, in minor units.
pub const MAX_MINOR_UNITS: i64 = 1000000000000000;

/// Whether `c` is a decimal digit.
pub open spec fn is_digit(c: char) -> bool {
    48 <= c as int <= 57
}

/// The value of a decimal digit.
pub open spec fn digit_val(c: char) -> int {
    c as int - 48
}

/// Whether every character of `s` is a decimal digit.
pub open spec fn all_digits(s: Seq<char>) -> bool {
    forall|k: int| 0 <= k < s.len() ==> is_digit(s[k])
}

/// The number denoted by a sequence of decimal digits (zero if empty).
pub open spec fn digits_val(s: Seq<char>) -> int
    decreases s.len(),
{
    if s.len() == 0 {
        0
    } else {
        digits_val(s.drop_last()) * 10 + digit_val(s.last())
    }
}

/// Ten to the `n`.
pub open spec fn pow10(n: nat) -> int
    decreases n,
{
    if n == 0 {
        1
    } else {
        10 * pow10((n - 1) as nat)
    }
}

/// The index of the first `.` in `s`, or `s.len()` if there is none.
pub open spec fn first_dot(s: Seq<char>) -> int
    decreases s.len(),
{
    if s.len() == 0 {
        0
    } else if s[0] == '.' {
        0
    } else {
        1 + first_dot(s.drop_first())
    }
}

/// The minor units contributed by the fractional digits `f`: the first two
/// digits count as tens and ones of a minor unit, and the third digit, if
/// present, rounds to nearest with ties up.
pub open spec fn frac_minor(f: Seq<char>) -> int {
    (if f.len() >= 1 {
        digit_val(f[0]) * 10
    } else {
        0int
    }) + (if f.len() >= 2 {
        digit_val(f[1])
    } else {
        0int
    }) + (if f.len() >= 3 && digit_val(f[2]) >= 5 {
        1int
    } else {
        0int
    })
}

/// The minor-unit value written in `s`, or `None` if `s` is not a
/// non-negative decimal number.
pub open spec fn amount_of(s: Seq<char>) -> Option<int> {
    let d = first_dot(s);
    if d == s.len() {
        if all_digits(s) && s.len() >= 1 {
            Some(digits_val(s) * 100)
        } else {
            None
        }
    } else {
        let ip = s.subrange(0, d);
        let fp = s.subrange(d + 1, s.len() as int);
        if all_digits(ip) && all_digits(fp) && ip.len() + fp.len() >= 1 {
            Some(digits_val(ip) * 100 + frac_minor(fp))
        } else {
            None
        }
    }
}

pub proof fn lemma_first_dot(s: Seq<char>)
    ensures
        0 <= first_dot(s) <= s.len(),
        first_dot(s) < s.len() ==> s[first_dot(s)] == '.',
        forall|k: int| 0 <= k < first_dot(s) ==> s[k] != '.',
    decreases s.len(),
{
    if s.len() > 0 && s[0] != '.' {
        lemma_first_dot(s.drop_first());
        assert forall|k: int| 0 <= k < first_dot(s) implies s[k] != '.' by {
            if k > 0 {
                assert(s.drop_first()[k - 1] == s[k]);
            }
        }
    }
}

pub proof fn lemma_digits_val_bounds(s: Seq<char>)
    requires
        all_digits(s),
    ensures
        0 <= digits_val(s) < pow10(s.len()),
    decreases s.len(),
{
    if s.len() > 0 {
        lemma_digits_val_bounds(s.drop_last());
    }
}

/// A digit string with a non-zero leading digit is at least ten to the
/// length less one.
pub proof fn lemma_digits_val_lower(s: Seq<char>)
    requires
        all_digits(s),
        s.len() >= 1,
        s[0] != '0',
    ensures
        digits_val(s) >= pow10((s.len() - 1) as nat),
    decreases s.len(),
{
    if s.len() == 1 {
        assert(s[0] as int != 48);
        assert(digit_val(s[0]) >= 1);
    } else {
        assert(s.drop_last()[0] == s[0]);
        lemma_digits_val_lower(s.drop_last());
        lemma_digits_val_bounds(s.drop_last());
        assert(digits_val(s) >= digits_val(s.drop_last()) * 10);
        lemma_pow10_pos((s.len() - 2) as nat);
    }
}

/// Leading zeros do not change the value of a digit string.
pub proof fn lemma_digits_val_strip_zeros(s: Seq<char>, z: int)
    requires
        all_digits(s),
        0 <= z <= s.len(),
        forall|k: int| 0 <= k < z ==> s[k] == '0',
    ensures
        digits_val(s) == digits_val(s.subrange(z, s.len() as int)),
    decreases s.len(),
{
    if s.len() == 0 {
    } else if z == s.len() {
        lemma_digits_val_strip_zeros(s.drop_last(), z - 1);
        assert(s.drop_last().subrange(z - 1, z - 1) =~= Seq::<char>::empty());
        assert(digit_val(s.last()) == 0);
        assert(s.subrange(z, s.len() as int) =~= Seq::<char>::empty());
    } else {
        lemma_digits_val_strip_zeros(s.drop_last(), z);
        let sub = s.subrange(z, s.len() as int);
        assert(s.drop_last().subrange(z, s.len() - 1) =~= sub.drop_last());
        assert(sub.last() == s.last());
    }
}

pub proof fn lemma_pow10_mono(a: nat, b: nat)
    requires
        a <= b,
    ensures
        pow10(a) <= pow10(b),
    decreases b,
{
    if a < b {
        lemma_pow10_mono(a, (b - 1) as nat);
        assert(pow10((b - 1) as nat) >= 1) by {
            lemma_pow10_pos((b - 1) as nat);
        }
    }
}

pub proof fn lemma_pow10_pos(n: nat)
    ensures
        pow10(n) >= 1,
    decreases n,
{
    if n > 0 {
        lemma_pow10_pos((n - 1) as nat);
    }
}

/// Runtime twin of [`is_digit`].
fn digit_char(c: char) -> (r: bool)
    ensures
        r == is_digit(c),
{
    let u = c as u32;
    48 <= u && u <= 57
}

/// The value of a digit character.
fn digit_of(c: char) -> (d: u32)
    requires
        is_digit(c),
    ensures
        d == digit_val(c),
        d <= 9,
{
    c as u32 - 48
}

/// Parses a non-negative decimal amount into minor currency units, rounded
/// to the nearest minor unit with ties up. Fails exactly when the text is
/// not such a number or the value exceeds [`MAX_MINOR_UNITS`].
pub fn parse_amount(s: &str) -> (r: Result<i64, LedgerError>)
    ensures
        r matches Ok(v) ==> amount_of(s@) == Some(v as int) && 0 <= v <= MAX_MINOR_UNITS,
        r is Err ==> (r matches Err(e) && e matches LedgerError::InvalidAmount(t) && t@ == s@),
        r is Ok <==> (amount_of(s@) matches Some(m) && m <= MAX_MINOR_UNITS as int),
{
    let n = s.unicode_len();
    let mut i: usize = 0;
    let mut has_dot: bool = false;
    let mut dot: usize = 0;
    proof {
        lemma_first_dot(s@);
    }
    while i < n
        invariant
            n == s@.len(),
            i <= n,
            has_dot ==> dot < i && s@[dot as int] == '.',
            has_dot ==> forall|k: int| 0 <= k < dot ==> is_digit(s@[k]) && s@[k] != '.',
            has_dot ==> forall|k: int| dot < k < i ==> is_digit(s@[k]),
            !has_dot ==> forall|k: int| 0 <= k < i ==> is_digit(s@[k]) && s@[k] != '.',
        decreases n - i,
    {
        let c = s.get_char(i);
        if c == '.' {
            if has_dot {
                proof {
                    assert(first_dot(s@) == dot) by {
                        lemma_first_dot(s@);
                    }
                    let fp = s@.subrange(dot + 1, s@.len() as int);
                    assert(fp[i - dot - 1] == '.');
                    assert(!is_digit(fp[i - dot - 1]));
                    assert(amount_of(s@) is None);
                }
                return Err(LedgerError::InvalidAmount(s.to_owned()));
            }
            has_dot = true;
            dot = i;
        } else if !digit_char(c) {
            proof {
                lemma_first_dot(s@);
                let fd = first_dot(s@);
                if has_dot {
                    assert(fd == dot);
                    let fp = s@.subrange(dot + 1, s@.len() as int);
                    assert(!is_digit(fp[i - dot - 1]));
                } else {
                    assert(fd > i);
                    if fd == s@.len() {
                        assert(!all_digits(s@));
                    } else {
                        let ip = s@.subrange(0, fd);
                        assert(!is_digit(ip[i as int]));
                    }
                }
                assert(amount_of(s@) is None);
            }
            return Err(LedgerError::InvalidAmount(s.to_owned()));
        }
        i = i + 1;
    }
    // Every character is now known to be a digit, except a single dot.
    let dend: usize = if has_dot {
        dot
    } else {
        n
    };
    proof {
        lemma_first_dot(s@);
        if has_dot {
            assert(first_dot(s@) == dot);
        } else {
            assert(first_dot(s@) == n);
        }
    }
    let ghost ip: Seq<char> = s@.subrange(0, dend as int);
    let ghost fp: Seq<char> = if has_dot {
        s@.subrange(dot + 1, s@.len() as int)
    } else {
        Seq::empty()
    };
    if n == 0 || (has_dot && n == 1) {
        proof {
            assert(amount_of(s@) is None);
        }
        return Err(LedgerError::InvalidAmount(s.to_owned()));
    }
    proof {
        if !has_dot {
            assert(ip =~= s@);
        }
        assert(amount_of(s@) == Some(digits_val(ip) * 100 + frac_minor(fp)));
    }
    // Skip leading zeros of the integer part.
    let mut z: usize = 0;
    loop
        invariant_except_break
            n == s@.len(),
            dend <= n,
            z <= dend,
            forall|k: int| 0 <= k < z ==> s@[k] == '0',
        invariant
            n == s@.len(),
            dend <= n,
        ensures
            z <= dend,
            forall|k: int| 0 <= k < z ==> s@[k] == '0',
            z < dend ==> s@[z as int] != '0',
        decreases dend - z,
    {
        if z == dend {
            break;
        }
        if s.get_char(z) != '0' {
            break;
        }
        z = z + 1;
    }
    proof {
        lemma_digits_val_strip_zeros(ip, z as int);
        assert(ip.subrange(z as int, ip.len() as int) =~= s@.subrange(z as int, dend as int));
    }
    let ghost eff: Seq<char> = s@.subrange(z as int, dend as int);
    // `eff` now has no leading zero and digits_val(ip) == digits_val(eff).
    if dend - z >= 15 {
        proof {
            assert(eff[0] != '0');
            lemma_digits_val_lower(eff);
            lemma_pow10_mono(14, (eff.len() - 1) as nat);
            assert(pow10(14) == 100000000000000) by {
                reveal_with_fuel(pow10, 15);
            }
            assert(digits_val(ip) >= 100000000000000);
            assert(frac_minor(fp) >= 0);
        }
        return Err(LedgerError::InvalidAmount(s.to_owned()));
    }
    // At most fourteen significant digits: the value fits comfortably.
    let mut v: i64 = 0;
    let mut k: usize = z;
    proof {
        assert(s@.subrange(z as int, z as int) =~= Seq::<char>::empty());
    }
    while k < dend
        invariant
            n == s@.len(),
            z <= k <= dend,
            dend <= n,
            dend - z <= 14,
            forall|j: int| 0 <= j < dend ==> is_digit(s@[j]),
            v == digits_val(s@.subrange(z as int, k as int)),
            0 <= v < pow10((k - z) as nat),
        decreases dend - k,
    {
        let c = s.get_char(k);
        let d = digit_of(c);
        proof {
            lemma_pow10_mono((k - z) as nat, 13);
            assert(pow10(13) == 10000000000000) by {
                reveal_with_fuel(pow10, 14);
            }
            assert(s@.subrange(z as int, k + 1).drop_last() =~= s@.subrange(z as int, k as int));
        }
        v = v * 10 + (d as i64);
        k = k + 1;
    }
    proof {
        assert(digits_val(ip) == v);
        lemma_pow10_mono((dend - z) as nat, 14);
        assert(pow10(14) == 100000000000000) by {
            reveal_with_fuel(pow10, 15);
        }
    }
    // Fractional contribution: two digits plus a rounding carry.
    let mut frac: i64 = 0;
    if has_dot {
        let fl = n - dot - 1;
        if fl >= 1 {
            frac = (digit_of(s.get_char(dot + 1)) as i64) * 10;
        }
        if fl >= 2 {
            frac = frac + digit_of(s.get_char(dot + 2)) as i64;
        }
        if fl >= 3 {
            if digit_of(s.get_char(dot + 3)) >= 5 {
                frac = frac + 1;
            }
        }
    }
    proof {
        assert(frac == frac_minor(fp));
    }
    let minor = v * 100 + frac;
    if minor > MAX_MINOR_UNITS {
        return Err(LedgerError::InvalidAmount(s.to_owned()));
    }
    Ok(minor)
}

} // verus!
