//! Fixed-point decimal quantities.
//!
//! Every exact decimal of the system (energy in kWh, prices in cents per
//! kWh, the flat reference rate in currency major units per kWh) is carried
//! as an integer mantissa scaled by `10^5`: a value `v` stands for the
//! rational `v / 100000`. All core arithmetic on these mantissas is exact;
//! nothing round-trips through binary floating point.

use vstd::prelude::*;

verus! {

/// Number of fraction digits carried by a scaled mantissa.
pub const SCALE_DIGITS: u64 = 5;

/// `10^SCALE_DIGITS`: the mantissa of the quantity one.
pub const SCALE_UNIT: u64 = 100000;

/// Largest admissible whole-part digit count for a parsed decimal.
pub const MAX_WHOLE_DIGITS: usize = 6;

/// Exclusive upper bound on a parsed non-negative mantissa: a quantity is
/// below `10^6` units, so its mantissa is below `10^11`.
pub const VALUE_LIMIT: u64 = 100_000_000_000;

/// `10^n` as a mathematical integer.
pub open spec fn pow10(n: nat) -> int
    decreases n,
{
    if n == 0 {
        1
    } else {
        10 * pow10((n - 1) as nat)
    }
}

pub proof fn lemma_pow10_values()
    ensures
        pow10(0) == 1,
        pow10(1) == 10,
        pow10(2) == 100,
        pow10(3) == 1_000,
        pow10(4) == 10_000,
        pow10(5) == 100_000,
        pow10(6) == 1_000_000,
        pow10(10) == 10_000_000_000,
        pow10(11) == 100_000_000_000,
{
    reveal_with_fuel(pow10, 12);
}

pub proof fn lemma_pow10_mono(a: nat, b: nat)
    requires
        a <= b,
    ensures
        1 <= pow10(a) <= pow10(b),
    decreases b,
{
    if b == 0 {
    } else if a == b {
        lemma_pow10_mono(0, (b - 1) as nat);
    } else {
        lemma_pow10_mono(a, (b - 1) as nat);
    }
}

/// `10^n`, executable.
pub fn pow10_u64(n: u64) -> (r: u64)
    requires
        n <= 11,
    ensures
        r == pow10(n as nat),
{
    let mut r: u64 = 1;
    let mut i: u64 = 0;
    while i < n
        invariant
            i <= n <= 11,
            r == pow10(i as nat),
        decreases n - i,
    {
        proof {
            lemma_pow10_mono(i as nat, 10);
            lemma_pow10_values();
            assert(pow10((i + 1) as nat) == 10 * pow10(i as nat));
        }
        r = r * 10;
        i = i + 1;
    }
    r
}

pub open spec fn is_ascii_digit(c: u8) -> bool {
    48 <= c <= 57
}

pub open spec fn all_digits(s: Seq<u8>) -> bool {
    forall|i: int| 0 <= i < s.len() ==> is_ascii_digit(s[i])
}

/// Numeric value of a digit string, most significant digit first.
pub open spec fn digits_val(s: Seq<u8>) -> int
    decreases s.len(),
{
    if s.len() == 0 {
        0
    } else {
        digits_val(s.drop_last()) * 10 + (s.last() - 48)
    }
}

/// Index of the first comma in `s`, or `s.len()` if there is none.
pub open spec fn comma_pos(s: Seq<u8>) -> int
    decreases s.len(),
{
    if s.len() == 0 {
        0
    } else if s[0] == 44 {
        0
    } else {
        1 + comma_pos(s.drop_first())
    }
}

pub proof fn lemma_comma_pos(s: Seq<u8>)
    ensures
        0 <= comma_pos(s) <= s.len(),
        comma_pos(s) < s.len() ==> s[comma_pos(s)] == 44,
        forall|j: int| 0 <= j < comma_pos(s) ==> s[j] != 44,
    decreases s.len(),
{
    if s.len() == 0 {
    } else if s[0] == 44 {
    } else {
        lemma_comma_pos(s.drop_first());
        assert forall|j: int| 0 <= j < comma_pos(s) implies s[j] != 44 by {
            if j > 0 {
                assert(s.drop_first()[j - 1] == s[j]);
            }
        }
    }
}

pub proof fn lemma_digits_val_bound(s: Seq<u8>)
    requires
        all_digits(s),
    ensures
        0 <= digits_val(s) < pow10(s.len() as nat),
    decreases s.len(),
{
    if s.len() == 0 {
    } else {
        assert(all_digits(s.drop_last()));
        lemma_digits_val_bound(s.drop_last());
        assert(is_ascii_digit(s.last()));
    }
}

/// A well-formed decimal-comma literal under a format allowing at most
/// `max_frac` fraction digits: one to `MAX_WHOLE_DIGITS` whole digits, a
/// single comma, then one to `max_frac` fraction digits.
pub open spec fn valid_decimal_comma(s: Seq<u8>, max_frac: int) -> bool {
    let c = comma_pos(s);
    &&& 1 <= c <= MAX_WHOLE_DIGITS
    &&& c < s.len()
    &&& 1 <= s.len() - c - 1 <= max_frac
    &&& all_digits(s.take(c))
    &&& all_digits(s.skip(c + 1))
}

/// Scaled mantissa denoted by a well-formed decimal-comma literal: the whole
/// part at full scale plus the fraction digits at their face position.
pub open spec fn decimal_comma_val(s: Seq<u8>) -> int {
    let c = comma_pos(s);
    let fl = s.len() - c - 1;
    digits_val(s.take(c)) * SCALE_UNIT + digits_val(s.skip(c + 1)) * pow10((SCALE_DIGITS - fl) as nat)
}

pub proof fn lemma_pow10_add(a: nat, b: nat)
    ensures
        pow10(a + b) == pow10(a) * pow10(b),
    decreases b,
{
    if b == 0 {
    } else {
        lemma_pow10_add(a, (b - 1) as nat);
        assert(pow10(a + b) == 10 * (pow10(a) * pow10((b - 1) as nat)));
        assert(10 * (pow10(a) * pow10((b - 1) as nat)) == pow10(a) * (10 * pow10(
            (b - 1) as nat,
        ))) by (nonlinear_arith);
    }
}

/// Parse a decimal-comma literal into a non-negative scaled mantissa.
/// Malformed text — no comma, stray characters, a whole part longer than
/// `MAX_WHOLE_DIGITS`, or more than `max_frac` fraction digits — is rejected,
/// never clamped.
pub fn from_decimal_comma(s: &[u8], max_frac: usize) -> (r: Result<u64, crate::errors::EnergyError>)
    requires
        1 <= max_frac <= SCALE_DIGITS,
    ensures
        valid_decimal_comma(s@, max_frac as int) ==> r == Ok::<u64, crate::errors::EnergyError>(
            decimal_comma_val(s@) as u64,
        ) && 0 <= decimal_comma_val(s@) < VALUE_LIMIT,
        !valid_decimal_comma(s@, max_frac as int) ==> r == Err::<u64, crate::errors::EnergyError>(
            crate::errors::EnergyError::MalformedInput,
        ),
{
    proof {
        lemma_comma_pos(s@);
    }
    let n = s.len();
    let mut c: usize = 0;
    while c < n && s[c] != 44
        invariant
            c <= n == s@.len(),
            forall|j: int| 0 <= j < c ==> s@[j] != 44,
        decreases n - c,
    {
        c = c + 1;
    }
    if c == n {
        assert(comma_pos(s@) == n);
        return Err(crate::errors::EnergyError::MalformedInput);
    }
    assert(comma_pos(s@) == c);
    if c < 1 || c > MAX_WHOLE_DIGITS || n - c - 1 < 1 || n - c - 1 > max_frac {
        return Err(crate::errors::EnergyError::MalformedInput);
    }
    let fl = n - c - 1;
    let mut w: u64 = 0;
    let mut j: usize = 0;
    while j < c
        invariant
            0 <= j <= c <= MAX_WHOLE_DIGITS,
            1 <= c,
            c < n == s@.len(),
            comma_pos(s@) == c as int,
            1 <= n - c - 1 <= max_frac,
            max_frac <= SCALE_DIGITS,
            w == digits_val(s@.take(j as int)),
            w < pow10(j as nat),
            all_digits(s@.take(j as int)),
        decreases c - j,
    {
        let d = s[j];
        if d < 48 || d > 57 {
            assert(s@.take(c as int)[j as int] == s@[j as int]);
            assert(!valid_decimal_comma(s@, max_frac as int));
            return Err(crate::errors::EnergyError::MalformedInput);
        }
        proof {
            assert(s@.take(j + 1).drop_last() =~= s@.take(j as int));
            assert(s@.take(j + 1).last() == s@[j as int]);
            lemma_pow10_mono(j as nat, 5);
            lemma_pow10_values();
        }
        w = w * 10 + ((d - 48) as u64);
        j = j + 1;
    }
    assert(s@.take(c as int) =~= s@.take(j as int));
    let mut f: u64 = 0;
    let mut k: usize = 0;
    while k < fl
        invariant
            0 <= k <= fl,
            1 <= fl <= max_frac <= SCALE_DIGITS,
            1 <= c <= MAX_WHOLE_DIGITS,
            c + 1 + fl == n == s@.len(),
            comma_pos(s@) == c as int,
            w == digits_val(s@.take(c as int)),
            w < pow10(c as nat),
            all_digits(s@.take(c as int)),
            f == digits_val(s@.subrange(c + 1, c + 1 + k)),
            f < pow10(k as nat),
            all_digits(s@.subrange(c + 1, c + 1 + k)),
        decreases fl - k,
    {
        let d = s[c + 1 + k];
        if d < 48 || d > 57 {
            assert(s@.skip(c + 1)[k as int] == s@[c + 1 + k]);
            assert(!valid_decimal_comma(s@, max_frac as int));
            return Err(crate::errors::EnergyError::MalformedInput);
        }
        proof {
            assert(s@.subrange(c + 1, c + 1 + (k + 1)).drop_last() =~= s@.subrange(
                c + 1,
                c + 1 + k,
            ));
            assert(s@.subrange(c + 1, c + 1 + (k + 1)).last() == s@[c + 1 + k]);
            lemma_pow10_mono(k as nat, 4);
            lemma_pow10_values();
        }
        f = f * 10 + ((d - 48) as u64);
        k = k + 1;
    }
    assert(s@.skip(c + 1) =~= s@.subrange(c + 1, c + 1 + fl));
    assert(valid_decimal_comma(s@, max_frac as int));
    let p = pow10_u64((SCALE_DIGITS - fl as u64) as u64);
    proof {
        lemma_pow10_mono(0, (SCALE_DIGITS - fl as u64) as nat);
        lemma_pow10_add(fl as nat, (SCALE_DIGITS - fl as u64) as nat);
        assert(f * p < pow10(fl as nat) * pow10((SCALE_DIGITS - fl as u64) as nat)) by (nonlinear_arith)
            requires
                f < pow10(fl as nat),
                p == pow10((SCALE_DIGITS - fl as u64) as nat),
                p >= 1,
        ;
        lemma_pow10_values();
        lemma_pow10_mono(j as nat, 6);
        lemma_pow10_values();
    }
    let v = w * SCALE_UNIT + f * p;
    Ok(v)
}

/// Parse an optionally minus-signed decimal-comma literal into a scaled
/// mantissa; unparsable text yields `None`.
pub fn from_signed_decimal_comma(s: &[u8], max_frac: usize) -> (r: Option<i64>)
    requires
        1 <= max_frac <= SCALE_DIGITS,
    ensures
        valid_signed_decimal_comma(s@, max_frac as int) ==> r == Some(
            signed_decimal_comma_val(s@) as i64,
        ) && -(VALUE_LIMIT as int) < signed_decimal_comma_val(s@) < VALUE_LIMIT,
        !valid_signed_decimal_comma(s@, max_frac as int) ==> r == None::<i64>,
{
    if s.len() > 0 && s[0] == 45 {
        let rest = &s[1..s.len()];
        assert(rest@ =~= s@.skip(1));
        match from_decimal_comma(rest, max_frac) {
            Ok(v) => Some(-(v as i64)),
            Err(_) => None,
        }
    } else {
        match from_decimal_comma(s, max_frac) {
            Ok(v) => Some(v as i64),
            Err(_) => None,
        }
    }
}

/// A decimal-comma literal with an optional leading minus sign.
pub open spec fn valid_signed_decimal_comma(s: Seq<u8>, max_frac: int) -> bool {
    if s.len() > 0 && s[0] == 45 {
        valid_decimal_comma(s.skip(1), max_frac)
    } else {
        valid_decimal_comma(s, max_frac)
    }
}

pub open spec fn signed_decimal_comma_val(s: Seq<u8>) -> int {
    if s.len() > 0 && s[0] == 45 {
        -decimal_comma_val(s.skip(1))
    } else {
        decimal_comma_val(s)
    }
}

} // verus!
