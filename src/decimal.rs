//! Fixed-precision decimals: text such as `30000.25` read as ticks of 1e-8.
use vstd::prelude::*;

verus! {

/// Fractional digits that a tick resolves.
pub const FRACTION_DIGITS: usize = 8;

/// Bound above every value the accumulation needs to tell apart.
pub const VALUE_CAP: u128 = 0x1_0000_0000_0000_0000;

pub open spec fn is_digit(b: u8) -> bool {
    48 <= b <= 57
}

pub open spec fn all_digits(s: Seq<u8>) -> bool {
    forall|i: int| 0 <= i < s.len() ==> is_digit(#[trigger] s[i])
}

/// The number that a run of decimal digits spells.
pub open spec fn digits_value(s: Seq<u8>) -> int
    decreases s.len(),
{
    if s.len() == 0 {
        0
    } else {
        10 * digits_value(s.drop_last()) + (s.last() - 48)
    }
}

pub open spec fn pow10(n: nat) -> int
    decreases n,
{
    if n == 0 { 1 } else { 10 * pow10((n - 1) as nat) }
}

/// Position of the first `.` in `s`, or its length.
pub open spec fn dot_index(s: Seq<u8>) -> int
    decreases s.len(),
{
    if s.len() == 0 {
        0
    } else if s[0] == 46 {
        0
    } else {
        1 + dot_index(s.drop_first())
    }
}

/// The ticks that `s` spells: one or more digits, then optionally a `.`
/// and digits, of which the first eight count (later ones are dropped,
/// rounding toward zero). None for any other text or a value past
/// `u64::MAX` ticks.
pub open spec fn parse_ticks_spec(s: Seq<u8>) -> Option<u64> {
    let d = dot_index(s);
    let int_part = s.subrange(0, d);
    let frac = if d < s.len() { s.subrange(d + 1, s.len() as int) } else { Seq::<u8>::empty() };
    let k = if frac.len() < 8 { frac.len() } else { 8 };
    let ticks = digits_value(int_part) * pow10(8) + digits_value(frac.subrange(0, k as int)) * pow10(
        (8 - k) as nat,
    );
    if int_part.len() == 0 || !all_digits(int_part) || !all_digits(frac) || ticks > u64::MAX {
        None
    } else {
        Some(ticks as u64)
    }
}

proof fn lemma_dot_index(s: Seq<u8>, i: int)
    requires
        0 <= i <= s.len(),
        forall|k: int| 0 <= k < i ==> s[k] != 46,
        i == s.len() || s[i] == 46,
    ensures
        dot_index(s) == i,
    decreases s.len(),
{
    if s.len() > 0 && i > 0 {
        lemma_dot_index(s.drop_first(), i - 1);
    }
}

proof fn lemma_digits_step(s: Seq<u8>, j: int)
    requires
        0 <= j < s.len(),
    ensures
        digits_value(s.subrange(0, j + 1)) == 10 * digits_value(s.subrange(0, j)) + (s[j] - 48),
{
    assert(s.subrange(0, j + 1).drop_last() =~= s.subrange(0, j));
}

proof fn lemma_digits_nonneg(s: Seq<u8>)
    requires
        all_digits(s),
    ensures
        digits_value(s) >= 0,
    decreases s.len(),
{
    if s.len() > 0 {
        lemma_digits_nonneg(s.drop_last());
    }
}

proof fn lemma_pow10_pos(n: nat)
    ensures
        pow10(n) >= 1,
    decreases n,
{
    if n > 0 {
        lemma_pow10_pos((n - 1) as nat);
    }
}

proof fn lemma_pow10_le(a: nat, b: nat)
    requires
        a <= b,
    ensures
        pow10(a) <= pow10(b),
    decreases b,
{
    if a < b {
        lemma_pow10_le(a, (b - 1) as nat);
        lemma_pow10_pos((b - 1) as nat);
    }
}

proof fn lemma_pow10_8()
    ensures
        pow10(8) == 100_000_000,
{
    reveal_with_fuel(pow10, 9);
}

/// Reads decimal text as ticks of 1e-8; see `parse_ticks_spec`.
pub fn parse_ticks(s: &[u8]) -> (r: Option<u64>)
    ensures
        r == parse_ticks_spec(s@),
{
    let n = s.len();
    let mut d: usize = 0;
    while d < n && s[d] != 46u8
        invariant
            d <= n,
            n == s@.len(),
            forall|k: int| 0 <= k < d ==> s@[k] != 46,
        decreases n - d,
    {
        d = d + 1;
    }
    proof {
        lemma_dot_index(s@, d as int);
        lemma_pow10_8();
    }
    let ghost int_part = s@.subrange(0, d as int);
    let ghost frac = if d < n { s@.subrange(d + 1, n as int) } else { Seq::<u8>::empty() };
    if d == 0 {
        return None;
    }
    let mut acc: u128 = 0;
    let mut j: usize = 0;
    while j < d
        invariant
            j <= d <= n,
            n == s@.len(),
            int_part == s@.subrange(0, d as int),
            dot_index(s@) == d,
            all_digits(s@.subrange(0, j as int)),
            acc as int == (if digits_value(s@.subrange(0, j as int)) < VALUE_CAP {
                digits_value(s@.subrange(0, j as int))
            } else {
                VALUE_CAP as int
            }),
        decreases d - j,
    {
        let b = s[j];
        if b < 48u8 || b > 57u8 {
            proof {
                assert(int_part[j as int] == b);
                assert(!is_digit(int_part[j as int]));
                assert(!all_digits(int_part));
                assert(dot_index(s@) == d);
            }
            return None;
        }
        proof {
            lemma_digits_step(s@, j as int);
            lemma_digits_nonneg(s@.subrange(0, j as int));
            assert(s@.subrange(0, j + 1).drop_last() =~= s@.subrange(0, j as int));
        }
        let next = acc * 10 + (b - 48u8) as u128;
        acc = if next < VALUE_CAP { next } else { VALUE_CAP };
        j = j + 1;
    }
    assert(s@.subrange(0, j as int) =~= int_part);
    let mut f: u128 = 0;
    let mut k: usize = 0;
    let mut t: usize = if d < n { d + 1 } else { n };
    while t < n
        invariant
            d < n ==> d + 1 <= t <= n,
            d == n ==> t == n,
            n == s@.len(),
            d <= n,
            pow10(8) == 100_000_000,
            k == (if t <= d + 1 { 0 } else if t - (d + 1) < 8 { (t - (d + 1)) as int } else { 8 }),
            d < n ==> frac == s@.subrange(d + 1, n as int),
            d == n ==> frac == Seq::<u8>::empty(),
            dot_index(s@) == d,
            int_part == s@.subrange(0, d as int),
            d > 0,
            all_digits(int_part),
            acc as int == (if digits_value(int_part) < VALUE_CAP {
                digits_value(int_part)
            } else {
                VALUE_CAP as int
            }),
            d < n ==> all_digits(s@.subrange(d + 1, t as int)),
            d < n ==> f as int == digits_value(s@.subrange(d + 1, (d + 1 + k) as int)),
            f < pow10(k as nat),
            k <= 8,
        decreases n - t,
    {
        let b = s[t];
        if b < 48u8 || b > 57u8 {
            proof {
                assert(frac[t - (d + 1)] == b);
                assert(!is_digit(frac[t - (d + 1)]));
                assert(!all_digits(frac));
                assert(dot_index(s@) == d);
            }
            return None;
        }
        if k < FRACTION_DIGITS {
            proof {
                lemma_digits_step(s@.subrange(d + 1, n as int), k as int);
                assert(s@.subrange(d + 1, n as int).subrange(0, k + 1) =~= s@.subrange(d + 1, (d + 1 + k + 1) as int));
                assert(s@.subrange(d + 1, n as int).subrange(0, k as int) =~= s@.subrange(d + 1, (d + 1 + k) as int));
                lemma_pow10_le(k as nat, 8);
            }
            f = f * 10 + (b - 48u8) as u128;
            k = k + 1;
        }
        proof {
            assert forall|i: int| 0 <= i < s@.subrange(d + 1, t + 1).len() implies is_digit(
                #[trigger] s@.subrange(d + 1, t + 1)[i],
            ) by {
                if i < t - (d + 1) {
                    assert(s@.subrange(d + 1, t + 1)[i] == s@.subrange(d + 1, t as int)[i]);
                }
            }
        }
        t = t + 1;
    }
    proof {
        if d < n {
            assert(s@.subrange(d + 1, t as int) =~= frac);
            assert(frac.subrange(0, k as int) =~= s@.subrange(d + 1, (d + 1 + k) as int));
        } else {
            assert(frac.subrange(0, 0) =~= Seq::<u8>::empty());
        }
    }
    let mut scale: u128 = 1;
    let mut e: usize = k;
    while e < FRACTION_DIGITS
        invariant
            k <= e <= 8,
            scale as int == pow10((e - k) as nat),
            pow10(8) == 100_000_000,
            pow10((e - k) as nat) <= pow10(8),
        decreases 8 - e,
    {
        proof {
            lemma_pow10_le((e + 1 - k) as nat, 8);
        }
        scale = scale * 10;
        e = e + 1;
    }
    proof {
        lemma_pow10_le(k as nat, 8);
        lemma_digits_nonneg(int_part);
        assert(f * scale <= 100_000_000 * 100_000_000) by (nonlinear_arith)
            requires f <= 100_000_000, scale <= 100_000_000;
    }
    if acc >= VALUE_CAP {
        return None;
    }
    let total = acc * 100_000_000 + f * scale;
    if total > u64::MAX as u128 {
        None
    } else {
        Some(total as u64)
    }
}

} // verus!
