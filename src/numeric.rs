use vstd::prelude::*;

verus! {

/// Number of units in one: every value is an exact decimal counted in millionths.
pub const SCALE: i64 = 1_000_000;

/// Number of decimal places that a value can carry.
pub const DECIMALS: usize = 6;

/// Largest magnitude, in units, of a literal or of an accumulated coefficient.
/// Below 2^62, so that a discriminant always fits in an `i128`.
pub const COEFF_MAX: i64 = 4_000_000_000_000_000_000;

pub open spec fn pow10(n: nat) -> nat
    decreases n,
{
    if n == 0 {
        1
    } else {
        10 * pow10((n - 1) as nat)
    }
}

pub open spec fn is_digit(c: char) -> bool {
    '0' <= c && c <= '9'
}

pub open spec fn digit_value(c: char) -> nat {
    (c as u32 - '0' as u32) as nat
}

/// The digits of a literal read as one natural number, its point ignored.
pub open spec fn mantissa(lit: Seq<char>) -> nat
    decreases lit.len(),
{
    if lit.len() == 0 {
        0
    } else if lit.last() == '.' {
        mantissa(lit.drop_last())
    } else {
        mantissa(lit.drop_last()) * 10 + digit_value(lit.last())
    }
}

pub open spec fn has_point(lit: Seq<char>) -> bool
    decreases lit.len(),
{
    lit.len() > 0 && (lit.last() == '.' || has_point(lit.drop_last()))
}

/// Number of digits after the point of a literal.
pub open spec fn frac_digits(lit: Seq<char>) -> nat
    decreases lit.len(),
{
    if lit.len() == 0 || lit.last() == '.' {
        0
    } else if has_point(lit.drop_last()) {
        frac_digits(lit.drop_last()) + 1
    } else {
        0
    }
}

/// The value of a literal in units, when it has at most six decimals.
pub open spec fn literal_units(lit: Seq<char>) -> int {
    (mantissa(lit) * pow10((DECIMALS - frac_digits(lit)) as nat)) as int
}

/// A literal stands for a value of the library when it has a digit, at most six
/// decimals, and a magnitude within the coefficient bound.
pub open spec fn representable(lit: Seq<char>) -> bool {
    &&& lit != seq!['.']
    &&& frac_digits(lit) <= DECIMALS
    &&& literal_units(lit) <= COEFF_MAX
}

proof fn lemma_pow10_pos(n: nat)
    ensures
        pow10(n) >= 1,
    decreases n,
{
    if n > 0 {
        lemma_pow10_pos((n - 1) as nat);
    }
}

proof fn lemma_mantissa_grows(lit: Seq<char>, k: int)
    requires
        0 <= k <= lit.len(),
    ensures
        mantissa(lit.take(k)) <= mantissa(lit),
    decreases lit.len() - k,
{
    if k < lit.len() {
        lemma_mantissa_grows(lit, k + 1);
        assert(lit.take(k + 1).drop_last() =~= lit.take(k));
    } else {
        assert(lit.take(k) =~= lit);
    }
}

fn pow10_exec(n: usize) -> (r: u64)
    requires
        n <= DECIMALS,
    ensures
        r == pow10(n as nat),
        r <= 1_000_000,
{
    let mut r: u64 = 1;
    let mut i: usize = 0;
    while i < n
        invariant
            i <= n <= DECIMALS,
            r == pow10(i as nat),
            r <= 1_000_000,
        decreases n - i,
    {
        assert(pow10((i + 1) as nat) == 10 * pow10(i as nat));
        proof {
            assert(r <= 100_000) by {
                lemma_pow10_le(i as nat);
            }
        }
        r = r * 10;
        i = i + 1;
    }
    r
}

proof fn lemma_pow10_le(n: nat)
    requires
        n < DECIMALS,
    ensures
        pow10(n) <= 100_000,
    decreases n,
{
    reveal_with_fuel(pow10, 6);
}

/// The units of the literal `s[start..end]`, or `None` when it is not representable.
pub fn literal_value(s: &Vec<char>, start: usize, end: usize) -> (r: Option<i64>)
    requires
        start < end <= s@.len(),
        forall|i: int| start <= i < end ==> is_digit(#[trigger] s@[i]) || s@[i] == '.',
    ensures
        match r {
            Some(v) => representable(s@.subrange(start as int, end as int)) && v == literal_units(
                s@.subrange(start as int, end as int),
            ),
            None => !representable(s@.subrange(start as int, end as int)),
        },
{
    let ghost lit = s@.subrange(start as int, end as int);
    if end - start == 1 && s[start] == '.' {
        assert(lit =~= seq!['.']);
        return None;
    }
    assert(lit != seq!['.']) by {
        if lit == seq!['.'] {
            assert(lit.len() == 1);
            assert(lit[0] == s@[start as int]);
            assert(seq!['.'][0] == '.');
        }
    }
    let mut acc: u128 = 0;
    let mut frac: usize = 0;
    let mut seen_point = false;
    let mut k: usize = start;
    while k < end
        invariant
            start <= k <= end <= s@.len(),
            lit == s@.subrange(start as int, end as int),
            forall|i: int| start <= i < end ==> is_digit(#[trigger] s@[i]) || s@[i] == '.',
            acc == mantissa(lit.take(k - start)),
            acc <= COEFF_MAX,
            frac == frac_digits(lit.take(k - start)),
            frac <= k - start,
            seen_point == has_point(lit.take(k - start)),
        decreases end - k,
    {
        let c = s[k];
        let ghost pre = lit.take(k - start);
        let ghost next = lit.take(k + 1 - start);
        assert(next.drop_last() =~= pre);
        assert(next.last() == c);
        if c == '.' {
            seen_point = true;
            frac = 0;
        } else {
            let d = (c as u32 - '0' as u32) as u128;
            assert(d <= 9);
            acc = acc * 10 + d;
            if seen_point {
                frac = frac + 1;
            }
            if acc > COEFF_MAX as u128 {
                proof {
                    lemma_mantissa_grows(lit, k + 1 - start);
                    lemma_pow10_pos((DECIMALS - frac_digits(lit)) as nat);
                    assert(mantissa(lit) * pow10((DECIMALS - frac_digits(lit)) as nat) >= mantissa(
                        lit,
                    )) by (nonlinear_arith)
                        requires
                            pow10((DECIMALS - frac_digits(lit)) as nat) >= 1,
                    ;
                }
                return None;
            }
        }
        k = k + 1;
    }
    assert(lit.take(end - start) =~= lit);
    if frac > DECIMALS {
        return None;
    }
    let p = pow10_exec(DECIMALS - frac);
    assert(acc * p <= 4_000_000_000_000_000_000_000_000) by (nonlinear_arith)
        requires
            acc <= COEFF_MAX,
            p <= 1_000_000,
    ;
    let units: u128 = acc * p as u128;
    if units > COEFF_MAX as u128 {
        return None;
    }
    Some(units as i64)
}

} // verus!
