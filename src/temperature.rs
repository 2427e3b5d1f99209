//! Kelvin to Celsius, rounded up to hundredths of a degree.
use vstd::prelude::*;
use vstd::arithmetic::div_mod::lemma_fundamental_div_mod;
use crate::decimal::{Decimal, MANTISSA_LIMIT, MAX_SCALE};

verus! {

/// 273.15, the offset between the Kelvin and Celsius scales, in hundredths.
pub const KELVIN_OFFSET_HUNDREDTHS: i64 = 27315;

pub open spec fn pow10(n: nat) -> int
    decreases n,
{
    if n == 0 {
        1
    } else {
        10 * pow10((n - 1) as nat)
    }
}

/// `n / d` rounded up, for `d > 0` (`/` on `int` rounds down).
pub open spec fn ceil_div(n: int, d: int) -> int {
    -((-n) / d)
}

/// `100 * 10^scale` times the Celsius value of the Kelvin reading `k`.
pub open spec fn scaled_celsius(k: Decimal) -> int {
    100 * k.mantissa - KELVIN_OFFSET_HUNDREDTHS * pow10(k.scale as nat)
}

/// The Celsius value of the Kelvin reading `k`, in hundredths of a degree,
/// rounded up.
pub open spec fn celsius_hundredths(k: Decimal) -> int {
    ceil_div(scaled_celsius(k), pow10(k.scale as nat))
}

proof fn lemma_pow10_bounds(n: nat)
    requires
        n <= MAX_SCALE,
    ensures
        1 <= pow10(n) <= pow10(MAX_SCALE as nat),
        pow10(MAX_SCALE as nat) == 1000000000000000000,
    decreases MAX_SCALE - n,
{
    reveal_with_fuel(pow10, 19);
    if n < MAX_SCALE {
        lemma_pow10_bounds(n + 1);
    }
}

/// `ceil_div(n, d)` is the one integer `c` with `(c - 1) * d < n <= c * d`.
proof fn lemma_ceil_div_unique(n: int, d: int, c: int)
    requires
        d > 0,
        c * d >= n,
        (c - 1) * d < n,
    ensures
        c == ceil_div(n, d),
{
    let q = (-n) / d;
    lemma_fundamental_div_mod(-n, d);
    assert(-n == d * q + (-n) % d);
    let e = -q;
    assert(e * d >= n && (e - 1) * d < n) by (nonlinear_arith)
        requires
            -n == d * q + (-n) % d,
            0 <= (-n) % d < d,
            e == -q,
    ;
    assert(c == e) by (nonlinear_arith)
        requires
            d > 0,
            c * d >= n,
            (c - 1) * d < n,
            e * d >= n,
            (e - 1) * d < n,
    ;
}

/// Kelvin to Celsius rounds up to hundredths: for every reading `k`, the
/// result `c` of [`normalize_temp`] satisfies `c / 100 >= k - 273.15`, and
/// `(c - 1) / 100 < k - 273.15`. Both sides are scaled by `100 * 10^scale`,
/// which keeps them whole numbers.
pub proof fn lemma_rounded_up_to_hundredths(k: Decimal)
    requires
        k.wf(),
    ensures
        celsius_hundredths(k) * pow10(k.scale as nat) >= scaled_celsius(k),
        (celsius_hundredths(k) - 1) * pow10(k.scale as nat) < scaled_celsius(k),
{
    let n = scaled_celsius(k);
    let d = pow10(k.scale as nat);
    lemma_pow10_bounds(k.scale as nat);
    lemma_fundamental_div_mod(-n, d);
    let q = (-n) / d;
    assert(-q * d >= n && (-q - 1) * d < n) by (nonlinear_arith)
        requires
            -n == d * q + (-n) % d,
            0 <= (-n) % d < d,
    ;
}

/// The Celsius value, in hundredths of a degree, of the Kelvin reading
/// `kelvin`, rounded up: the least whole number of hundredths at or above
/// `kelvin - 273.15`.
pub fn normalize_temp(kelvin: &Decimal) -> (r: i64)
    requires
        kelvin.wf(),
    ensures
        r == celsius_hundredths(*kelvin),
{
    let ghost k = *kelvin;
    let mut d: u64 = 1;
    let mut i: u32 = 0;
    while i < kelvin.scale
        invariant
            kelvin.wf(),
            i <= kelvin.scale,
            d == pow10(i as nat),
        decreases kelvin.scale - i,
    {
        proof {
            lemma_pow10_bounds((i + 1) as nat);
        }
        d = d * 10;
        i = i + 1;
    }
    proof {
        lemma_pow10_bounds(kelvin.scale as nat);
    }
    let n: i128 = 100 * (kelvin.mantissa as i128) - (KELVIN_OFFSET_HUNDREDTHS as i128) * (d as i128);
    assert(n == scaled_celsius(k));
    let r: i128 = if n >= 0 {
        let q: u128 = (n as u128 + d as u128 - 1) / d as u128;
        proof {
            let (ni, di, qi) = (n as int, d as int, q as int);
            let m = ni + di - 1;
            assert(qi == m / di);
            lemma_fundamental_div_mod(m, di);
            assert(qi * di >= ni && (qi - 1) * di < ni) by (nonlinear_arith)
                requires
                    m == ni + di - 1,
                    m == di * qi + m % di,
                    0 <= m % di < di,
            ;
        }
        q as i128
    } else {
        let q: u128 = ((-n) as u128) / d as u128;
        proof {
            let (ni, di, qi) = (n as int, d as int, q as int);
            let m = -ni;
            assert(qi == m / di);
            lemma_fundamental_div_mod(m, di);
            assert((-qi) * di >= ni && (-qi - 1) * di < ni) by (nonlinear_arith)
                requires
                    m == -ni,
                    m == di * qi + m % di,
                    0 <= m % di < di,
            ;
        }
        -(q as i128)
    };
    proof {
        lemma_ceil_div_unique(n as int, d as int, r as int);
        assert(i64::MIN <= r <= i64::MAX) by (nonlinear_arith)
            requires
                r * d >= n,
                (r - 1) * d < n,
                d >= 1,
                -1000000000000000000 - 27315 * d <= n <= 1000000000000000000,
        ;
    }
    r as i64
}

} // verus!
