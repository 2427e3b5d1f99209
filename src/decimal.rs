//! Decimal numbers as the weather service writes them: an optional minus
//! sign, one or more digits, and optionally a point and one or more digits.
use vstd::prelude::*;

verus! {

/// A decimal number is kept exactly when its digits, point removed, stay
/// below this bound.
pub const MANTISSA_LIMIT: u64 = 10000000000000000;

/// The most digits that may follow the point.
pub const MAX_SCALE: u32 = 18;

pub const MINUS: u8 = 45;

pub const POINT: u8 = 46;

/// The number `mantissa / 10^scale`.
#[derive(Clone, Copy, Debug, PartialEq, Eq, Structural)]
pub struct Decimal {
    pub mantissa: i64,
    pub scale: u32,
}

impl Decimal {
    pub open spec fn wf(self) -> bool {
        -(MANTISSA_LIMIT as int) < self.mantissa < MANTISSA_LIMIT as int
            && self.scale <= MAX_SCALE
    }
}

pub open spec fn is_digit(b: u8) -> bool {
    48 <= b <= 57
}

pub open spec fn all_digits(s: Seq<u8>) -> bool {
    forall|i: int| 0 <= i < s.len() ==> is_digit(#[trigger] s[i])
}

/// The number that a run of decimal digits spells.
pub open spec fn digits_value(s: Seq<u8>) -> nat
    decreases s.len(),
{
    if s.len() == 0 {
        0
    } else {
        digits_value(s.drop_last()) * 10 + (s.last() - 48) as nat
    }
}

pub open spec fn is_negative(s: Seq<u8>) -> bool {
    s.len() > 0 && s[0] == MINUS
}

/// The text after the sign.
pub open spec fn unsigned_part(s: Seq<u8>) -> Seq<u8> {
    if is_negative(s) {
        s.drop_first()
    } else {
        s
    }
}

/// `b` is digits up to `p`, and either ends there or goes on with a point
/// and more digits.
pub open spec fn point_at(b: Seq<u8>, p: int) -> bool {
    &&& 0 < p <= b.len()
    &&& all_digits(b.take(p))
    &&& p == b.len() || (b[p] == POINT && p + 1 < b.len() && all_digits(b.skip(p + 1)))
}

pub open spec fn well_formed(s: Seq<u8>) -> bool {
    exists|p: int| point_at(unsigned_part(s), p)
}

/// The digits of `b`, without the point at `p`.
pub open spec fn digits_without_point(b: Seq<u8>, p: int) -> Seq<u8> {
    if p == b.len() {
        b
    } else {
        b.take(p) + b.skip(p + 1)
    }
}

/// What the text `s`, with its point (or end of digits) at `p`, stands for;
/// `None` when it does not fit a `Decimal`.
pub open spec fn decimal_at(s: Seq<u8>, p: int) -> Option<Decimal> {
    let b = unsigned_part(s);
    let m: int = digits_value(digits_without_point(b, p)) as int;
    let scale = if p == b.len() { 0 } else { b.len() - p - 1 };
    if m < MANTISSA_LIMIT && scale <= MAX_SCALE {
        Some(Decimal { mantissa: (if is_negative(s) { -m } else { m }) as i64, scale: scale as u32 })
    } else {
        None
    }
}

/// The number that the text `s` stands for, if it is well formed and fits.
pub open spec fn parse_spec(s: Seq<u8>) -> Option<Decimal> {
    if well_formed(s) {
        decimal_at(s, choose|p: int| point_at(unsigned_part(s), p))
    } else {
        None
    }
}

/// Only one place can be where the digits before the point end.
proof fn lemma_point_unique(b: Seq<u8>, p: int, q: int)
    requires
        point_at(b, p),
        point_at(b, q),
    ensures
        p == q,
{
    if p < q {
        assert(b.take(q)[p] == b[p]);
    } else if q < p {
        assert(b.take(p)[q] == b[q]);
    }
}

proof fn lemma_digits_push(s: Seq<u8>, d: u8)
    ensures
        digits_value(s.push(d)) == digits_value(s) * 10 + (d - 48) as nat,
{
    assert(s.push(d).drop_last() =~= s);
}

/// Appending digits never makes the number smaller.
proof fn lemma_digits_grow(s: Seq<u8>, t: Seq<u8>)
    ensures
        digits_value(s) <= digits_value(s + t),
    decreases t.len(),
{
    if t.len() > 0 {
        assert((s + t).drop_last() =~= s + t.drop_last());
        lemma_digits_grow(s, t.drop_last());
    }
}

/// Where the leading digits of `b` end, there the point must stand.
proof fn lemma_digits_end(b: Seq<u8>, k: int, p: int)
    requires
        0 <= k <= b.len(),
        all_digits(b.take(k)),
        k == b.len() || !is_digit(b[k]),
        point_at(b, p),
    ensures
        p == k,
{
    if p < k {
        assert(b.take(k)[p] == b[p]);
    } else if k < p {
        assert(b.take(p)[k] == b[k]);
    }
}

/// Once the digits read so far reach the limit, no reading of the whole
/// text fits.
proof fn lemma_too_large(s: Seq<u8>, k: int, extra: Seq<u8>)
    requires
        0 <= k <= unsigned_part(s).len(),
        all_digits(unsigned_part(s).take(k)),
        digits_value(unsigned_part(s).take(k) + extra) >= MANTISSA_LIMIT,
        forall|p: int|
            point_at(unsigned_part(s), p) ==> exists|rest: Seq<u8>|
                digits_without_point(unsigned_part(s), p) == unsigned_part(s).take(k) + extra
                    + rest,
    ensures
        parse_spec(s) is None,
{
    if well_formed(s) {
        let b = unsigned_part(s);
        let p = choose|p: int| point_at(b, p);
        let rest = choose|rest: Seq<u8>| digits_without_point(b, p) == b.take(k) + extra + rest;
        lemma_digits_grow(b.take(k) + extra, rest);
    }
}

/// Reads the decimal number that `text` spells.
///
/// Returns `None` when the text is not an optional minus sign, digits, and
/// optionally a point followed by digits; or when the number has more than
/// `MAX_SCALE` digits after the point, or its digits spell `MANTISSA_LIMIT`
/// or more.
pub fn parse_decimal(text: &[u8]) -> (r: Option<Decimal>)
    ensures
        r == parse_spec(text@),
        r matches Some(d) ==> d.wf(),
{
    let ghost s = text@;
    let negative = text.len() > 0 && text[0] == MINUS;
    let start: usize = if negative { 1 } else { 0 };
    let ghost b = unsigned_part(s);
    assert(b =~= s.skip(start as int));
    let mut acc: u64 = 0;
    let mut i: usize = start;
    while i < text.len() && 48 <= text[i] && text[i] <= 57
        invariant
            start <= i <= text.len(),
            b =~= s.skip(start as int),
            b.len() == text.len() - start,
            s == text@,
            b == unsigned_part(s),
            all_digits(b.take(i - start)),
            acc == digits_value(b.take(i - start)),
            acc < MANTISSA_LIMIT,
        decreases text.len() - i,
    {
        let d = text[i];
        proof {
            assert(b[i - start] == d);
            lemma_digits_push(b.take(i - start), d);
            assert(b.take(i + 1 - start) =~= b.take(i - start).push(d));
        }
        acc = acc * 10 + (d - 48) as u64;
        i = i + 1;
        if acc >= MANTISSA_LIMIT {
            proof {
                let k = i - start;
                assert forall|p: int| point_at(b, p) implies exists|rest: Seq<u8>|
                    digits_without_point(b, p) == b.take(k) + Seq::<u8>::empty() + rest by {
                    if p < k {
                        assert(b.take(k)[p] == b[p]);
                    }
                    let rest = if p == b.len() {
                        b.skip(k)
                    } else {
                        b.subrange(k, p) + b.skip(p + 1)
                    };
                    assert(digits_without_point(b, p) =~= b.take(k) + Seq::<u8>::empty() + rest);
                }
                assert(b.take(k) + Seq::<u8>::empty() =~= b.take(k));
                lemma_too_large(s, k, Seq::<u8>::empty());
            }
            return None;
        }
    }
    let ghost k = i - start;
    if i == start {
        proof {
            if well_formed(s) {
                let p = choose|p: int| point_at(b, p);
                assert(b.take(p)[0] == b[0]);
            }
        }
        return None;
    }
    if i == text.len() {
        proof {
            assert(point_at(b, k));
            lemma_point_unique_choose(s, k);
            assert(b.take(k) =~= b);
        }
        let m: i64 = acc as i64;
        return Some(Decimal { mantissa: if negative { -m } else { m }, scale: 0 });
    }
    if text[i] != POINT || i + 1 >= text.len() || text.len() - i - 1 > MAX_SCALE as usize {
        proof {
            if well_formed(s) {
                let p = choose|p: int| point_at(b, p);
                lemma_digits_end(b, k, p);
            }
        }
        return None;
    }
    let point: usize = i;
    i = i + 1;
    while i < text.len()
        invariant
            start < point < i <= text.len(),
            k == point - start,
            b =~= s.skip(start as int),
            b.len() == text.len() - start,
            s == text@,
            b == unsigned_part(s),
            all_digits(b.take(k)),
            b[k] == POINT,
            all_digits(b.subrange(k + 1, i - start)),
            acc == digits_value(b.take(k) + b.subrange(k + 1, i - start)),
            acc < MANTISSA_LIMIT,
        decreases text.len() - i,
    {
        let d = text[i];
        if d < 48 || d > 57 {
            proof {
                if well_formed(s) {
                    let p = choose|p: int| point_at(b, p);
                    lemma_digits_end(b, k, p);
                    assert(b.skip(k + 1)[i - start - k - 1] == b[i - start]);
                }
            }
            return None;
        }
        proof {
            assert(b[i - start] == d);
            lemma_digits_push(b.take(k) + b.subrange(k + 1, i - start), d);
            assert(b.take(k) + b.subrange(k + 1, i + 1 - start) =~= (b.take(k) + b.subrange(
                k + 1,
                i - start,
            )).push(d));
        }
        acc = acc * 10 + (d - 48) as u64;
        i = i + 1;
        if acc >= MANTISSA_LIMIT {
            proof {
                let extra = b.subrange(k + 1, i - start);
                assert forall|p: int| point_at(b, p) implies exists|rest: Seq<u8>|
                    digits_without_point(b, p) == b.take(k) + extra + rest by {
                    lemma_digits_end(b, k, p);
                    let rest = b.skip(i - start);
                    assert(digits_without_point(b, p) =~= b.take(k) + extra + rest);
                }
                lemma_too_large(s, k, extra);
            }
            return None;
        }
    }
    proof {
        assert(b.subrange(k + 1, i - start) =~= b.skip(k + 1));
        assert(point_at(b, k));
        lemma_point_unique_choose(s, k);
    }
    let m: i64 = acc as i64;
    Some(Decimal { mantissa: if negative { -m } else { m }, scale: (text.len() - point - 1) as u32 })
}

proof fn lemma_point_unique_choose(s: Seq<u8>, k: int)
    requires
        point_at(unsigned_part(s), k),
    ensures
        well_formed(s),
        parse_spec(s) == decimal_at(s, k),
{
    let p = choose|p: int| point_at(unsigned_part(s), p);
    lemma_point_unique(unsigned_part(s), p, k);
}

} // verus!
