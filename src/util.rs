//! Numeric helpers: exact decimals, the largest value of a slice, and an exact
//! test of a sample's coefficient of variation against a cutoff.
use vstd::prelude::*;

verus! {

/// `10` to the power `n`.
pub open spec fn pow10(n: nat) -> nat
    decreases n,
{
    if n == 0 {
        1
    } else {
        10 * pow10((n - 1) as nat)
    }
}

/// The largest scale a `Decimal` may carry: `10^19` still fits a `u64`.
pub const MAX_SCALE: u8 = 19;

/// A non-negative decimal number, `units / 10^scale`, kept exactly.
#[derive(Debug, Clone, Copy, PartialEq, Eq, Structural)]
pub struct Decimal {
    pub units: u64,
    pub scale: u8,
}

impl Decimal {
    /// The scale is small enough for `10^scale` to fit a `u64`.
    pub open spec fn wf(self) -> bool {
        self.scale <= MAX_SCALE
    }

    /// The smallest integer at least as large as the number.
    pub open spec fn ceil(self) -> nat {
        ((self.units + pow10(self.scale as nat) - 1) / (pow10(self.scale as nat) as int)) as nat
    }
}

pub proof fn lemma_pow10_positive(n: nat)
    ensures
        pow10(n) >= 1,
    decreases n,
{
    if n > 0 {
        lemma_pow10_positive((n - 1) as nat);
    }
}

proof fn lemma_pow10_monotone(a: nat, b: nat)
    requires
        a <= b,
    ensures
        pow10(a) <= pow10(b),
    decreases b,
{
    if a < b {
        lemma_pow10_monotone(a, (b - 1) as nat);
        lemma_pow10_positive((b - 1) as nat);
    }
}

proof fn lemma_pow10_19()
    ensures
        pow10(19) == 10000000000000000000nat,
{
    reveal_with_fuel(pow10, 20);
}

/// `10^n` for a scale that fits.
pub fn pow10_u64(n: u8) -> (r: u64)
    requires
        n <= MAX_SCALE,
    ensures
        r as nat == pow10(n as nat),
{
    let mut r: u64 = 1;
    let mut i: u8 = 0;
    while i < n
        invariant
            i <= n <= MAX_SCALE,
            r as nat == pow10(i as nat),
        decreases n - i,
    {
        proof {
            lemma_pow10_monotone((i + 1) as nat, 19);
            lemma_pow10_19();
        }
        r = r * 10;
        i = i + 1;
    }
    r
}

/// `ceil(d)`, where it fits a `u64`.
pub fn decimal_ceil(d: Decimal) -> (r: u64)
    requires
        d.wf(),
    ensures
        r as nat == d.ceil(),
{
    let q = pow10_u64(d.scale);
    proof {
        lemma_pow10_positive(d.scale as nat);
    }
    let k = d.units / q;
    let r = if d.units % q == 0 {
        k
    } else {
        assert(k < u64::MAX) by (nonlinear_arith)
            requires k == d.units / q, d.units % q != 0, q >= 1, d.units <= u64::MAX;
        k + 1
    };
    proof {
        let u = d.units as int;
        let qq = q as int;
        assert(u == qq * (u / qq) + u % qq) by (nonlinear_arith)
            requires qq > 0;
        if u % qq == 0 {
            assert((u + qq - 1) / qq == u / qq) by (nonlinear_arith)
                requires qq > 0, u == qq * (u / qq);
        } else {
            assert((u + qq - 1) / qq == u / qq + 1) by (nonlinear_arith)
                requires qq > 0, u == qq * (u / qq) + u % qq, 0 < u % qq < qq;
        }
    }
    r
}

/// The largest value of a sequence, `0` for an empty one.
pub open spec fn seq_max(s: Seq<u32>) -> u32
    decreases s.len(),
{
    if s.len() == 0 {
        0
    } else if s.last() > seq_max(s.drop_last()) {
        s.last()
    } else {
        seq_max(s.drop_last())
    }
}

/// Return the maximum value of a slice (`0` when it is empty).
pub fn max(slice: &[u32]) -> (r: u32)
    ensures
        r == seq_max(slice@),
        forall|i: int| 0 <= i < slice@.len() ==> slice@[i] <= r,
        slice@.len() > 0 ==> slice@.contains(r),
{
    let mut acc: u32 = 0;
    let mut i: usize = 0;
    while i < slice.len()
        invariant
            i <= slice@.len(),
            acc == seq_max(slice@.subrange(0, i as int)),
            forall|j: int| 0 <= j < i ==> slice@[j] <= acc,
            i > 0 ==> slice@.subrange(0, i as int).contains(acc),
        decreases slice@.len() - i,
    {
        let x = slice[i];
        assert(slice@.subrange(0, i + 1).drop_last() == slice@.subrange(0, i as int));
        if x > acc {
            acc = x;
        }
        i = i + 1;
        assert(slice@.subrange(0, i as int)[i - 1] == x);
    }
    assert(slice@.subrange(0, i as int) == slice@);
    acc
}


/// The sum of a sequence of values.
pub open spec fn seq_sum(s: Seq<u32>) -> int
    decreases s.len(),
{
    if s.len() == 0 {
        0
    } else {
        seq_sum(s.drop_last()) + s.last()
    }
}

/// The sum of the squares of a sequence of values.
pub open spec fn seq_sum_sq(s: Seq<u32>) -> int
    decreases s.len(),
{
    if s.len() == 0 {
        0
    } else {
        seq_sum_sq(s.drop_last()) + s.last() * s.last()
    }
}

/// The coefficient of variation of `sample` (population standard deviation
/// divided by the mean) is at least `c`. With `n` values of sum `s` and sum of
/// squares `t`, the deviation is `sqrt(n*t - s*s) / n` and the mean `s / n`, so
/// for a positive sum the test is `(n*t - s*s) * 10^(2*scale) >= units^2 * s^2`.
/// A zero mean (an empty sample, or all values zero) gives no number, and no
/// number is at least the cutoff.
pub open spec fn cv_at_least(sample: Seq<u32>, c: Decimal) -> bool {
    let n = sample.len() as int;
    let s = seq_sum(sample);
    let q = pow10(c.scale as nat) as int;
    let p = c.units as int;
    s > 0 && (n * seq_sum_sq(sample) - s * s) * (q * q) >= (p * p) * (s * s)
}

pub proof fn lemma_sum_bounds(v: Seq<u32>)
    ensures
        0 <= seq_sum(v) <= v.len() * (u32::MAX as int),
        0 <= seq_sum_sq(v) <= v.len() * ((u32::MAX as int) * (u32::MAX as int)),
    decreases v.len(),
{
    if v.len() > 0 {
        lemma_sum_bounds(v.drop_last());
        let y = v.last() as int;
        assert(y * y <= (u32::MAX as int) * (u32::MAX as int)) by (nonlinear_arith)
            requires 0 <= y <= u32::MAX;
        assert(0 <= y * y) by (nonlinear_arith);
    }
}

/// The sum of `(v_i - x)^2` is never negative.
proof fn lemma_spread_nonneg(v: Seq<u32>, x: int)
    ensures
        seq_sum_sq(v) + v.len() * x * x - 2 * x * seq_sum(v) >= 0,
    decreases v.len(),
{
    if v.len() > 0 {
        let w = v.drop_last();
        lemma_spread_nonneg(w, x);
        let y = v.last() as int;
        let n = w.len() as int;
        assert(seq_sum_sq(w) + y * y + (n + 1) * x * x - 2 * x * (seq_sum(w) + y)
            == (seq_sum_sq(w) + n * x * x - 2 * x * seq_sum(w)) + (y - x) * (y - x))
            by (nonlinear_arith);
        assert((y - x) * (y - x) >= 0) by (nonlinear_arith);
    }
}

/// `n * sum(v^2) >= sum(v)^2`.
proof fn lemma_sum_sq_dominates(v: Seq<u32>)
    ensures
        v.len() * seq_sum_sq(v) >= seq_sum(v) * seq_sum(v),
    decreases v.len(),
{
    if v.len() > 0 {
        let w = v.drop_last();
        lemma_sum_sq_dominates(w);
        let y = v.last() as int;
        lemma_spread_nonneg(w, y);
        let n = w.len() as int;
        let s = seq_sum(w);
        let t = seq_sum_sq(w);
        assert((n + 1) * (t + y * y) - (s + y) * (s + y) == (n * t - s * s) + (t + n * y * y - 2
            * y * s)) by (nonlinear_arith);
    }
}

/// `a * d >= c * b`, decided without leaving 128 bits by comparing the
/// continued-fraction expansions of `a / b` and `c / d`.
pub fn cross_ge(a: u128, b: u128, c: u128, d: u128) -> (r: bool)
    requires
        b > 0,
        d > 0,
    ensures
        r == (a * d >= c * b),
    decreases b + d,
{
    let k1 = a / b;
    let r1 = a % b;
    let k2 = c / d;
    let r2 = c % d;
    let ghost (ai, bi, ci, di) = (a as int, b as int, c as int, d as int);
    proof {
        assert(ai == bi * k1 + r1 && 0 <= r1 < bi) by (nonlinear_arith)
            requires bi > 0, k1 == ai / bi, r1 == ai % bi;
        assert(ci == di * k2 + r2 && 0 <= r2 < di) by (nonlinear_arith)
            requires di > 0, k2 == ci / di, r2 == ci % di;
    }
    if k1 > k2 {
        assert(ai * di > ci * bi) by (nonlinear_arith)
            requires ai == bi * k1 + r1, ci == di * k2 + r2, 0 <= r1, r2 < di, k1 >= k2 + 1,
                bi > 0, di > 0;
        true
    } else if k1 < k2 {
        assert(ai * di < ci * bi) by (nonlinear_arith)
            requires ai == bi * k1 + r1, ci == di * k2 + r2, 0 <= r2, r1 < bi, k2 >= k1 + 1,
                bi > 0, di > 0;
        false
    } else {
        assert(ai * di - ci * bi == r1 * di - r2 * bi) by (nonlinear_arith)
            requires ai == bi * k1 + r1, ci == di * k2 + r2, k1 == k2;
        if r2 == 0 {
            assert(ai * di >= ci * bi) by (nonlinear_arith)
                requires ai * di - ci * bi == r1 * di - r2 * bi, r2 == 0, r1 >= 0, di > 0;
                true
        } else if r1 == 0 {
            assert(ai * di < ci * bi) by (nonlinear_arith)
                requires ai * di - ci * bi == r1 * di - r2 * bi, r1 == 0, r2 > 0, bi > 0;
                false
        } else {
            let r = cross_ge(d, r2, b, r1);
            assert(di * r1 == r1 * di && bi * r2 == r2 * bi) by (nonlinear_arith);
            r
        }
    }
}

/// Whether the coefficient of variation of `sample` is at least `c`.
pub fn cv_at_least_exec(sample: &Vec<u32>, c: Decimal) -> (r: bool)
    requires
        sample.len() <= u32::MAX,
        c.wf(),
    ensures
        r == cv_at_least(sample@, c),
{
    let n = sample.len() as u128;
    let mut s: u64 = 0;
    let mut t: u128 = 0;
    let mut i: usize = 0;
    while i < sample.len()
        invariant
            i <= sample.len() <= u32::MAX,
            s as int == seq_sum(sample@.subrange(0, i as int)),
            t as int == seq_sum_sq(sample@.subrange(0, i as int)),
        decreases sample.len() - i,
    {
        let x = sample[i];
        proof {
            let next = sample@.subrange(0, i + 1);
            assert(next.drop_last() == sample@.subrange(0, i as int));
            lemma_sum_bounds(next);
            assert((i + 1) * (u32::MAX as int) <= u64::MAX) by (nonlinear_arith)
                requires i + 1 <= u32::MAX;
            assert((i + 1) * ((u32::MAX as int) * (u32::MAX as int)) <= u128::MAX)
                by (nonlinear_arith)
                requires i + 1 <= u32::MAX;
        }
        s = s + x as u64;
        t = t + (x as u128) * (x as u128);
        i = i + 1;
    }
    proof {
        assert(sample@.subrange(0, i as int) == sample@);
    }
    if s == 0 {
        return false;
    }
    let ghost v = sample@;
    proof {
        lemma_sum_bounds(v);
        lemma_sum_sq_dominates(v);
        let ni = n as int;
        assert(ni * (t as int) <= u128::MAX) by (nonlinear_arith)
            requires ni <= u32::MAX, 0 <= t <= ni * ((u32::MAX as int) * (u32::MAX as int)), ni >= 0;
        assert((s as int) * (s as int) <= u128::MAX) by (nonlinear_arith)
            requires 0 <= s <= ni * (u32::MAX as int), ni <= u32::MAX, ni >= 0;
    }
    let ss = (s as u128) * (s as u128);
    let spread = n * t - ss;
    let q = pow10_u64(c.scale) as u128;
    let p = c.units as u128;
    proof {
        lemma_pow10_positive(c.scale as nat);
        assert(p * p <= u128::MAX) by (nonlinear_arith)
            requires p <= u64::MAX;
        assert(q * q <= u128::MAX) by (nonlinear_arith)
            requires q <= u64::MAX;
        assert(ss > 0) by (nonlinear_arith)
            requires ss == s * s, s > 0;
        assert(q * q > 0) by (nonlinear_arith)
            requires q >= 1;
    }
    cross_ge(spread, ss, p * p, q * q)
}

} // verus!
