//! Rounding to single precision: which scalar an exact value becomes.

use crate::scalar::{
    compose, lemma_compose, lemma_decompose, lemma_magnitude_determines, unit, Scalar,
};
use vstd::arithmetic::power2::*;
use vstd::prelude::*;

verus! {

/// How far a finite scalar lies from the exact value `x / d`. The distance
/// is measured in units of 2^-149 and multiplied by `d`, so that it is an
/// integer; `d` is above zero.
pub open spec fn gap(x: int, d: int, v: Scalar) -> int {
    if x >= v.units() * d {
        x - v.units() * d
    } else {
        v.units() * d - x
    }
}

/// Whether `r` is the finite scalar to which the exact value `x / d`
/// rounds: none lies nearer, and where another lies as near, the
/// significand of `r` is even.
pub open spec fn nearest(x: int, d: int, r: Scalar) -> bool {
    &&& r.is_finite()
    &&& forall|v: Scalar| v.is_finite() ==> gap(x, d, r) <= #[trigger] gap(x, d, v)
    &&& forall|v: Scalar|
        v.is_finite() && v.units() != r.units() && #[trigger] gap(x, d, v) == gap(x, d, r)
            ==> r.significand() % 2 == 0
}

/// The magnitude from which on an exact value rounds to infinity: half a
/// step beyond the largest finite magnitude.
pub open spec fn overflow_bound() -> nat {
    0x1ff_ffff * pow2(252)
}

/// Between two neighbouring multiples of a power of two that are a full
/// significand long, or of the unit itself, lies no finite magnitude.
pub proof fn lemma_bracket(v: Scalar, q: nat, g: nat)
    requires
        g == 0 || q >= 0x80_0000,
    ensures
        v.magnitude() <= q * pow2(g) || v.magnitude() >= (q + 1) * pow2(g),
{
    let m = v.significand() as int;
    let s = v.scale();
    let pg = pow2(g) as int;
    lemma_pow2_pos(g);
    lemma_pow2_pos(s);
    if s >= g {
        let j = m * pow2((s - g) as nat);
        lemma_pow2_adds((s - g) as nat, g);
        assert(m * pow2(s) == j * pg) by (nonlinear_arith)
            requires
                pow2(s) == pow2((s - g) as nat) * pg,
                j == m * pow2((s - g) as nat),
        ;
        if j <= q {
            assert(j * pg <= q * pg) by (nonlinear_arith)
                requires
                    j <= q,
                    pg > 0,
            ;
        } else {
            assert(j * pg >= (q + 1) * pg) by (nonlinear_arith)
                requires
                    j >= q + 1,
                    pg > 0,
            ;
        }
    } else {
        let ps = pow2(s) as int;
        let half = pow2((g - 1) as nat) as int;
        lemma_pow2_unfold(g);
        if s < g - 1 {
            lemma_pow2_strictly_increases(s, (g - 1) as nat);
        }
        assert(m * ps <= 0x100_0000 * half) by (nonlinear_arith)
            requires
                0 <= m < 0x100_0000,
                0 < ps <= half,
        ;
        assert(q * pg >= 0x80_0000 * pg) by (nonlinear_arith)
            requires
                q >= 0x80_0000,
                pg > 0,
        ;
    }
}

/// How the distance of a finite scalar from `x / d` stands to a bracket as
/// in `lemma_bracket`: the scalar lies at or beyond one of its two ends.
proof fn lemma_outside_bracket(v: Scalar, d: int, q: nat, g: nat)
    requires
        d > 0,
        g == 0 || q >= 0x80_0000,
    ensures
        ({
            let lo = q * pow2(g) * d;
            let hi = (q + 1) * pow2(g) * d;
            let at = v.magnitude() * d;
            &&& v.units() * d == (if v.sign_bit() {
                -at
            } else {
                at
            })
            &&& 0 <= at
            &&& at == 0 ==> v.magnitude() == 0
            &&& at <= lo || at >= hi
            &&& at == lo ==> v.magnitude() == q * pow2(g)
            &&& at == hi ==> v.magnitude() == (q + 1) * pow2(g)
        }),
{
    lemma_bracket(v, q, g);
    let m = v.magnitude() as int;
    let lo = (q * pow2(g)) as int;
    let hi = ((q + 1) * pow2(g)) as int;
    assert((-m) * d == -(m * d) && 0 <= m * d && (m > 0 ==> m * d > 0)) by (nonlinear_arith)
        requires
            d > 0,
            m >= 0,
    ;
    assert((m < lo ==> m * d < lo * d) && (m > lo ==> m * d > lo * d)) by (nonlinear_arith)
        requires
            d > 0,
    ;
    assert((m < hi ==> m * d < hi * d) && (m > hi ==> m * d > hi * d)) by (nonlinear_arith)
        requires
            d > 0,
    ;
}

/// An exact value that lies between two neighbouring magnitudes as in
/// `lemma_bracket` rounds to the nearer of the two, and from the middle to
/// the one whose significand is even.
pub proof fn lemma_nearest_in_bracket(x: int, d: int, r: Scalar, q: nat, g: nat)
    requires
        d > 0,
        r.is_finite(),
        g == 0 || q >= 0x80_0000,
        ({
            let lo = q * pow2(g) * d;
            let hi = (q + 1) * pow2(g) * d;
            let e = if x < 0 {
                -x
            } else {
                x
            };
            &&& lo <= e <= hi
            &&& x < 0 ==> r.sign_bit()
            &&& x > 0 ==> !r.sign_bit()
            &&& {
                ||| r.magnitude() == q * pow2(g) && (e - lo < hi - e || (e - lo == hi - e
                    && r.significand() % 2 == 0))
                ||| r.magnitude() == (q + 1) * pow2(g) && (hi - e < e - lo || (e - lo == hi - e
                    && r.significand() % 2 == 0))
            }
        }),
    ensures
        nearest(x, d, r),
{
    lemma_outside_bracket(r, d, q, g);
    assert forall|v: Scalar| v.is_finite() implies gap(x, d, r) <= #[trigger] gap(x, d, v) by {
        lemma_outside_bracket(v, d, q, g);
    }
    assert forall|v: Scalar|
        v.is_finite() && v.units() != r.units() && #[trigger] gap(x, d, v) == gap(
            x,
            d,
            r,
        ) implies r.significand() % 2 == 0 by {
        lemma_outside_bracket(v, d, q, g);
    }
}

/// Between two finite scalars whose significands are both even lies a
/// third.
proof fn lemma_between_evens(a: Scalar, b: Scalar)
    requires
        a.is_finite(),
        b.is_finite(),
        a.units() < b.units(),
        a.significand() % 2 == 0,
        b.significand() % 2 == 0,
    ensures
        exists|v: Scalar| v.is_finite() && a.units() < v.units() < b.units(),
{
    lemma_decompose(a);
    lemma_decompose(b);
    lemma2_to64();
    if a.units() < 0 && 0 < b.units() {
        let v = compose(false, 0, 0);
        lemma_compose(false, 0, 0);
        assert(v.magnitude() == 0) by (nonlinear_arith)
            requires
                v.magnitude() == v.significand() * pow2(v.scale()),
                v.significand() == 0,
        ;
        assert(v.is_finite() && a.units() < v.units() < b.units());
    } else {
        // Both lie on one side of zero; `inner` is the one nearer to it.
        let negative = a.units() < 0;
        let inner = if negative {
            b
        } else {
            a
        };
        let outer = if negative {
            a
        } else {
            b
        };
        let m = inner.significand();
        let g = inner.scale();
        let v = compose(negative, m + 1, g);
        lemma_compose(negative, m + 1, g);
        lemma_pow2_pos(g);
        let pg = pow2(g) as int;
        assert((m + 1) * pg == m * pg + pg) by (nonlinear_arith);
        lemma_bracket(outer, m, g);
        if outer.magnitude() == v.magnitude() {
            lemma_magnitude_determines(outer, v);
        }
        assert(v.is_finite() && a.units() < v.units() < b.units());
    }
}

/// An exact value rounds to one value only.
pub proof fn lemma_nearest_unique(x: int, d: int, first: Scalar, second: Scalar)
    requires
        d > 0,
        nearest(x, d, first),
        nearest(x, d, second),
    ensures
        first.units() == second.units(),
{
    if first.units() != second.units() {
        assert(gap(x, d, first) <= gap(x, d, second));
        assert(gap(x, d, second) <= gap(x, d, first));
        let low = if first.units() < second.units() {
            first
        } else {
            second
        };
        let high = if first.units() < second.units() {
            second
        } else {
            first
        };
        lemma_between_evens(low, high);
        let v = choose|v: Scalar| v.is_finite() && low.units() < v.units() < high.units();
        assert(gap(x, d, first) <= gap(x, d, v));
        assert(low.units() * d < v.units() * d < high.units() * d) by (nonlinear_arith)
            requires
                low.units() < v.units() < high.units(),
                d > 0,
        ;
    }
}

/// Whether `r` is what the exact value `x / d`, in units of 2^-149, rounds
/// to: the nearest representable value, with ties going to the even
/// significand, and infinity from the overflow bound on. The sign is that
/// of the exact value, and the sign that `zero_negative` gives where the
/// exact value is zero. `d` is above zero.
pub open spec fn is_rounding(x: int, d: int, zero_negative: bool, r: Scalar) -> bool {
    &&& x != 0 ==> r.sign_bit() == (x < 0)
    &&& x == 0 ==> r.sign_bit() == zero_negative
    &&& if x >= overflow_bound() * d || -x >= overflow_bound() * d {
        r.is_infinite()
    } else {
        nearest(x, d, r)
    }
}

/// An exact value has one rounding only.
pub proof fn lemma_rounding_unique(
    x: int,
    d: int,
    zero_negative: bool,
    first: Scalar,
    second: Scalar,
)
    requires
        d > 0,
        is_rounding(x, d, zero_negative, first),
        is_rounding(x, d, zero_negative, second),
    ensures
        first == second,
{
    if x >= overflow_bound() * d || -x >= overflow_bound() * d {
    } else {
        lemma_nearest_unique(x, d, first, second);
        lemma_magnitude_determines(first, second);
    }
}

/// Zero is the nearest scalar to zero.
pub(crate) proof fn lemma_zero_is_nearest(d: int, r: Scalar)
    requires
        d > 0,
        r.is_zero(),
    ensures
        nearest(0, d, r),
        r.magnitude() == 0,
{
    lemma2_to64();
    assert(r.magnitude() == 0) by (nonlinear_arith)
        requires
            r.magnitude() == r.significand() * pow2(r.scale()),
            r.significand() == 0,
    ;
    assert(0 * pow2(0) * d == 0 && (0 + 1) * pow2(0) * d == d) by (nonlinear_arith)
        requires
            pow2(0) == 1,
    ;
    lemma_nearest_in_bracket(0, d, r, 0, 0);
}

/// Where the scale of a rounded magnitude stands to the largest scale.
pub(crate) proof fn lemma_scale_against_top(g: nat)
    ensures
        g <= 252 ==> pow2(g) <= pow2(252),
        g == 253 ==> pow2(g) == 2 * pow2(252),
        g >= 254 ==> pow2(g) >= 4 * pow2(252),
        pow2(252) > 0,
{
    lemma_pow2_pos(252);
    lemma_pow2_unfold(253);
    lemma_pow2_unfold(254);
    if g < 252 {
        lemma_pow2_strictly_increases(g, 252);
    }
    if g > 254 {
        lemma_pow2_strictly_increases(254, g);
    }
}

/// An exact value `x / d` between `q * 2^g` and the next multiple of `2^g`,
/// with `q` a full significand, rounds to infinity exactly when it has
/// reached the overflow bound; `up` says that it rounds to the upper
/// neighbour.
pub(crate) proof fn lemma_overflow_verdict(x: int, d: int, q: int, g: nat, up: bool)
    requires
        d > 0,
        0x80_0000 <= q < 0x100_0000,
        q * pow2(g) * d <= x <= (q + 1) * pow2(g) * d,
        up ==> 2 * x >= (2 * q + 1) * pow2(g) * d,
        !up ==> 2 * x <= (2 * q + 1) * pow2(g) * d,
        2 * x == (2 * q + 1) * pow2(g) * d ==> (up <==> q % 2 == 1),
    ensures
        (if up && q + 1 == 0x100_0000 {
            g + 1
        } else {
            g
        }) > 253 <==> x >= overflow_bound() * d,
{
    lemma_scale_against_top(g);
    lemma_pow2_pos(g);
    let top = pow2(252) * d;
    let pg = pow2(g) * d;
    let lo = q * pg;
    let hi = (q + 1) * pg;
    let twice_mid = (2 * q + 1) * pg;
    let bound = 0x1ff_ffff * top;
    assert(overflow_bound() * d == bound && q * pow2(g) * d == lo && (q + 1) * pow2(g) * d == hi
        && (2 * q + 1) * pow2(g) * d == twice_mid) by (nonlinear_arith)
        requires
            overflow_bound() == 0x1ff_ffff * pow2(252),
            top == pow2(252) * d,
            pg == pow2(g) * d,
            lo == q * pg,
            hi == (q + 1) * pg,
            twice_mid == (2 * q + 1) * pg,
            bound == 0x1ff_ffff * top,
    ;
    assert(top > 0 && pg > 0 && (pow2(g) <= pow2(252) ==> pg <= top) && (pow2(g) == 2 * pow2(252)
        ==> pg == 2 * top) && (pow2(g) >= 4 * pow2(252) ==> pg >= 4 * top)) by (nonlinear_arith)
        requires
            top == pow2(252) * d,
            pg == pow2(g) * d,
            d > 0,
            pow2(252) > 0,
            pow2(g) > 0,
    ;
    assert(lo <= x <= hi);
    if g <= 252 {
        assert(hi <= 0x100_0000 * top) by (nonlinear_arith)
            requires
                hi == (q + 1) * pg,
                0 <= q + 1 <= 0x100_0000,
                0 < pg <= top,
        ;
        assert(x < bound);
    } else if g == 253 {
        assert(hi == (2 * q + 2) * top && twice_mid == (4 * q + 2) * top && lo == 2 * q * top)
            by (nonlinear_arith)
            requires
                pg == 2 * top,
                lo == q * pg,
                hi == (q + 1) * pg,
                twice_mid == (2 * q + 1) * pg,
        ;
        if q + 1 == 0x100_0000 {
            assert(twice_mid == 2 * bound) by (nonlinear_arith)
                requires
                    twice_mid == (4 * q + 2) * top,
                    q == 0xff_ffff,
                    bound == 0x1ff_ffff * top,
            ;
            assert(up <==> x >= bound);
        } else {
            assert(hi <= 0x1ff_fffe * top) by (nonlinear_arith)
                requires
                    hi == (2 * q + 2) * top,
                    q + 1 < 0x100_0000,
                    top > 0,
            ;
            assert(x < bound);
        }
    } else {
        assert(lo >= 0x80_0000 * (4 * top)) by (nonlinear_arith)
            requires
                lo == q * pg,
                q >= 0x80_0000,
                pg >= 4 * top,
                top > 0,
        ;
        assert(x >= bound);
    }
}

/// The finite scalar with a given sign, significand and scale.
pub(crate) fn pack(negative: bool, significand: u32, scale: u32) -> (r: Scalar)
    requires
        significand < 0x100_0000,
        scale <= 253,
        scale == 0 || significand >= 0x80_0000,
    ensures
        r.is_finite(),
        r.sign_bit() == negative,
        r.significand() == significand,
        r.scale() == scale,
{
    let size: u32 = scale * 0x80_0000 + significand;
    if negative {
        Scalar { bits: 0x8000_0000 + size }
    } else {
        Scalar { bits: size }
    }
}

/// The infinity of a given sign.
pub(crate) fn infinity(negative: bool) -> (r: Scalar)
    ensures
        r.is_infinite(),
        r.sign_bit() == negative,
{
    if negative {
        Scalar { bits: 0xff80_0000 }
    } else {
        Scalar { bits: 0x7f80_0000 }
    }
}

/// What the magnitude `t * 2^s` rounds to, under the given sign.
pub open spec fn rounds_to(negative: bool, t: nat, s: nat, r: Scalar) -> bool {
    let e = t * pow2(s);
    &&& r.sign_bit() == negative
    &&& if e >= overflow_bound() {
        r.is_infinite()
    } else {
        nearest(
            if negative {
                -e
            } else {
                e as int
            },
            1,
            r,
        )
    }
}

/// The rounding of `sign * t * 2^base` is that of the number itself.
pub(crate) proof fn lemma_rounds_to_is_rounding(negative: bool, t: nat, base: nat, total: int, r: Scalar)
    requires
        t > 0,
        rounds_to(negative, t, base, r),
        total == (if negative {
            -(t as int)
        } else {
            t as int
        }) * pow2(base),
    ensures
        forall|zero_negative: bool| is_rounding(total, 1, zero_negative, r),
{
    lemma_pow2_pos(base);
    let pb = pow2(base) as int;
    assert(t * pb > 0 && (-(t as int)) * pb == -(t * pb)) by (nonlinear_arith)
        requires
            t > 0,
            pb > 0,
    ;
}

/// Rounds the magnitude `t * 2^s`, in units of 2^-149, to single precision.
pub(crate) fn round_pack(negative: bool, t: u64, s: u32) -> (r: Scalar)
    requires
        0 < t < 0x100_0000_0000_0000,
        s <= 253,
    ensures
        rounds_to(negative, t as nat, s as nat, r),
{
    let mut k: u32 = 0;
    let mut p: u64 = 1;
    proof {
        lemma2_to64();
    }
    while t / p >= 0x100_0000
        invariant
            p == pow2(k as nat),
            k <= 32,
            0 < p <= 0x1_0000_0000,
            k > 0 ==> t >= 0x80_0000 * p,
            t < 0x100_0000_0000_0000,
        decreases 64 - k,
    {
        proof {
            assert(t >= 0x100_0000 * p) by (nonlinear_arith)
                requires
                    t / p >= 0x100_0000,
                    p > 0,
            ;
            lemma_pow2_unfold((k + 1) as nat);
            lemma2_to64();
            if k > 32 {
                lemma_pow2_strictly_increases(32, k as nat);
            }
            if k < 31 {
                lemma_pow2_strictly_increases(k as nat, 31);
            }
        }
        p = p * 2;
        k = k + 1;
    }
    let q: u64 = t / p;
    let rem: u64 = t % p;
    let ghost e = t * pow2(s as nat);
    let ghost exact: int = if negative {
        -e
    } else {
        e as int
    };
    proof {
        vstd::arithmetic::div_mod::lemma_fundamental_div_mod(t as int, p as int);
        lemma_pow2_pos(s as nat);
        lemma2_to64();
    }
    if k == 0 {
        let mut m: u32 = t as u32;
        let mut scale: u32 = s;
        while m < 0x80_0000 && scale > 0
            invariant
                0 < m < 0x100_0000,
                scale <= 253,
                m * pow2(scale as nat) == e,
            decreases scale,
        {
            proof {
                lemma_pow2_unfold(scale as nat);
                let lower = pow2((scale - 1) as nat) as int;
                assert((2 * m) * lower == m * (2 * lower)) by (nonlinear_arith);
            }
            m = m * 2;
            scale = scale - 1;
        }
        let r = pack(negative, m, scale);
        proof {
            lemma_pow2_pos(scale as nat);
            lemma_scale_against_top(scale as nat);
            let pg = pow2(scale as nat) as int;
            let top = pow2(252) as int;
            assert((m + 1) * pg == m * pg + pg) by (nonlinear_arith);
            assert(m * pg <= 0xff_ffff * (2 * top)) by (nonlinear_arith)
                requires
                    0 < m <= 0xff_ffff,
                    0 < pg <= 2 * top,
            ;
            lemma_nearest_in_bracket(exact, 1, r, m as nat, scale as nat);
        }
        r
    } else {
        let up: bool = 2 * rem > p || (2 * rem == p && q % 2 == 1);
        let g: u32 = s + k;
        proof {
            assert(q >= 0x80_0000) by (nonlinear_arith)
                requires
                    t >= 0x80_0000 * p,
                    t == p * q + rem,
                    0 <= rem < p,
            ;
            lemma_pow2_adds(k as nat, s as nat);
            lemma_pow2_pos(g as nat);
            let ps = pow2(s as nat) as int;
            let pg = pow2(g as nat) as int;
            assert(e == q * pg + rem * ps && (q + 1) * pg == q * pg + p * ps && (2 * q + 1) * pg
                == 2 * (q * pg) + p * ps) by (nonlinear_arith)
                requires
                    e == t * ps,
                    t == p * q + rem,
                    pg == p * ps,
            ;
            assert(rem * ps < p * ps && (2 * rem > p ==> 2 * (rem * ps) > p * ps) && (2 * rem
                == p ==> 2 * (rem * ps) == p * ps) && (2 * rem < p ==> 2 * (rem * ps) < p * ps)
                && rem * ps >= 0) by (nonlinear_arith)
                requires
                    0 <= rem < p,
                    ps > 0,
            ;
            lemma_overflow_verdict(e as int, 1, q as int, g as nat, up);
        }
        let carried: bool = up && q + 1 == 0x100_0000;
        let significand: u32 = if carried {
            0x80_0000
        } else if up {
            (q + 1) as u32
        } else {
            q as u32
        };
        let scale: u32 = if carried {
            g + 1
        } else {
            g
        };
        if scale > 253 {
            infinity(negative)
        } else {
            let r = pack(negative, significand, scale);
            proof {
                let pg = pow2(g as nat) as int;
                if carried {
                    lemma_pow2_unfold((g + 1) as nat);
                    assert(0x80_0000 * (2 * pg) == (q + 1) * pg) by (nonlinear_arith)
                        requires
                            q + 1 == 0x100_0000,
                    ;
                }
                lemma_nearest_in_bracket(exact, 1, r, q as nat, g as nat);
            }
            r
        }
    }
}

/// Whether `r` is what a count becomes as a scalar: the count itself,
/// rounded where it is too long for a significand.
pub open spec fn is_count(n: nat, r: Scalar) -> bool {
    is_rounding((n * unit()) as int, 1, false, r)
}

/// The scalar that a count becomes.
pub open spec fn of_count(n: nat) -> Scalar {
    choose|r: Scalar| is_count(n, r)
}

impl Scalar {
    /// Converts a count to a scalar.
    pub fn from_count(n: u32) -> (r: Scalar)
        ensures
            r == of_count(n as nat),
            r.is_non_negative(),
            n > 0 ==> r.is_positive(),
    {
        let ghost x: int = (n * unit()) as int;
        proof {
            lemma_scale_against_top(149);
            lemma_pow2_pos(149);
            lemma2_to64();
            lemma_pow2_adds(32, 149);
            lemma_pow2_strictly_increases(181, 252);
            assert(0 <= x < overflow_bound() && (n > 0 ==> x >= unit())) by (nonlinear_arith)
                requires
                    x == n * unit(),
                    0 <= n < 0x1_0000_0000,
                    unit() > 0,
                    0x1_0000_0000 * unit() < pow2(252),
                    overflow_bound() == 0x1ff_ffff * pow2(252),
            ;
        }
        let r = if n == 0 {
            let r = Scalar { bits: 0 };
            proof {
                lemma_zero_is_nearest(1, r);
            }
            r
        } else {
            let r = round_pack(false, n as u64, 149);
            proof {
                lemma_rounds_to_is_rounding(false, n as nat, 149, x, r);
                // A count of one or more does not round to zero: one is nearer.
                let one = Scalar { bits: 0x3f80_0000 };
                lemma_pow2_adds(23, 126);
                assert(one.is_finite() && one.units() == unit());
                assert(gap(x, 1, r) <= gap(x, 1, one));
                if r.significand() == 0 {
                    assert(r.magnitude() == 0) by (nonlinear_arith)
                        requires
                            r.magnitude() == r.significand() * pow2(r.scale()),
                            r.significand() == 0,
                    ;
                }
            }
            r
        };
        proof {
            assert(is_count(n as nat, r));
            lemma_rounding_unique(x, 1, false, r, of_count(n as nat));
        }
        r
    }
}

} // verus!
