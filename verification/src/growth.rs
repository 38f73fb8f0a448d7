//! Scaling of whole counts by a binary64 factor, in exact integers.
//!
//! A factor is held as the bit pattern of an IEEE 754 binary64 number. A product
//! of a count and it is exact where it is a whole number, however large, and is
//! otherwise the truncated binary64 one, rounding included. Both are computed and
//! specified here over the integers.
use vstd::arithmetic::div_mod::*;
use vstd::arithmetic::mul::*;
use vstd::arithmetic::power2::*;
use vstd::prelude::*;

verus! {

/// Number of low binary digits of `n` that a 53-bit significand cannot hold.
pub open spec fn excess(n: nat) -> nat
    decreases n,
{
    if n < 0x20_0000_0000_0000 {
        0
    } else {
        1 + excess(n / 2)
    }
}

/// `n` rounded to 53 significant binary digits, to nearest, ties to even.
pub open spec fn nearest(n: nat) -> nat {
    let unit = pow2(excess(n));
    let below = n / unit * unit;
    let rest = n % unit;
    if 2 * rest < unit || (2 * rest == unit && n / unit % 2 == 0) {
        below
    } else {
        below + unit
    }
}

/// The whole part of `n * 2^exponent`.
pub open spec fn shifted(n: nat, exponent: int) -> nat {
    if exponent >= 0 {
        n * pow2(exponent as nat)
    } else {
        n / pow2((-exponent) as nat)
    }
}

/// Whether `n * 2^exponent` is a whole number.
pub open spec fn is_multiple(n: nat, exponent: int) -> bool {
    exponent >= 0 || n % pow2((-exponent) as nat) == 0
}

/// A binary64 number, held as its IEEE 754 bit pattern.
#[derive(Clone, Copy, Debug)]
pub struct GrowthFactor {
    bits: u64,
}

impl PartialEq for GrowthFactor {
    /// Equality of the numbers: NaN equals nothing, the two zeros are equal.
    fn eq(&self, other: &GrowthFactor) -> (r: bool) {
        let left: u64 = self.bits % 0x8000_0000_0000_0000;
        let right: u64 = other.bits % 0x8000_0000_0000_0000;
        left <= 0x7ff0_0000_0000_0000 && right <= 0x7ff0_0000_0000_0000 && (self.bits == other.bits
            || (left == 0 && right == 0))
    }
}

impl vstd::std_specs::cmp::PartialEqSpecImpl for GrowthFactor {
    open spec fn obeys_eq_spec() -> bool {
        true
    }

    open spec fn eq_spec(&self, other: &GrowthFactor) -> bool {
        &&& !self.is_nan()
        &&& !other.is_nan()
        &&& self@ == other@ || (self.is_zero() && other.is_zero())
    }
}

impl View for GrowthFactor {
    type V = u64;

    closed spec fn view(&self) -> u64 {
        self.bits
    }
}

impl GrowthFactor {
    /// Whether the sign bit is set.
    pub open spec fn negative(self) -> bool {
        self@ >= 0x8000_0000_0000_0000
    }

    /// The biased exponent.
    pub open spec fn exponent_field(self) -> nat {
        self@ as nat / 0x10_0000_0000_0000 % 0x800
    }

    /// The stored fraction digits.
    pub open spec fn fraction(self) -> nat {
        self@ as nat % 0x10_0000_0000_0000
    }

    /// Whether the number is neither infinite nor NaN.
    pub open spec fn finite(self) -> bool {
        self.exponent_field() < 0x7ff
    }

    /// Whether the bit pattern stands for no number.
    pub open spec fn is_nan(self) -> bool {
        !self.finite() && self.fraction() != 0
    }

    /// Whether the number is zero, of either sign.
    pub open spec fn is_zero(self) -> bool {
        self.exponent_field() == 0 && self.fraction() == 0
    }

    /// The magnitude of a finite number is `significand * 2^exponent`.
    pub open spec fn significand(self) -> nat {
        if self.exponent_field() == 0 {
            self.fraction()
        } else {
            self.fraction() + 0x10_0000_0000_0000
        }
    }

    /// The magnitude of a finite number is `significand * 2^exponent`.
    pub open spec fn exponent(self) -> int {
        if self.exponent_field() == 0 {
            -1074
        } else {
            self.exponent_field() - 1075
        }
    }

    /// The magnitude of the product of `count` and a finite factor as a whole
    /// count: the product itself where it is whole, else the whole part of the
    /// product rounded to 53 significant binary digits.
    pub open spec fn magnitude(self, count: nat) -> nat {
        let product = count * self.significand();
        if is_multiple(product, self.exponent()) {
            shifted(product, self.exponent())
        } else {
            shifted(nearest(product), self.exponent())
        }
    }

    /// The product of `count` and the factor as a whole count; negative products
    /// count as zero. `None` when the product is NaN or leaves the range of
    /// binary64 numbers.
    pub open spec fn times(self, count: nat) -> Option<nat> {
        if !self.finite() || self.magnitude(count) >= pow2(1024) {
            None
        } else if self.negative() {
            Some(0)
        } else {
            Some(self.magnitude(count))
        }
    }
}

/// Powers of two below `2^128`.
fn two_to(k: u32) -> (r: u128)
    requires
        k < 128,
    ensures
        r == pow2(k as nat),
{
    let mut r: u128 = 1;
    let mut i: u32 = 0;
    proof {
        lemma2_to64();
    }
    while i < k
        invariant
            i <= k < 128,
            r == pow2(i as nat),
        decreases k - i,
    {
        proof {
            lemma_pow2_unfold((i + 1) as nat);
            lemma_below_128((i + 1) as nat);
        }
        r = r * 2;
        i = i + 1;
    }
    r
}

/// Powers of two below `2^128` fit a `u128`.
proof fn lemma_below_128(k: nat)
    requires
        k < 128,
    ensures
        2 * pow2(k) <= 0x1_0000_0000_0000_0000_0000_0000_0000_0000,
{
    lemma2_to64();
    lemma_pow2_adds(64, 64);
    assert(pow2(64) == 0x1_0000_0000_0000_0000);
    lemma_pow2_unfold((k + 1) as nat);
    if k + 1 < 128 {
        lemma_pow2_strictly_increases((k + 1) as nat, 128);
    }
}

/// Halving repeatedly: dividing by `2^k` and then by two.
proof fn lemma_halve(n: nat, k: nat)
    ensures
        n / pow2(k) / 2 == n / pow2(k + 1),
{
    lemma_pow2_pos(k);
    lemma_pow2_unfold(k + 1);
    lemma_div_denominator(n as int, pow2(k) as int, 2);
    lemma_mul_is_commutative(pow2(k) as int, 2);
}

/// `n`, rounded to 53 significant binary digits: these digits, and the power of
/// two that they count.
fn digits(n: u128) -> (r: (u64, u32))
    requires
        n < 0x8000_0000_0000_0000_0000_0000_0000_0000,
    ensures
        nearest(n as nat) == r.0 * pow2(r.1 as nat),
        r.0 <= 0x20_0000_0000_0000,
        r.1 == excess(n as nat),
        r.1 < 128,
{
    let mut top: u128 = n;
    let mut unit: u128 = 1;
    let mut k: u32 = 0;
    proof {
        lemma2_to64();
    }
    while top >= 0x20_0000_0000_0000
        invariant
            n < 0x8000_0000_0000_0000_0000_0000_0000_0000,
            unit == pow2(k as nat),
            1 <= unit,
            unit == 1 || unit <= n,
            top as nat == n as nat / pow2(k as nat),
            excess(n as nat) == k + excess(top as nat),
            k < 128,
        decreases top,
    {
        proof {
            lemma_halve(n as nat, k as nat);
            lemma_pow2_unfold((k + 1) as nat);
            lemma_pow2_pos(k as nat);
            // 2^k * 2^53 <= n bounds the unit.
            lemma_fundamental_div_mod(n as int, unit as int);
            assert(unit * 0x20_0000_0000_0000 <= unit * (n as int / unit as int))
                by (nonlinear_arith)
                requires
                    n as int / unit as int >= 0x20_0000_0000_0000,
                    unit >= 0,
            ;
            assert(n as int % unit as int >= 0);
            if k + 1 >= 128 {
                lemma_from_128(n, (k + 1) as nat);
            }
        }
        top = top / 2;
        unit = unit * 2;
        k = k + 1;
    }
    let rest: u128 = n % unit;
    proof {
        lemma_unit(n as nat);
        assert((top + 1) * unit == top * unit + unit) by (nonlinear_arith);
    }
    if 2 * rest < unit || (2 * rest == unit && top % 2 == 0) {
        (top as u64, k)
    } else {
        (top as u64 + 1, k)
    }
}

/// The rounding unit against the number it rounds.
proof fn lemma_unit(n: nat)
    ensures
        pow2(excess(n)) >= 1,
        n < 0x20_0000_0000_0000 ==> pow2(excess(n)) == 1,
        n >= 0x20_0000_0000_0000 ==> pow2(excess(n)) * 0x10_0000_0000_0000 <= n,
        n < pow2(excess(n)) * 0x20_0000_0000_0000,
    decreases n,
{
    lemma2_to64();
    if n >= 0x20_0000_0000_0000 {
        lemma_unit(n / 2);
        lemma_pow2_unfold(excess(n));
    }
}

/// Rounding moves a number by at most one part in `2^53`.
proof fn lemma_nearest_close(n: nat)
    ensures
        (n - nearest(n)) * 0x20_0000_0000_0000 <= n,
        (nearest(n) - n) * 0x20_0000_0000_0000 <= n,
{
    let unit = pow2(excess(n));
    lemma_unit(n);
    lemma_fundamental_div_mod(n as int, unit as int);
    lemma_mul_is_commutative(unit as int, n as int / unit as int);
    assert(n as int % unit as int >= 0);
}

/// Shifting up past `2^1024` is decided on the unshifted number.
proof fn lemma_overflow(p: nat, s: nat)
    requires
        s <= 1024,
    ensures
        p * pow2(s) >= pow2(1024) <==> p >= pow2((1024 - s) as nat),
{
    lemma_pow2_adds((1024 - s) as nat, s);
    lemma_pow2_pos(s);
    let q = pow2((1024 - s) as nat);
    let u = pow2(s);
    assert(p * u >= q * u <==> p >= q) by (nonlinear_arith)
        requires
            u > 0,
    ;
}

/// Every `u128` is below the powers of two from `2^128` on.
proof fn lemma_from_128(p: u128, k: nat)
    requires
        k >= 128,
    ensures
        p < pow2(k),
{
    lemma_below_128(127);
    lemma_pow2_unfold(128);
    lemma2_to64();
    lemma_pow2_adds(64, 64);
    if k > 128 {
        lemma_pow2_strictly_increases(128, k);
    }
}

/// `product * 2^up`, at most `u128::MAX`.
fn shift_up(product: u128, up: u32) -> (r: u128)
    ensures
        r == if product * pow2(up as nat) < u128::MAX {
            product * pow2(up as nat)
        } else {
            u128::MAX as int
        },
{
    proof {
        lemma_pow2_pos(up as nat);
    }
    if product == 0 {
        0
    } else if up >= 128 {
        proof {
            lemma_from_128(u128::MAX, up as nat);
            assert(product * pow2(up as nat) >= pow2(up as nat)) by (nonlinear_arith)
                requires
                    product >= 1,
            ;
        }
        u128::MAX
    } else {
        match product.checked_mul(two_to(up)) {
            Some(w) => w,
            None => u128::MAX,
        }
    }
}

/// The whole part of `product / 2^down`.
fn shift_down(product: u128, down: u32) -> (r: u128)
    ensures
        r == product as nat / pow2(down as nat),
        r <= product,
{
    proof {
        lemma_pow2_pos(down as nat);
        lemma_div_nonincreasing(product as int, pow2(down as nat) as int);
    }
    if down >= 128 {
        proof {
            lemma_from_128(product, down as nat);
            lemma_basic_div(product as int, pow2(down as nat) as int);
        }
        0
    } else {
        product / two_to(down)
    }
}

impl GrowthFactor {
    /// The factor with the given binary64 bit pattern.
    pub fn from_bits(bits: u64) -> (r: GrowthFactor)
        ensures
            r@ == bits,
    {
        GrowthFactor { bits }
    }

    /// The binary64 bit pattern of the factor.
    pub fn to_bits(&self) -> (r: u64)
        ensures
            r == self@,
    {
        self.bits
    }

    /// The product of `n` and the factor as a whole count, at most `u128::MAX`;
    /// `None` when it is NaN or leaves the range of binary64 numbers.
    pub(crate) fn scale(&self, n: u128) -> (r: Option<u128>)
        requires
            n < 0x1_0000_0000_0000_0000 * 1_000_000_000,
        ensures
            r is None <==> self.times(n as nat) is None,
            r matches Some(w) ==> {
                let exact = self.times(n as nat)->0;
                w == if exact < u128::MAX { exact } else { u128::MAX as nat }
            },
    {
        let field: u64 = self.bits / 0x10_0000_0000_0000 % 0x800;
        let fraction: u64 = self.bits % 0x10_0000_0000_0000;
        if field == 0x7ff {
            return None;
        }
        let significand: u64 = if field == 0 {
            fraction
        } else {
            fraction + 0x10_0000_0000_0000
        };
        let (high, low) = wide_product(n, significand);
        let whole: u128 = if field >= 1075 {
            let up: u32 = (field - 1075) as u32;
            proof {
                lemma_overflow(wide(high, low), up as nat);
            }
            if reaches(high, low, 1024 - up) {
                return None;
            }
            wide_shift_up(high, low, up)
        } else {
            let down: u32 = if field == 0 {
                1074
            } else {
                (1075 - field) as u32
            };
            proof {
                lemma_wide_is_small(high, low, down as nat);
            }
            if wide_is_multiple(high, low, down) {
                wide_shift_down(high, low, down)
            } else {
                let (count, k) = wide_digits(high, low);
                proof {
                    lemma_shifted_unit(count as nat, k as nat, -down);
                }
                if k >= down {
                    shift_up(count as u128, k - down)
                } else {
                    shift_down(count as u128, down - k)
                }
            }
        };
        if self.bits >= 0x8000_0000_0000_0000 {
            Some(0)
        } else {
            Some(whole)
        }
    }
}

/// A number in two parts, the lower one of 64 binary digits.
spec fn wide(high: u128, low: u64) -> nat {
    (high * 0x1_0000_0000_0000_0000 + low) as nat
}

/// The product of a span's nanoseconds and a significand.
fn wide_product(n: u128, significand: u64) -> (r: (u128, u64))
    requires
        n < 0x1_0000_0000_0000_0000 * 1_000_000_000,
        significand < 0x20_0000_0000_0000,
    ensures
        wide(r.0, r.1) == n * significand,
        r.0 < 0x10_0000_0000_0000_0000_0000,
{
    let top: u128 = n / 0x1_0000_0000_0000_0000;
    let rest: u128 = n % 0x1_0000_0000_0000_0000;
    let factor: u128 = significand as u128;
    assert(top * factor <= 1_000_000_000 * 0x20_0000_0000_0000) by (nonlinear_arith)
        requires
            top <= 1_000_000_000,
            factor <= 0x20_0000_0000_0000,
    ;
    assert(rest * factor <= 0x1_0000_0000_0000_0000 * 0x20_0000_0000_0000) by (nonlinear_arith)
        requires
            rest <= 0x1_0000_0000_0000_0000,
            factor <= 0x20_0000_0000_0000,
    ;
    let upper: u128 = top * factor;
    let lower: u128 = rest * factor;
    assert(n * factor == upper * 0x1_0000_0000_0000_0000 + lower) by (nonlinear_arith)
        requires
            n == top * 0x1_0000_0000_0000_0000 + rest,
            upper == top * factor,
            lower == rest * factor,
    ;
    (upper + lower / 0x1_0000_0000_0000_0000, (lower % 0x1_0000_0000_0000_0000) as u64)
}

/// Whether a number in two parts is at least `2^k`.
fn reaches(high: u128, low: u64, k: u32) -> (r: bool)
    ensures
        r == (wide(high, low) >= pow2(k as nat)),
{
    proof {
        lemma2_to64();
    }
    if k >= 192 {
        proof {
            lemma_from_128(high, (k - 64) as nat);
            lemma_pow2_adds((k - 64) as nat, 64);
        }
        false
    } else if k >= 64 {
        proof {
            lemma_pow2_adds((k - 64) as nat, 64);
        }
        high >= two_to(k - 64)
    } else {
        proof {
            lemma_pow2_strictly_increases(k as nat, 64);
        }
        high > 0 || low as u128 >= two_to(k)
    }
}

/// `2^up` times a number in two parts, at most `u128::MAX`.
fn wide_shift_up(high: u128, low: u64, up: u32) -> (r: u128)
    ensures
        r == if wide(high, low) * pow2(up as nat) < u128::MAX {
            wide(high, low) * pow2(up as nat)
        } else {
            u128::MAX as nat
        },
{
    if high < 0x1_0000_0000_0000_0000 {
        shift_up(high * 0x1_0000_0000_0000_0000 + low as u128, up)
    } else {
        proof {
            lemma_pow2_pos(up as nat);
            assert(wide(high, low) * pow2(up as nat) >= wide(high, low)) by (nonlinear_arith)
                requires
                    pow2(up as nat) >= 1,
            ;
        }
        u128::MAX
    }
}

/// A number in two parts, divided by a power of two.
proof fn lemma_wide_division(high: u128, low: u64, down: nat)
    ensures
        down <= 64 ==> wide(high, low) / pow2(down) == high * pow2((64 - down) as nat) + low as nat
            / pow2(down),
        down <= 64 ==> wide(high, low) % pow2(down) == low as nat % pow2(down),
        down > 64 ==> wide(high, low) / pow2(down) == high as nat / pow2((down - 64) as nat),
        down > 64 ==> (wide(high, low) % pow2(down) == 0 <==> low == 0 && high as nat % pow2(
            (down - 64) as nat,
        ) == 0),
{
    let all = wide(high, low) as int;
    let unit = pow2(down) as int;
    lemma2_to64();
    lemma_pow2_pos(down);
    if down <= 64 {
        let up = pow2((64 - down) as nat) as int;
        lemma_pow2_adds((64 - down) as nat, down);
        lemma_fundamental_div_mod(low as int, unit);
        assert(all == (high * up + low as int / unit) * unit + low as int % unit)
            by (nonlinear_arith)
            requires
                all == high * (up * unit) + low,
                low as int == unit * (low as int / unit) + low as int % unit,
        ;
        lemma_fundamental_div_mod_converse(
            all,
            unit,
            high * up + low as int / unit,
            low as int % unit,
        );
    } else {
        let over = pow2((down - 64) as nat) as int;
        lemma_pow2_adds(64, (down - 64) as nat);
        lemma_pow2_pos((down - 64) as nat);
        let word: int = 0x1_0000_0000_0000_0000;
        assert(all / word == high && all % word == low);
        lemma_div_denominator(all, word, over);
        lemma_breakdown(all, word, over);
        assert(high as int % over >= 0);
    }
}

/// Whether a number in two parts is a multiple of `2^down`.
fn wide_is_multiple(high: u128, low: u64, down: u32) -> (r: bool)
    ensures
        r == (wide(high, low) % pow2(down as nat) == 0),
{
    proof {
        lemma_wide_division(high, low, down as nat);
        lemma_pow2_pos(down as nat);
    }
    if down <= 64 {
        low as u128 % two_to(down) == 0
    } else if down < 192 {
        proof {
            lemma_pow2_pos((down - 64) as nat);
        }
        low == 0 && high % two_to(down - 64) == 0
    } else {
        proof {
            lemma_from_128(high, (down - 64) as nat);
            lemma_small_mod(high as nat, pow2((down - 64) as nat));
        }
        low == 0 && high == 0
    }
}

/// The whole part of a number in two parts divided by `2^down`, at most
/// `u128::MAX`.
fn wide_shift_down(high: u128, low: u64, down: u32) -> (r: u128)
    ensures
        r == if wide(high, low) / pow2(down as nat) < u128::MAX {
            wide(high, low) / pow2(down as nat)
        } else {
            u128::MAX as nat
        },
{
    proof {
        lemma_wide_division(high, low, down as nat);
    }
    if down <= 64 {
        let rest: u128 = shift_down(low as u128, down);
        match shift_up(high, 64 - down).checked_add(rest) {
            Some(w) => w,
            None => u128::MAX,
        }
    } else {
        shift_down(high, down - 64)
    }
}

/// Digits below the lost ones are lost too.
proof fn lemma_excess_wide(high: nat, low: nat, k: nat)
    requires
        high >= 0x10_0000_0000_0000,
        low < pow2(k),
    ensures
        excess(high * pow2(k) + low) == k + excess(high),
    decreases k,
{
    lemma2_to64();
    if k == 0 {
        lemma_mul_basics(high as int);
    } else {
        let below = pow2((k - 1) as nat);
        lemma_pow2_unfold(k);
        lemma_pow2_pos((k - 1) as nat);
        let all = high * pow2(k) + low;
        assert(high * (2 * below) == 2 * (high * below)) by (nonlinear_arith);
        assert(high * below >= high) by (nonlinear_arith)
            requires
                below >= 1,
        ;
        assert(all / 2 == high * below + low / 2);
        lemma_excess_wide(high, low / 2, (k - 1) as nat);
    }
}

/// For rounding, the lower part of a large number is as good as one digit that
/// says whether it is zero.
proof fn lemma_nearest_wide(high: u128, low: u64)
    requires
        high >= 0x4000_0000_0000_0000,
    ensures
        ({
            let short = (2 * high + if low == 0 {
                0int
            } else {
                1
            }) as nat;
            &&& excess(wide(high, low)) == excess(short) + 63
            &&& nearest(wide(high, low)) == nearest(short) * pow2(63)
        }),
{
    let digit: int = if low == 0 {
        0
    } else {
        1
    };
    let short = (2 * high + digit) as nat;
    let all = wide(high, low);
    let word: int = 0x1_0000_0000_0000_0000;
    lemma2_to64();
    lemma2_to64_rest();
    lemma_excess_wide(high as nat, low as nat, 64);
    assert(short / 2 == high as nat);
    assert(excess(short) == 1 + excess(high as nat));
    let lost = excess(high as nat);
    lemma_unit(high as nat);
    assert(lost >= 1);
    let unit = pow2(lost) as int;
    let half = pow2((lost - 1) as nat) as int;
    lemma_pow2_unfold(lost);
    lemma_pow2_unfold(lost + 1);
    lemma_pow2_adds(64, lost);
    let count = high as int / unit;
    let rest = high as int % unit;
    assert(all as int / word == high && all as int % word == low);
    lemma_div_denominator(all as int, word, unit);
    lemma_breakdown(all as int, word, unit);
    lemma_div_denominator(short as int, 2, unit);
    lemma_breakdown(short as int, 2, unit);
    assert(all as int / (word * unit) == count && all as int % (word * unit) == word * rest + low);
    assert(short as int / (2 * unit) == count && short as int % (2 * unit) == 2 * rest + digit);
    assert(unit == 2 * half);
    assert(2 * (word * rest + low) < word * unit <==> rest < half);
    assert(2 * (2 * rest + digit) < 2 * unit <==> rest < half);
    assert(2 * (word * rest + low) == word * unit <==> rest == half && low == 0);
    assert(2 * (2 * rest + digit) == 2 * unit <==> rest == half && low == 0);
    assert(pow2(lost + 64) == word * unit);
    assert(pow2(lost + 1) == 2 * unit);
    assert(count * (word * unit) == count * (2 * unit) * 0x8000_0000_0000_0000) by (nonlinear_arith)
        requires
            word == 2 * 0x8000_0000_0000_0000,
    ;
}

/// A number in two parts, rounded to 53 significant binary digits: these digits,
/// and the power of two that they count.
fn wide_digits(high: u128, low: u64) -> (r: (u64, u32))
    requires
        high < 0x10_0000_0000_0000_0000_0000,
    ensures
        nearest(wide(high, low)) == r.0 * pow2(r.1 as nat),
        r.0 <= 0x20_0000_0000_0000,
        r.1 == excess(wide(high, low)),
        r.1 < 256,
{
    if high < 0x4000_0000_0000_0000 {
        digits(high * 0x1_0000_0000_0000_0000 + low as u128)
    } else {
        let (count, k) = digits(
            2 * high + if low == 0 {
                0
            } else {
                1
            },
        );
        proof {
            lemma_nearest_wide(high, low);
            lemma_pow2_adds(k as nat, 63);
            lemma_mul_is_associative(count as int, pow2(k as nat) as int, pow2(63) as int);
        }
        (count, k + 63)
    }
}

/// A product divided by a power of two stays in the range of binary64 numbers.
proof fn lemma_wide_is_small(high: u128, low: u64, down: nat)
    requires
        high < 0x10_0000_0000_0000_0000_0000,
    ensures
        wide(high, low) / pow2(down) < pow2(1024),
        nearest(wide(high, low)) / pow2(down) < pow2(1024),
{
    let all = wide(high, low);
    lemma2_to64();
    lemma_pow2_adds(64, 64);
    lemma_pow2_adds(128, 64);
    lemma_pow2_strictly_increases(192, 1024);
    lemma_nearest_close(all);
    lemma_pow2_pos(down);
    lemma_div_nonincreasing(all as int, pow2(down) as int);
    lemma_div_nonincreasing(nearest(all) as int, pow2(down) as int);
}

/// A power of two moves between a number and its exponent.
proof fn lemma_shifted_unit(p: nat, k: nat, exponent: int)
    ensures
        shifted(p * pow2(k), exponent) == shifted(p, exponent + k),
{
    let unit = pow2(k);
    lemma_pow2_pos(k);
    if exponent >= 0 {
        lemma_pow2_adds(k, exponent as nat);
        lemma_mul_is_associative(p as int, unit as int, pow2(exponent as nat) as int);
    } else {
        let down = (-exponent) as nat;
        lemma_pow2_pos(down);
        if exponent + k >= 0 {
            let left = (k - down) as nat;
            lemma_pow2_adds(left, down);
            lemma_mul_is_associative(p as int, pow2(left) as int, pow2(down) as int);
            lemma_div_by_multiple((p * pow2(left)) as int, pow2(down) as int);
        } else {
            let left = (down - k) as nat;
            lemma_pow2_adds(k, left);
            lemma_pow2_pos(left);
            lemma_div_denominator((p * unit) as int, unit as int, pow2(left) as int);
            lemma_div_by_multiple(p as int, unit as int);
        }
    }
}

impl GrowthFactor {
    /// Whether the factor is a number of at least one.
    pub open spec fn at_least_one(self) -> bool {
        0x3ff0_0000_0000_0000 <= self@ <= 0x7ff0_0000_0000_0000
    }

    /// Whether the factor is the whole number `k`.
    pub open spec fn is_whole(self, k: nat) -> bool {
        &&& !self.negative()
        &&& self.finite()
        &&& if self.exponent() >= 0 {
            k == self.significand() * pow2(self.exponent() as nat)
        } else {
            self.significand() == k * pow2((-self.exponent()) as nat)
        }
    }

    /// A factor of at least one shrinks no count.
    pub proof fn lemma_times_grows(self, count: nat)
        requires
            self.at_least_one(),
        ensures
            self.times(count) matches Some(w) ==> count <= w,
    {
        let significand = self.significand();
        let product = count * significand;
        if self.finite() {
            if self.exponent() >= 0 {
                let up = pow2(self.exponent() as nat);
                lemma_pow2_pos(self.exponent() as nat);
                assert(count <= count * significand * up) by (nonlinear_arith)
                    requires
                        significand >= 1,
                        up >= 1,
                ;
            } else {
                let down = (-self.exponent()) as nat;
                let unit = pow2(down);
                lemma2_to64_rest();
                lemma_pow2_pos(down);
                if down < 52 {
                    lemma_pow2_strictly_increases(down, 52);
                }
                assert(pow2(52) == 0x10_0000_0000_0000);
                lemma_div_by_multiple(count as int, unit as int);
                if product % unit == 0 {
                    assert(count * unit <= product) by (nonlinear_arith)
                        requires
                            unit <= significand,
                            product == count * significand,
                    ;
                    lemma_div_is_ordered((count * unit) as int, product as int, unit as int);
                } else {
                    lemma_mod_multiples_basic(count as int, unit as int);
                    assert(significand >= unit + 1);
                    lemma_nearest_close(product);
                    assert(product * 1 < count * 0x20_0000_0000_0000 || count == 0)
                        by (nonlinear_arith)
                        requires
                            product == count * significand,
                            significand < 0x20_0000_0000_0000,
                    ;
                    assert(count * unit + count <= product) by (nonlinear_arith)
                        requires
                            unit + 1 <= significand,
                            product == count * significand,
                    ;
                    lemma_div_is_ordered(
                        (count * unit) as int,
                        nearest(product) as int,
                        unit as int,
                    );
                }
            }
        }
    }

    /// What a factor makes of a count is their product: exactly where that is a
    /// whole number, else to within one, and one part in `2^53`.
    pub proof fn lemma_magnitude_is_the_product(self, count: nat)
        ensures
            ({
                let product = count * self.significand();
                let whole = self.magnitude(count);
                if self.exponent() >= 0 {
                    whole == product * pow2(self.exponent() as nat)
                } else {
                    let unit = pow2((-self.exponent()) as nat);
                    &&& product % unit == 0 ==> whole * unit == product
                    &&& whole * unit * 0x20_0000_0000_0000 <= product * 0x20_0000_0000_0001
                    &&& (whole + 1) * unit * 0x20_0000_0000_0000 > product * 0x1f_ffff_ffff_ffff
                }
            }),
    {
        let product = count * self.significand();
        let whole = self.magnitude(count);
        if self.exponent() < 0 {
            let unit = pow2((-self.exponent()) as nat);
            lemma_pow2_pos((-self.exponent()) as nat);
            lemma_nearest_close(product);
            let divided = if product % unit == 0 {
                product
            } else {
                nearest(product)
            };
            lemma_fundamental_div_mod(divided as int, unit as int);
            lemma_mul_is_commutative(unit as int, whole as int);
            lemma_mul_is_distributive_add_other_way(unit as int, whole as int, 1);
            assert(divided as int % unit as int >= 0);
        }
    }

    /// A whole factor multiplies exactly.
    pub proof fn lemma_times_whole(self, k: nat, count: nat)
        requires
            self.is_whole(k),
        ensures
            self.times(count) == if count * k < pow2(1024) {
                Some(count * k)
            } else {
                None
            },
    {
        if self.exponent() >= 0 {
            lemma_mul_is_associative(
                count as int,
                self.significand() as int,
                pow2(self.exponent() as nat) as int,
            );
        } else {
            let unit = pow2((-self.exponent()) as nat);
            lemma_pow2_pos((-self.exponent()) as nat);
            lemma_mul_is_associative(count as int, k as int, unit as int);
            lemma_mod_multiples_basic((count * k) as int, unit as int);
            lemma_div_by_multiple((count * k) as int, unit as int);
        }
    }
}

/// A factor is read as IEEE 754 says: a sign, eleven digits of exponent, 52 of
/// fraction.
pub proof fn factors_are_binary64(factor: GrowthFactor)
    ensures
        ({
            let bits = factor@ as nat;
            let field = bits / 0x10_0000_0000_0000 % 0x800;
            let fraction = bits % 0x10_0000_0000_0000;
            &&& factor.negative() <==> bits >= 0x8000_0000_0000_0000
            &&& factor.finite() <==> field != 0x7ff
            &&& factor.is_nan() <==> field == 0x7ff && fraction != 0
            &&& factor.is_zero() <==> field == 0 && fraction == 0
            &&& field == 0 ==> factor.significand() == fraction && factor.exponent() == -1074
            &&& field != 0 ==> factor.significand() == 0x10_0000_0000_0000 + fraction
                && factor.exponent() == field - 1075
        }),
{
}

/// Factors compare as numbers: NaN equals nothing, the two zeros are equal, and
/// other numbers equal themselves alone.
pub proof fn factors_compare_as_numbers(left: GrowthFactor, right: GrowthFactor)
    ensures
        ({
            let a = left@ % 0x8000_0000_0000_0000;
            let b = right@ % 0x8000_0000_0000_0000;
            let equal = vstd::std_specs::cmp::PartialEqSpec::eq_spec(&left, &right);
            &&& a > 0x7ff0_0000_0000_0000 || b > 0x7ff0_0000_0000_0000 ==> !equal
            &&& a == 0 && b == 0 ==> equal
            &&& a <= 0x7ff0_0000_0000_0000 && b <= 0x7ff0_0000_0000_0000 && (a != 0 || b != 0)
                ==> (equal <==> left@ == right@)
        }),
{
}

/// Rounding keeps 53 significant binary digits: it takes a number to the nearest
/// multiple of the power of two that leaves as many, and from halfway to the even
/// one.
pub proof fn rounding_is_to_nearest_even(n: nat)
    ensures
        ({
            let unit = pow2(excess(n));
            let count = nearest(n) / unit;
            &&& n < unit * 0x20_0000_0000_0000
            &&& unit == 1 || unit * 0x10_0000_0000_0000 <= n
            &&& nearest(n) == count * unit
            &&& 2 * (n - nearest(n)) <= unit
            &&& 2 * (nearest(n) - n) <= unit
            &&& 2 * (n - nearest(n)) == unit || 2 * (nearest(n) - n) == unit ==> count % 2 == 0
        }),
{
    let unit = pow2(excess(n));
    let below = n / unit;
    lemma_unit(n);
    lemma_fundamental_div_mod(n as int, unit as int);
    lemma_mul_is_commutative(unit as int, below as int);
    assert(n as int % unit as int >= 0);
    assert((below + 1) * unit == below * unit + unit) by (nonlinear_arith);
    lemma_div_by_multiple(below as int, unit as int);
    lemma_div_by_multiple((below + 1) as int, unit as int);
    assert(n < 0x20_0000_0000_0000 ==> unit == 1);
}

/// A product that is no whole number is rounded as a binary64 product is, and what
/// is left of a whole number is dropped.
pub proof fn other_products_are_rounded_and_truncated(factor: GrowthFactor, count: nat)
    ensures
        factor.exponent() < 0 ==> {
            let product = count * factor.significand();
            let unit = pow2((-factor.exponent()) as nat);
            product % unit != 0 ==> factor.magnitude(count) * unit <= nearest(product) < (
            factor.magnitude(count) + 1) * unit
        },
{
    if factor.exponent() < 0 {
        let product = count * factor.significand();
        let unit = pow2((-factor.exponent()) as nat);
        lemma_pow2_pos((-factor.exponent()) as nat);
        let whole = nearest(product) / unit;
        lemma_fundamental_div_mod(nearest(product) as int, unit as int);
        lemma_mul_is_commutative(unit as int, whole as int);
        lemma_mul_is_distributive_add_other_way(unit as int, whole as int, 1);
        assert(nearest(product) as int % unit as int >= 0);
    }
}

/// A product is none where the factor is no finite number or it leaves the range of
/// binary64 numbers, nothing where it is negative, and its magnitude elsewhere.
pub proof fn products_have_a_sign_and_a_range(factor: GrowthFactor, count: nat)
    ensures
        ({
            let bits = factor@ % 0x8000_0000_0000_0000;
            &&& bits >= 0x7ff0_0000_0000_0000 ==> factor.times(count) is None
            &&& bits < 0x7ff0_0000_0000_0000 ==> (factor.times(count) is None
                <==> factor.magnitude(count) >= pow2(1024))
            &&& factor.times(count) matches Some(w) ==> w == if factor@ < 0x8000_0000_0000_0000 {
                factor.magnitude(count)
            } else {
                0
            }
        }),
{
}

} // verus!
