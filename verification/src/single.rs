//! Single-precision binary numbers, carried as their 32-bit patterns.
//!
//! A pattern has a sign bit, eight exponent bits and twenty-three fraction
//! bits. Every finite value is a whole multiple of 2^-149, so the model counts
//! magnitudes in that unit and all reasoning stays within the integers.

use vstd::prelude::*;
use vstd::arithmetic::div_mod::*;
use vstd::arithmetic::power2::*;

verus! {

/// The pattern's weight of the sign bit.
pub const SIGN: u32 = 0x8000_0000;

/// The pattern's weight of the lowest exponent bit.
pub const HIDDEN: u32 = 0x80_0000;

/// The magnitude bits of both infinities.
pub const INFINITY: u32 = 0x7f80_0000;

/// The pattern returned wherever an operation has no numeric result.
pub const QUIET_NAN: u32 = 0x7fc0_0000;

/// What a pattern stands for.
pub ghost enum Number {
    /// No number at all: the outcome of an undefined operation.
    NotANumber,
    /// An infinity of either sign.
    Infinite { negative: bool },
    /// A finite value of `magnitude` units of 2^-149; zero keeps its sign.
    Finite { negative: bool, magnitude: nat },
}

impl Number {
    /// The signed count of units of a finite number.
    pub open spec fn value(self) -> int
        recommends
            self is Finite,
    {
        match self {
            Number::Finite { negative, magnitude } => if negative {
                -(magnitude as int)
            } else {
                magnitude as int
            },
            _ => 0,
        }
    }

    /// The same number with the opposite sign.
    pub open spec fn negated(self) -> Number {
        match self {
            Number::NotANumber => Number::NotANumber,
            Number::Infinite { negative } => Number::Infinite { negative: !negative },
            Number::Finite { negative, magnitude } => Number::Finite {
                negative: !negative,
                magnitude,
            },
        }
    }
}

/// The integer nearest to `n / d`; of two equally near, the even one.
pub open spec fn nearest_even(n: nat, d: nat) -> nat
    recommends
        d > 0,
{
    let q = n / d;
    let r = n % d;
    if 2 * r < d || (2 * r == d && q % 2 == 0) {
        q
    } else {
        q + 1
    }
}

/// The order of two numbers: strict, and false as soon as either is not a number.
pub open spec fn less(a: Number, b: Number) -> bool {
    match (a, b) {
        (Number::Finite { .. }, Number::Finite { .. }) => a.value() < b.value(),
        (Number::Infinite { negative: true }, Number::Finite { .. }) => true,
        (Number::Infinite { negative: true }, Number::Infinite { negative: false }) => true,
        (Number::Finite { .. }, Number::Infinite { negative: false }) => true,
        _ => false,
    }
}

/// Equality of two numbers: zero equals zero whatever the signs, and what is
/// not a number equals nothing.
pub open spec fn equal(a: Number, b: Number) -> bool {
    match (a, b) {
        (Number::Finite { .. }, Number::Finite { .. }) => a.value() == b.value(),
        (Number::Infinite { negative: s }, Number::Infinite { negative: t }) => s == t,
        _ => false,
    }
}

/// The quotient of a number by `d`, rounded to the nearest unit. With `d` 2 or
/// 4 the units are exactly the values that the format can hold near the
/// quotient, so this is the format's division.
pub open spec fn quotient(a: Number, d: nat) -> Number {
    match a {
        Number::Finite { negative, magnitude } => Number::Finite {
            negative,
            magnitude: nearest_even(magnitude, d),
        },
        _ => a,
    }
}

/// The exponent of the gap between neighbouring values that the format can
/// hold around a magnitude of `n` units: 0 below 2^24, and one more each time
/// the magnitude doubles.
pub open spec fn spacing_exponent(n: nat) -> nat
    decreases n,
{
    if n < 0x100_0000 {
        0
    } else {
        1 + spacing_exponent(n / 2)
    }
}

/// The magnitude nearest to `n` among those with 24 significant bits; of two
/// equally near, the one whose last bit is 0.
pub open spec fn round_even(n: nat) -> nat {
    let u = pow2(spacing_exponent(n));
    nearest_even(n, u) * u
}

/// The least magnitude beyond the format's range, 2^128 in units of 2^-149.
pub open spec fn overflow_threshold() -> nat {
    0x100_0000 * pow2(253)
}

/// The number that the format holds for an exact result of `n` units with the
/// given sign: the nearest magnitude, or infinity where that is out of range.
pub open spec fn rounded(negative: bool, n: nat) -> Number {
    let m = round_even(n);
    if m >= overflow_threshold() {
        Number::Infinite { negative }
    } else {
        Number::Finite { negative, magnitude: m }
    }
}

/// The format's sum. Infinities of opposite sign have none; an exact zero is
/// negative only where both terms are.
pub open spec fn sum(a: Number, b: Number) -> Number {
    match a {
        Number::NotANumber => Number::NotANumber,
        Number::Infinite { negative: s } => match b {
            Number::NotANumber => Number::NotANumber,
            Number::Infinite { negative: t } => if s == t {
                a
            } else {
                Number::NotANumber
            },
            Number::Finite { .. } => a,
        },
        Number::Finite { negative: s, .. } => match b {
            Number::NotANumber => Number::NotANumber,
            Number::Infinite { .. } => b,
            Number::Finite { negative: t, .. } => {
                let v = a.value() + b.value();
                if v == 0 {
                    Number::Finite { negative: s && t, magnitude: 0 }
                } else if v < 0 {
                    rounded(true, (-v) as nat)
                } else {
                    rounded(false, v as nat)
                }
            },
        },
    }
}

/// The format's difference: the sum with the second term negated.
pub open spec fn difference(a: Number, b: Number) -> Number {
    sum(a, b.negated())
}

/// The eight exponent bits of a pattern.
pub open spec fn exponent_field(bits: u32) -> nat {
    ((bits / HIDDEN) % 0x100) as nat
}

/// The twenty-three fraction bits of a pattern.
pub open spec fn fraction_field(bits: u32) -> nat {
    (bits % HIDDEN) as nat
}

/// The magnitude, in units of 2^-149, that an exponent field below 255 and a
/// fraction field stand for.
pub open spec fn magnitude_of(exponent: nat, fraction: nat) -> nat {
    if exponent == 0 {
        fraction
    } else {
        (HIDDEN as nat + fraction) * pow2((exponent - 1) as nat)
    }
}

/// A single-precision number, held as its bit pattern.
#[derive(Clone, Copy, Debug)]
pub struct Single {
    pub bits: u32,
}

impl View for Single {
    type V = Number;

    open spec fn view(&self) -> Number {
        decode(self.bits)
    }
}

/// The number that a pattern stands for. An exponent field of 255 marks what
/// is not finite; any other, with the fraction field, gives the magnitude.
#[verifier::opaque]
pub open spec fn decode(bits: u32) -> Number {
    let e = exponent_field(bits);
    let f = fraction_field(bits);
    let negative = bits >= SIGN;
    if e == 255 {
        if f == 0 {
            Number::Infinite { negative }
        } else {
            Number::NotANumber
        }
    } else {
        Number::Finite { negative, magnitude: magnitude_of(e, f) }
    }
}

/// Magnitudes grow with the exponent field, and within one exponent with the
/// fraction field.
pub proof fn lemma_magnitude_increases(e1: nat, f1: nat, e2: nat, f2: nat)
    requires
        f1 < HIDDEN,
        f2 < HIDDEN,
        e1 < e2 || (e1 == e2 && f1 < f2),
    ensures
        magnitude_of(e1, f1) < magnitude_of(e2, f2),
{
    if e1 == e2 {
        if e1 > 0 {
            let p = pow2((e1 - 1) as nat);
            lemma_pow2_pos((e1 - 1) as nat);
            assert((HIDDEN + f1) * p < (HIDDEN + f2) * p) by (nonlinear_arith)
                requires
                    f1 < f2,
                    p > 0,
            ;
        }
    } else {
        let upper = pow2((e2 - 1) as nat);
        lemma_pow2_pos((e2 - 1) as nat);
        assert(HIDDEN * upper <= (HIDDEN + f2) * upper) by (nonlinear_arith)
            requires
                upper > 0,
        ;
        if e1 == 0 {
            assert(HIDDEN * 1 <= HIDDEN * upper) by (nonlinear_arith)
                requires
                    upper >= 1,
            ;
        } else {
            let lower = pow2((e1 - 1) as nat);
            lemma_pow2_pos((e1 - 1) as nat);
            lemma_pow2_unfold(e1);
            assert(pow2(e1) == 2 * lower);
            if e1 < e2 - 1 {
                lemma_pow2_strictly_increases(e1, (e2 - 1) as nat);
            }
            assert(pow2(e1) <= upper);
            assert((HIDDEN + f1) * lower < HIDDEN * upper) by (nonlinear_arith)
                requires
                    f1 < HIDDEN,
                    lower > 0,
                    2 * lower <= upper,
            ;
        }
    }
}

/// A magnitude between 2^23 and 2^24 gaps of 2^e lies where the gap is 2^e.
pub proof fn lemma_spacing_exponent(n: nat, e: nat)
    requires
        n < 0x100_0000 * pow2(e),
        e > 0 ==> 0x80_0000 * pow2(e) <= n,
    ensures
        spacing_exponent(n) == e,
    decreases e,
{
    lemma2_to64();
    if e > 0 {
        lemma_pow2_unfold(e);
        lemma_pow2_pos((e - 1) as nat);
        lemma_spacing_exponent(n / 2, (e - 1) as nat);
    }
}

/// A whole number of gaps, of at most 24 bits and at home in its binade, is
/// a value of the format: rounding leaves it alone.
pub proof fn lemma_round_exact(m: nat, e: nat)
    requires
        m < 0x100_0000,
        e > 0 ==> m >= 0x80_0000,
    ensures
        spacing_exponent(m * pow2(e)) == e,
        round_even(m * pow2(e)) == m * pow2(e),
{
    let u = pow2(e);
    lemma_pow2_pos(e);
    assert(m * u < 0x100_0000 * u) by (nonlinear_arith)
        requires
            m < 0x100_0000,
            u > 0,
    ;
    if e > 0 {
        assert(0x80_0000 * u <= m * u) by (nonlinear_arith)
            requires
                m >= 0x80_0000,
                u > 0,
        ;
    }
    lemma_spacing_exponent(m * u, e);
    lemma_fundamental_div_mod_converse((m * u) as int, u as int, m as int, 0);
}

/// Rounding a magnitude that lies `r` units above `q` gaps of 2^e, where `q`
/// has exactly 24 significant bits.
pub proof fn lemma_round_split(q: nat, r: nat, e: nat)
    requires
        0x80_0000 <= q < 0x100_0000,
        r < pow2(e),
    ensures
        spacing_exponent(q * pow2(e) + r) == e,
        round_even(q * pow2(e) + r) == (if 2 * r < pow2(e) || (2 * r == pow2(e) && q % 2 == 0) {
            q * pow2(e)
        } else {
            (q + 1) * pow2(e)
        }),
{
    let u = pow2(e);
    let n = q * u + r;
    assert(0x80_0000 * u <= q * u && (q + 1) * u <= 0x100_0000 * u && (q + 1) * u == q * u + u)
        by (nonlinear_arith)
        requires
            0x80_0000 <= q < 0x100_0000,
            u > 0,
    ;
    lemma_spacing_exponent(n, e);
    assert(n == u * q + r) by (nonlinear_arith)
        requires
            n == q * u + r,
    ;
    lemma_fundamental_div_mod_converse(n as int, u as int, q as int, r as int);
}

/// Rounding `q` gaps and `r` units, all counted in steps of 2^e units.
pub proof fn lemma_round_scaled(q: nat, r: nat, k: nat, e: nat)
    requires
        0x80_0000 <= q < 0x100_0000,
        r < pow2(k),
    ensures
        round_even((q * pow2(k) + r) * pow2(e)) == (if 2 * r < pow2(k) || (2 * r == pow2(k) && q % 2
            == 0) {
            q * pow2(k + e)
        } else {
            (q + 1) * pow2(k + e)
        }),
{
    let p = pow2(k);
    let s = pow2(e);
    lemma_pow2_adds(k, e);
    lemma_pow2_pos(e);
    lemma_pow2_pos(k);
    assert((q * p + r) * s == q * (p * s) + r * s) by (nonlinear_arith);
    assert(r * s < p * s) by (nonlinear_arith)
        requires
            r < p,
            s > 0,
    ;
    assert((2 * r < p) == (2 * (r * s) < p * s) && (2 * r == p) == (2 * (r * s) == p * s))
        by (nonlinear_arith)
        requires
            s > 0,
    ;
    lemma_round_split(q, r * s, k + e);
}

/// Which magnitudes of a normalised form are within the format's range.
pub proof fn lemma_threshold(m: nat, e: nat)
    requires
        m <= 0x100_0000,
        e > 0 ==> m >= 0x80_0000,
    ensures
        m * pow2(e) >= overflow_threshold() <==> (e >= 254 || (e == 253 && m == 0x100_0000)),
{
    let u = pow2(e);
    let t = pow2(253);
    lemma_pow2_pos(e);
    lemma_pow2_pos(253);
    if e >= 254 {
        lemma_pow2_unfold(254);
        if e > 254 {
            lemma_pow2_strictly_increases(254, e);
        }
        assert(m * u >= 0x100_0000 * t) by (nonlinear_arith)
            requires
                m >= 0x80_0000,
                u >= 2 * t,
                t > 0,
        ;
    } else if e == 253 {
        assert((m * t >= 0x100_0000 * t) == (m >= 0x100_0000)) by (nonlinear_arith)
            requires
                t > 0,
        ;
    } else {
        lemma_pow2_unfold(253);
        if e < 252 {
            lemma_pow2_strictly_increases(e, 252);
        }
        assert(m * u < 0x100_0000 * t) by (nonlinear_arith)
            requires
                m <= 0x100_0000,
                2 * u <= t,
                u > 0,
        ;
    }
}

/// What the pattern made of a sign, a gap exponent and a normalised whole
/// number of gaps stands for.
pub proof fn lemma_packed_view(negative: bool, m: nat, e: nat)
    requires
        m <= 0x100_0000,
        e > 0 ==> m >= 0x80_0000,
        e * 0x80_0000 + m < 0x7f80_0000,
    ensures
        (Single { bits: ((if negative { SIGN } else { 0u32 }) + e * 0x80_0000 + m) as u32 })@ == (
        Number::Finite { negative, magnitude: m * pow2(e) }),
{
    reveal(decode);
    let sign: u32 = if negative { SIGN } else { 0 };
    let bits: u32 = (sign + e * 0x80_0000 + m) as u32;
    let u = pow2(e);
    lemma2_to64();
    if m < 0x80_0000 {
        assert(exponent_field(bits) == 0);
        assert(fraction_field(bits) == m);
        assert(m * u == m) by (nonlinear_arith)
            requires
                u == 1,
        ;
    } else if m < 0x100_0000 {
        assert(exponent_field(bits) == e + 1);
        assert(fraction_field(bits) == m - 0x80_0000);
    } else {
        assert(exponent_field(bits) == e + 2);
        assert(fraction_field(bits) == 0);
        lemma_pow2_unfold(e + 1);
        assert(0x80_0000 * (2 * u) == 0x100_0000 * u) by (nonlinear_arith);
    }
}

/// A term of less than a quarter of the gap around a normal magnitude is
/// lost in rounding, whether it is added or taken away.
pub proof fn lemma_round_absorbs(m: nat, e: nat, b: nat)
    requires
        0x80_0000 <= m < 0x100_0000,
        e >= 1,
        4 * b < pow2(e),
    ensures
        b < m * pow2(e),
        round_even(m * pow2(e) + b) == m * pow2(e),
        round_even((m * pow2(e) - b) as nat) == m * pow2(e),
{
    let u = pow2(e);
    let v = pow2((e - 1) as nat);
    lemma_pow2_unfold(e);
    lemma_pow2_pos((e - 1) as nat);
    assert(m * u >= u && (m - 1) * u + u == m * u) by (nonlinear_arith)
        requires
            m >= 1,
            u > 0,
    ;
    lemma_round_split(m, b, e);
    if b == 0 {
    } else if m > 0x80_0000 {
        lemma_round_split((m - 1) as nat, (u - b) as nat, e);
    } else {
        assert(m * u == 0xff_ffff * v + v) by (nonlinear_arith)
            requires
                m == 0x80_0000,
                u == 2 * v,
        ;
        lemma_round_split(0xff_ffff, (v - b) as nat, (e - 1) as nat);
        assert((0xff_ffff + 1) * v == m * u) by (nonlinear_arith)
            requires
                m == 0x80_0000,
                u == 2 * v,
        ;
    }
}

/// The gap exponent of a magnitude below 2^(24+e) is at most `e`.
pub proof fn lemma_spacing_bound(n: nat, e: nat)
    requires
        n < 0x100_0000 * pow2(e),
    ensures
        spacing_exponent(n) <= e,
    decreases e,
{
    lemma2_to64();
    if n >= 0x100_0000 {
        lemma_pow2_unfold(e);
        lemma_spacing_bound(n / 2, (e - 1) as nat);
    }
}

/// A whole multiple of 2^g units that does not exceed 2^(24+g) is a value of
/// the format: rounding leaves it alone.
pub proof fn lemma_round_multiple(n: nat, g: nat)
    requires
        n % pow2(g) == 0,
        n <= 0x100_0000 * pow2(g),
    ensures
        round_even(n) == n,
{
    let p = pow2(g);
    lemma_pow2_pos(g);
    if n == 0x100_0000 * p {
        lemma_pow2_unfold(g + 1);
        lemma_round_exact(0x80_0000, g + 1);
        assert(0x80_0000 * (2 * p) == 0x100_0000 * p) by (nonlinear_arith);
    } else {
        lemma_spacing_bound(n, g);
        let k = spacing_exponent(n);
        let u = pow2(k);
        let rest = pow2((g - k) as nat);
        lemma_pow2_pos(k);
        lemma_pow2_adds(k, (g - k) as nat);
        lemma_fundamental_div_mod(n as int, p as int);
        let j = n / p;
        assert(n == (rest * j) * u) by (nonlinear_arith)
            requires
                n == p * j,
                p == u * rest,
        ;
        lemma_fundamental_div_mod_converse(n as int, u as int, (rest * j) as int, 0);
    }
}

/// A number determines its pattern: two patterns that stand for the same
/// number are the same pattern.
pub proof fn lemma_same_number_same_pattern(a: Single, b: Single)
    requires
        a@ == b@,
        !(a@ is NotANumber),
    ensures
        a.bits == b.bits,
{
    reveal(decode);
    let (ea, fa) = (exponent_field(a.bits), fraction_field(a.bits));
    let (eb, fb) = (exponent_field(b.bits), fraction_field(b.bits));
    if ea < eb || (ea == eb && fa < fb) {
        lemma_magnitude_increases(ea, fa, eb, fb);
    }
    if eb < ea || (ea == eb && fb < fa) {
        lemma_magnitude_increases(eb, fb, ea, fa);
    }
}

/// Two to the power `k`.
fn power_of_two(k: u32) -> (r: u64)
    requires
        k <= 62,
    ensures
        r == pow2(k as nat),
{
    let mut r: u64 = 1;
    let mut i: u32 = 0;
    proof {
        lemma2_to64();
    }
    while i < k
        invariant
            i <= k <= 62,
            r == pow2(i as nat),
        decreases k - i,
    {
        proof {
            lemma_pow2_unfold((i + 1) as nat);
            lemma_pow2_strictly_increases((i + 1) as nat, 63);
            lemma2_to64_rest();
        }
        r = r * 2;
        i = i + 1;
    }
    r
}

impl Single {
    /// The number with the given bit pattern.
    pub fn from_bits(bits: u32) -> (r: Single)
        ensures
            r.bits == bits,
    {
        Single { bits }
    }

    /// The bit pattern of the number.
    pub fn to_bits(self) -> (r: u32)
        ensures
            r == self.bits,
    {
        self.bits
    }

    /// Whether the pattern stands for no number.
    pub fn is_nan(self) -> (r: bool)
        ensures
            r == (self@ is NotANumber),
    {
        proof {
            reveal(decode);
        }
        self.bits % SIGN > INFINITY
    }

    /// Whether the pattern stands for an infinity.
    pub fn is_infinite(self) -> (r: bool)
        ensures
            r == (self@ is Infinite),
    {
        proof {
            reveal(decode);
        }
        self.bits % SIGN == INFINITY
    }

    /// The number with the opposite sign.
    pub fn neg(self) -> (r: Single)
        ensures
            r@ == self@.negated(),
    {
        proof {
            reveal(decode);
        }
        if self.bits >= SIGN {
            Single { bits: self.bits - SIGN }
        } else {
            Single { bits: self.bits + SIGN }
        }
    }

    /// The number halved, correctly rounded.
    pub fn half(self) -> (r: Single)
        ensures
            r@ == quotient(self@, 2),
    {
        self.scaled_down(1)
    }

    /// The number quartered, correctly rounded.
    pub fn quarter(self) -> (r: Single)
        ensures
            r@ == quotient(self@, 4),
    {
        self.scaled_down(2)
    }

    /// Division by two (`shift` 1) or by four (`shift` 2).
    fn scaled_down(self, shift: u32) -> (r: Single)
        requires
            1 <= shift <= 2,
        ensures
            r@ == quotient(self@, if shift == 1 { 2nat } else { 4nat }),
    {
        proof {
            reveal(decode);
        }
        let e: u32 = (self.bits / HIDDEN) % 0x100;
        let f: u32 = self.bits % HIDDEN;
        if e == 255 {
            return self;
        }
        let sign: u32 = if self.bits >= SIGN { SIGN } else { 0 };
        let ghost d: nat = if shift == 1 { 2 } else { 4 };
        let ghost whole = HIDDEN as nat + f as nat;
        proof {
            lemma2_to64();
            assert(self.bits == sign + e * HIDDEN + f);
        }
        if e > shift {
            proof {
                let low = pow2((e - shift - 1) as nat);
                lemma_pow2_adds((e - shift - 1) as nat, shift as nat);
                assert(pow2((e - 1) as nat) == low * d);
                assert(whole * (low * d) == d * (whole * low)) by (nonlinear_arith);
                lemma_fundamental_div_mod_converse((d * (whole * low)) as int, d as int, (whole * low) as int, 0);
                assert(nearest_even(magnitude_of(e as nat, f as nat), d) == whole * low);
                lemma_packed_view(self.bits >= SIGN, whole, (e - shift - 1) as nat);
            }
            Single { bits: self.bits - shift * HIDDEN }
        } else {
            let m: u32 = if e == 0 { f } else if e == 1 { HIDDEN + f } else { 2 * (HIDDEN + f) };
            let d: u32 = if shift == 1 { 2 } else { 4 };
            let q: u32 = m / d;
            let rest: u32 = m % d;
            let up: bool = 2 * rest > d || (2 * rest == d && q % 2 == 1);
            let q: u32 = if up { q + 1 } else { q };
            proof {
                assert(whole * pow2(0) == whole) by (nonlinear_arith)
                    requires
                        pow2(0) == 1,
                ;
                assert(whole * pow2(1) == 2 * whole) by (nonlinear_arith)
                    requires
                        pow2(1) == 2,
                ;
                assert(magnitude_of(e as nat, f as nat) == m);
                assert(q as nat * pow2(0) == q) by (nonlinear_arith)
                    requires
                        pow2(0) == 1,
                ;
                lemma_packed_view(self.bits >= SIGN, q as nat, 0);
            }
            Single { bits: sign + q }
        }
    }

    /// The sign, the gap exponent and the whole number of gaps of a finite
    /// number.
    fn parts(self) -> (r: (bool, u32, u64))
        requires
            self@ is Finite,
        ensures
            self@ == (Number::Finite { negative: r.0, magnitude: r.2 as nat * pow2(r.1 as nat) }),
            r.1 <= 253,
            r.2 < 0x100_0000,
            r.1 > 0 ==> r.2 >= 0x80_0000,
    {
        proof {
            reveal(decode);
        }
        let e: u32 = (self.bits / HIDDEN) % 0x100;
        let f: u32 = self.bits % HIDDEN;
        proof {
            lemma2_to64();
            assert(f as nat * pow2(0) == f) by (nonlinear_arith)
                requires
                    pow2(0) == 1,
            ;
        }
        if e == 0 {
            (self.bits >= SIGN, 0, f as u64)
        } else {
            (self.bits >= SIGN, e - 1, (HIDDEN + f) as u64)
        }
    }

    /// A whole number of gaps below 2^24, re-expressed with the smallest gap
    /// exponent that keeps it so.
    fn normalised(m: u64, e: u32) -> (r: (u64, u32))
        requires
            m < 0x100_0000,
        ensures
            r.0 as nat * pow2(r.1 as nat) == m as nat * pow2(e as nat),
            r.0 < 0x100_0000,
            r.1 <= e,
            r.1 > 0 ==> r.0 >= 0x80_0000,
    {
        let mut mantissa: u64 = m;
        let mut exponent: u32 = e;
        while mantissa < 0x80_0000 && exponent > 0
            invariant
                mantissa as nat * pow2(exponent as nat) == m as nat * pow2(e as nat),
                mantissa < 0x100_0000,
                exponent <= e,
            decreases exponent,
        {
            proof {
                lemma_pow2_unfold(exponent as nat);
                assert((2 * mantissa) as nat * pow2((exponent - 1) as nat) == mantissa as nat * (2
                    * pow2((exponent - 1) as nat))) by (nonlinear_arith);
            }
            mantissa = 2 * mantissa;
            exponent = exponent - 1;
        }
        (mantissa, exponent)
    }

    /// The leading 24 bits of `m`, and the gap that they are counted in, as
    /// an exponent and as a number.
    fn leading(m: u64) -> (r: (u64, u32, u64))
        requires
            0x100_0000 <= m < 0x4_0000_0000_0000,
        ensures
            r.2 == pow2(r.1 as nat),
            r.2 > 0,
            1 <= r.1 <= 26,
            r.0 == m / r.2,
            0x80_0000 <= r.0 < 0x100_0000,
    {
        let mut mantissa: u64 = m;
        let mut gap: u64 = 1;
        let mut shift: u32 = 0;
        proof {
            lemma2_to64();
        }
        while mantissa >= 0x100_0000
            invariant
                gap == pow2(shift as nat),
                0x100_0000 <= m < 0x4_0000_0000_0000,
                mantissa == m / gap,
                gap > 0,
                gap * mantissa <= m,
                shift <= 26,
                shift == 0 ==> mantissa == m,
                mantissa >= 0x80_0000,
            decreases mantissa,
        {
            proof {
                lemma2_to64();
                assert(gap < 0x400_0000) by (nonlinear_arith)
                    requires
                        gap * mantissa <= m,
                        mantissa >= 0x100_0000,
                        m < 0x4_0000_0000_0000,
                ;
                if shift > 26 {
                    lemma_pow2_strictly_increases(26, shift as nat);
                }
                assert(shift < 26);
                lemma_pow2_unfold((shift + 1) as nat);
                let wide: int = gap * 2;
                let whole: int = m as int;
                lemma_div_denominator(whole, gap as int, 2);
                lemma_fundamental_div_mod(whole, wide);
                lemma_mod_bound(whole, wide);
                assert(wide * (whole / wide) <= whole) by (nonlinear_arith)
                    requires
                        whole == wide * (whole / wide) + whole % wide,
                        whole % wide >= 0,
                ;
            }
            mantissa = mantissa / 2;
            gap = gap * 2;
            shift = shift + 1;
        }
        (mantissa, shift, gap)
    }

    /// The number of the given sign nearest to `m` gaps of 2^e units.
    fn pack(negative: bool, m: u64, e: u32) -> (r: Single)
        requires
            m < 0x4_0000_0000_0000,
            e <= 253,
        ensures
            r@ == rounded(negative, m as nat * pow2(e as nat)),
    {
        proof {
            reveal(decode);
        }
        let sign: u32 = if negative { SIGN } else { 0 };
        let ghost n = m as nat * pow2(e as nat);
        let mantissa: u64;
        let exponent: u32;
        if m < 0x100_0000 {
            let (whole, gap) = Self::normalised(m, e);
            mantissa = whole;
            exponent = gap;
            proof {
                lemma_round_exact(mantissa as nat, exponent as nat);
            }
        } else {
            let (whole, shift, gap) = Self::leading(m);
            let rest: u64 = m % gap;
            let half: u64 = gap / 2;
            let up: bool = rest > half || (rest == half && whole % 2 == 1);
            proof {
                lemma_fundamental_div_mod(m as int, gap as int);
                lemma_mod_bound(m as int, gap as int);
                lemma_pow2_unfold(shift as nat);
                lemma_round_scaled(whole as nat, rest as nat, shift as nat, e as nat);
                assert(n == (whole as nat * pow2(shift as nat) + rest as nat) * pow2(e as nat))
                    by (nonlinear_arith)
                    requires
                        n == m as nat * pow2(e as nat),
                        m == gap * whole + rest,
                        gap == pow2(shift as nat),
                ;
            }
            mantissa = if up { whole + 1 } else { whole };
            exponent = e + shift;
        }
        proof {
            assert(round_even(n) == mantissa as nat * pow2(exponent as nat));
            lemma_threshold(mantissa as nat, exponent as nat);
        }
        let magnitude_bits: u64 = exponent as u64 * 0x80_0000 + mantissa;
        if magnitude_bits >= 0x7f80_0000 {
            Single { bits: sign + INFINITY }
        } else {
            proof {
                lemma_packed_view(negative, mantissa as nat, exponent as nat);
            }
            Single { bits: sign + magnitude_bits as u32 }
        }
    }

    /// The sum of two finite numbers given by their parts, the first with the
    /// larger gap.
    fn add_aligned(sa: bool, ea: u32, ma: u64, sb: bool, eb: u32, mb: u64) -> (r: Single)
        requires
            eb <= ea <= 253,
            ma < 0x100_0000,
            mb < 0x100_0000,
            ea > 0 ==> ma >= 0x80_0000,
        ensures
            r@ == sum(
                Number::Finite { negative: sa, magnitude: ma as nat * pow2(ea as nat) },
                Number::Finite { negative: sb, magnitude: mb as nat * pow2(eb as nat) },
            ),
    {
        proof {
            reveal(decode);
        }
        let ghost a = ma as nat * pow2(ea as nat);
        let ghost b = mb as nat * pow2(eb as nat);
        let distance: u32 = ea - eb;
        proof {
            lemma_pow2_adds(eb as nat, distance as nat);
            lemma_pow2_pos(eb as nat);
            lemma_pow2_pos(distance as nat);
            lemma2_to64();
        }
        if distance >= 26 {
            proof {
                if distance > 26 {
                    lemma_pow2_strictly_increases(26, distance as nat);
                }
                assert(4 * b < pow2(ea as nat)) by (nonlinear_arith)
                    requires
                        b == mb as nat * pow2(eb as nat),
                        mb < 0x100_0000,
                        pow2(ea as nat) == pow2(eb as nat) * pow2(distance as nat),
                        pow2(distance as nat) >= 0x400_0000,
                        pow2(eb as nat) > 0,
                ;
                lemma_round_absorbs(ma as nat, ea as nat, b);
                lemma_round_exact(ma as nat, ea as nat);
            }
            return Self::pack(sa, ma, ea);
        }
        let scale: u64 = power_of_two(distance);
        proof {
            if distance < 25 {
                lemma_pow2_strictly_increases(distance as nat, 25);
            }
            assert(ma * scale <= 0xff_ffff * 0x200_0000) by (nonlinear_arith)
                requires
                    ma <= 0xff_ffff,
                    scale <= 0x200_0000,
            ;
        }
        let big: u64 = ma * scale;
        proof {
            assert(big as nat * pow2(eb as nat) == a) by (nonlinear_arith)
                requires
                    big == ma * scale,
                    a == ma as nat * pow2(ea as nat),
                    pow2(ea as nat) == pow2(eb as nat) * scale,
            ;
            assert((big + mb) as nat * pow2(eb as nat) == a + b && (big - mb) * pow2(eb as nat) == a
                - b && (mb - big) * pow2(eb as nat) == b - a && (big > mb) == (a > b) && (big < mb)
                == (a < b)) by (nonlinear_arith)
                requires
                    big as nat * pow2(eb as nat) == a,
                    mb as nat * pow2(eb as nat) == b,
                    pow2(eb as nat) > 0,
            ;
            assert(0 * pow2(eb as nat) == 0);
        }
        let ghost x = Number::Finite { negative: sa, magnitude: a };
        let ghost y = Number::Finite { negative: sb, magnitude: b };
        if sa == sb {
            proof {
                lemma_round_exact(0, 0);
                lemma_threshold(0, 0);
                assert(round_even(0) == 0);
                assert(sum(x, y) == rounded(sa, a + b));
            }
            Self::pack(sa, big + mb, eb)
        } else if big > mb {
            proof {
                assert(sum(x, y) == rounded(sa, (a - b) as nat));
                assert((big - mb) as nat * pow2(eb as nat) == (a - b) as nat);
            }
            Self::pack(sa, big - mb, eb)
        } else if big < mb {
            proof {
                assert(sum(x, y) == rounded(sb, (b - a) as nat));
                assert((mb - big) as nat * pow2(eb as nat) == (b - a) as nat);
            }
            Self::pack(sb, mb - big, eb)
        } else {
            proof {
                assert(sum(x, y) == Number::Finite { negative: false, magnitude: 0 });
                assert(exponent_field(0) == 0 && fraction_field(0) == 0);
            }
            Single { bits: 0 }
        }
    }

    /// The sum, correctly rounded. Where there is none, the result is not a
    /// number; which pattern of that kind is left open.
    pub fn add(self, other: Single) -> (r: Single)
        ensures
            r@ == sum(self@, other@),
    {
        proof {
            reveal(decode);
        }
        if self.is_nan() || other.is_nan() {
            return Single { bits: QUIET_NAN };
        }
        if self.is_infinite() {
            if other.is_infinite() && (self.bits >= SIGN) != (other.bits >= SIGN) {
                return Single { bits: QUIET_NAN };
            }
            return self;
        }
        if other.is_infinite() {
            return other;
        }
        let (sa, ea, ma) = self.parts();
        let (sb, eb, mb) = other.parts();
        if ea >= eb {
            Self::add_aligned(sa, ea, ma, sb, eb, mb)
        } else {
            Self::add_aligned(sb, eb, mb, sa, ea, ma)
        }
    }

    /// The difference, correctly rounded.
    pub fn sub(self, other: Single) -> (r: Single)
        ensures
            r@ == difference(self@, other@),
    {
        self.add(other.neg())
    }

    /// Strict order, as the format defines it: zero of either sign equals
    /// zero, and nothing is below or above what is not a number.
    pub fn lt(self, other: Single) -> (r: bool)
        ensures
            r == less(self@, other@),
    {
        proof {
            reveal(decode);
        }
        if self.is_nan() || other.is_nan() {
            return false;
        }
        let a: u32 = self.bits % SIGN;
        let b: u32 = other.bits % SIGN;
        proof {
            let (ea, fa) = (exponent_field(self.bits), fraction_field(self.bits));
            let (eb, fb) = (exponent_field(other.bits), fraction_field(other.bits));
            assert(a == ea * HIDDEN + fa);
            assert(b == eb * HIDDEN + fb);
            if ea < eb || (ea == eb && fa < fb) {
                lemma_magnitude_increases(ea, fa, eb, fb);
            }
            if eb < ea || (ea == eb && fb < fa) {
                lemma_magnitude_increases(eb, fb, ea, fa);
            }
            if ea > 0 {
                lemma_pow2_pos((ea - 1) as nat);
                assert((HIDDEN + fa) * pow2((ea - 1) as nat) > 0) by (nonlinear_arith)
                    requires
                        pow2((ea - 1) as nat) > 0,
                ;
            }
            if eb > 0 {
                lemma_pow2_pos((eb - 1) as nat);
                assert((HIDDEN + fb) * pow2((eb - 1) as nat) > 0) by (nonlinear_arith)
                    requires
                        pow2((eb - 1) as nat) > 0,
                ;
            }
        }
        if self.bits >= SIGN {
            if other.bits >= SIGN {
                b < a
            } else {
                a != 0 || b != 0
            }
        } else {
            if other.bits >= SIGN {
                false
            } else {
                a < b
            }
        }
    }
}

} // verus!
