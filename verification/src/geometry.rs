//! Regions as sets of points, and the splits that lose nothing to rounding.
//!
//! The tree computes the centres and shapes of quadrants in the arithmetic of
//! the format, which rounds. Where no rounding occurs, a quadrant is exactly
//! a quarter of its parent, and the routing of a point agrees with the
//! regions as sets: that is what this file states and proves.

use vstd::prelude::*;
use vstd::arithmetic::div_mod::*;
use vstd::arithmetic::power2::*;
use crate::octree::{child_center, child_shape, pair, quadrant, Pair};
use crate::single::{
    decode, difference, exponent_field, fraction_field, lemma_round_multiple, less, quotient, sum, Number,
    Single,
};

verus! {

/// Whether `x` lies in the interval of width `w` centred at `c`. The lower
/// end belongs to the interval; the upper end only where `closed` says so.
pub open spec fn within(c: Number, w: Number, x: Number, closed: bool) -> bool {
    &&& c is Finite
    &&& w is Finite
    &&& x is Finite
    &&& 2 * c.value() - w.value() <= 2 * x.value()
    &&& if closed {
        2 * x.value() <= 2 * c.value() + w.value()
    } else {
        2 * x.value() < 2 * c.value() + w.value()
    }
}

/// Whether the region with the given centre and shape holds `point`, with or
/// without its east and south edges.
pub open spec fn holds(center: Pair, shape: Pair, point: Pair, closed: bool) -> bool {
    within(center.0, shape.0, point.0, closed) && within(center.1, shape.1, point.1, closed)
}

/// Whether an interval splits without rounding: a quarter of its width is a
/// whole number of units, and the centres of both halves are values of the
/// format.
pub open spec fn splits_exactly(c: Number, w: Number) -> bool {
    &&& c is Finite
    &&& w is Finite
    &&& w->magnitude % 4 == 0
    &&& sum(c, quotient(w, 4)) is Finite
    &&& 4 * sum(c, quotient(w, 4)).value() == 4 * c.value() + w.value()
    &&& difference(c, quotient(w, 4)) is Finite
    &&& 4 * difference(c, quotient(w, 4)).value() == 4 * c.value() - w.value()
}

/// Whether the region, its quadrants and theirs split without rounding,
/// `levels` levels down.
pub open spec fn exact_to(center: Pair, shape: Pair, levels: nat) -> bool
    decreases levels,
{
    levels == 0 || {
        &&& splits_exactly(center.0, shape.0)
        &&& splits_exactly(center.1, shape.1)
        &&& forall|q: int|
            0 <= q < 4 ==> exact_to(
                #[trigger] child_center(center, shape, q),
                child_shape(shape),
                (levels - 1) as nat,
            )
    }
}

/// Half of a width that quarters without remainder.
pub proof fn lemma_half_width(w: Number)
    requires
        w is Finite,
        w->magnitude % 4 == 0,
    ensures
        quotient(w, 2) is Finite,
        2 * quotient(w, 2).value() == w.value(),
        quotient(w, 4) is Finite,
        4 * quotient(w, 4).value() == w.value(),
{
}

/// On one axis, the half that a point of the interval is routed to holds the
/// point.
pub proof fn lemma_axis_step(c: Number, w: Number, x: Number, closed: bool)
    requires
        splits_exactly(c, w),
        within(c, w, x, closed),
    ensures
        within(
            if less(x, c) {
                difference(c, quotient(w, 4))
            } else {
                sum(c, quotient(w, 4))
            },
            quotient(w, 2),
            x,
            closed,
        ),
{
    lemma_half_width(w);
}

/// On one axis, a point of the low half is below the centre, and a point of
/// the high half is not.
pub proof fn lemma_axis_side(c: Number, w: Number, x: Number, high: bool)
    requires
        splits_exactly(c, w),
        within(
            if high {
                sum(c, quotient(w, 4))
            } else {
                difference(c, quotient(w, 4))
            },
            quotient(w, 2),
            x,
            false,
        ),
    ensures
        less(x, c) == !high,
{
    lemma_half_width(w);
}

/// On one axis, the two halves tile the interval: a point lies in a half
/// exactly if it lies in the interval and on that side of the centre.
pub proof fn lemma_axis_halves(c: Number, w: Number, x: Number, high: bool)
    requires
        splits_exactly(c, w),
    ensures
        within(
            if high {
                sum(c, quotient(w, 4))
            } else {
                difference(c, quotient(w, 4))
            },
            quotient(w, 2),
            x,
            false,
        ) <==> within(c, w, x, false) && less(x, c) == !high,
{
    lemma_half_width(w);
    if within(c, w, x, false) {
        lemma_axis_step(c, w, x, false);
    }
}

/// The four quadrants tile the region, with no gap and no overlap: a point
/// lies in quadrant `q` exactly if it lies in the region and is routed to
/// `q`. Regions are taken without their east and south edges.
pub proof fn lemma_quadrants_tile(center: Pair, shape: Pair, point: Pair, q: int)
    requires
        0 <= q < 4,
        splits_exactly(center.0, shape.0),
        splits_exactly(center.1, shape.1),
    ensures
        holds(child_center(center, shape, q), child_shape(shape), point, false) <==> holds(
            center,
            shape,
            point,
            false,
        ) && q == quadrant(point, center),
{
    lemma_axis_halves(center.0, shape.0, point.0, q % 2 != 0);
    lemma_axis_halves(center.1, shape.1, point.1, q >= 2);
}

/// The quadrant that a point of a region is routed to holds the point.
pub proof fn lemma_quadrant_holds(center: Pair, shape: Pair, point: Pair, closed: bool)
    requires
        splits_exactly(center.0, shape.0),
        splits_exactly(center.1, shape.1),
        holds(center, shape, point, closed),
    ensures
        holds(child_center(center, shape, quadrant(point, center)), child_shape(shape), point, closed),
{
    lemma_axis_step(center.0, shape.0, point.0, closed);
    lemma_axis_step(center.1, shape.1, point.1, closed);
}

/// Quadrants do not overlap: the only one that holds a point, edges left
/// out, is the one that the point is routed to.
pub proof fn lemma_holding_quadrant(center: Pair, shape: Pair, point: Pair, q: int)
    requires
        0 <= q < 4,
        splits_exactly(center.0, shape.0),
        splits_exactly(center.1, shape.1),
        holds(child_center(center, shape, q), child_shape(shape), point, false),
    ensures
        q == quadrant(point, center),
{
    lemma_axis_side(center.0, shape.0, point.0, q % 2 != 0);
    lemma_axis_side(center.1, shape.1, point.1, q >= 2);
}

/// Whether an interval lies on a grid fine enough for `levels` exact splits:
/// its centre is a whole multiple of 2^g units, its width a whole multiple of
/// 2^(g+levels+1) and not negative, and nothing in it exceeds 2^(24+g).
pub open spec fn on_grid(c: Number, w: Number, g: nat, levels: nat) -> bool {
    &&& c is Finite
    &&& w is Finite
    &&& w matches Number::Finite { negative: false, .. }
    &&& g <= 252
    &&& c->magnitude % pow2(g) == 0
    &&& w->magnitude % pow2(g + levels + 1) == 0
    &&& 2 * c->magnitude + w->magnitude <= 2 * (0x100_0000 * pow2(g))
}

/// Half of a multiple of 2^(k+1) is a multiple of 2^k.
pub proof fn lemma_half_multiple(m: nat, k: nat)
    requires
        m % pow2(k + 1) == 0,
    ensures
        m % 2 == 0,
        (m / 2) % pow2(k) == 0,
{
    let p = pow2(k);
    lemma_pow2_pos(k);
    lemma_pow2_unfold(k + 1);
    lemma_fundamental_div_mod(m as int, (2 * p) as int);
    let j = m / (2 * p);
    assert(m == 2 * (j * p)) by (nonlinear_arith)
        requires
            m == (2 * p) * j,
    ;
    lemma_fundamental_div_mod_converse((m / 2) as int, p as int, j as int, 0);
}

/// A multiple of 2^(k+extra) is a multiple of 2^k.
pub proof fn lemma_coarser_multiple(m: nat, k: nat, extra: nat)
    requires
        m % pow2(k + extra) == 0,
    ensures
        m % pow2(k) == 0,
{
    let p = pow2(k);
    let e = pow2(extra);
    lemma_pow2_pos(k);
    lemma_pow2_pos(extra);
    lemma_pow2_adds(k, extra);
    lemma_pow2_pos(k + extra);
    lemma_fundamental_div_mod(m as int, (p * e) as int);
    let j = m / (p * e);
    assert(m == (e * j) * p) by (nonlinear_arith)
        requires
            m == (p * e) * j,
    ;
    lemma_fundamental_div_mod_converse(m as int, p as int, (e * j) as int, 0);
}

/// Sums and differences of multiples are multiples.
pub proof fn lemma_multiples_combine(a: nat, b: nat, p: nat)
    requires
        p > 0,
        a % p == 0,
        b % p == 0,
    ensures
        (a + b) % p == 0,
        a >= b ==> (a - b) % (p as int) == 0,
{
    lemma_fundamental_div_mod(a as int, p as int);
    lemma_fundamental_div_mod(b as int, p as int);
    let x = a / p;
    let y = b / p;
    assert(a + b == (x + y) * p && a - b == (x - y) * p) by (nonlinear_arith)
        requires
            a == p * x,
            b == p * y,
    ;
    lemma_fundamental_div_mod_converse((a + b) as int, p as int, (x + y) as int, 0);
    if a >= b {
        assert(x >= y) by (nonlinear_arith)
            requires
                p * x >= p * y,
                p > 0,
        ;
        lemma_fundamental_div_mod_converse((a - b) as int, p as int, (x - y) as int, 0);
    }
}

/// The sum of a grid point and a grid step, both finite and small enough, is
/// exact.
pub proof fn lemma_grid_sum(c: Number, d: Number, g: nat)
    requires
        c is Finite,
        d is Finite,
        g <= 252,
        c->magnitude % pow2(g) == 0,
        d->magnitude % pow2(g) == 0,
        c->magnitude + d->magnitude <= 0x100_0000 * pow2(g),
    ensures
        sum(c, d) is Finite,
        sum(c, d).value() == c.value() + d.value(),
        sum(c, d)->magnitude % pow2(g) == 0,
{
    let p = pow2(g);
    let v = c.value() + d.value();
    lemma_pow2_pos(g);
    lemma_multiples_combine(c->magnitude, d->magnitude, p);
    lemma_multiples_combine(d->magnitude, c->magnitude, p);
    if v != 0 {
        let n: nat = if v < 0 {
            (-v) as nat
        } else {
            v as nat
        };
        assert(n % p == 0);
        lemma_round_multiple(n, g);
        lemma_pow2_strictly_increases(g, 253);
        assert(n < 0x100_0000 * pow2(253)) by (nonlinear_arith)
            requires
                n <= 0x100_0000 * p,
                p < pow2(253),
        ;
    }
}

/// An interval on a grid splits exactly, and both halves are on the grid
/// with one level less to go.
pub proof fn lemma_grid_splits(c: Number, w: Number, g: nat, levels: nat)
    requires
        on_grid(c, w, g, levels),
        levels >= 1,
    ensures
        splits_exactly(c, w),
        on_grid(sum(c, quotient(w, 4)), quotient(w, 2), g, (levels - 1) as nat),
        on_grid(difference(c, quotient(w, 4)), quotient(w, 2), g, (levels - 1) as nat),
{
    let m = w->magnitude;
    lemma_half_multiple(m, g + levels);
    lemma_half_multiple(m / 2, (g + levels - 1) as nat);
    assert(m / 2 / 2 == m / 4);
    lemma_coarser_multiple(m / 4, g, (levels - 1) as nat);
    let d = quotient(w, 4);
    assert(d == Number::Finite { negative: false, magnitude: m / 4 });
    assert(quotient(w, 2) == Number::Finite { negative: false, magnitude: m / 2 });
    lemma_grid_sum(c, d, g);
    lemma_grid_sum(c, d.negated(), g);
}

/// A region on a grid splits exactly as many levels down as the grid allows.
pub proof fn lemma_grid_exact(center: Pair, shape: Pair, gx: nat, gy: nat, levels: nat)
    requires
        on_grid(center.0, shape.0, gx, levels),
        on_grid(center.1, shape.1, gy, levels),
    ensures
        exact_to(center, shape, levels),
    decreases levels,
{
    if levels > 0 {
        lemma_grid_splits(center.0, shape.0, gx, levels);
        lemma_grid_splits(center.1, shape.1, gy, levels);
        assert forall|q: int| 0 <= q < 4 implies exact_to(
            #[trigger] child_center(center, shape, q),
            child_shape(shape),
            (levels - 1) as nat,
        ) by {
            lemma_grid_exact(child_center(center, shape, q), child_shape(shape), gx, gy, (levels - 1) as nat);
        }
    }
}

/// The pattern of one half.
pub const HALF: u32 = 0x3f00_0000;

/// The pattern of one.
pub const ONE: u32 = 0x3f80_0000;

/// The unit square, centred at a half and one wide and high, splits exactly
/// 23 levels down.
pub proof fn lemma_unit_square_exact(levels: nat)
    requires
        levels <= 23,
    ensures
        exact_to(
            pair((Single { bits: HALF }, Single { bits: HALF })),
            pair((Single { bits: ONE }, Single { bits: ONE })),
            levels,
        ),
{
    reveal(decode);
    let c = (Single { bits: HALF })@;
    let w = (Single { bits: ONE })@;
    let p = pow2(125);
    assert(exponent_field(HALF) == 126 && fraction_field(HALF) == 0);
    assert(exponent_field(ONE) == 127 && fraction_field(ONE) == 0);
    assert(c == Number::Finite { negative: false, magnitude: 0x80_0000 * p });
    assert(w == Number::Finite { negative: false, magnitude: 0x80_0000 * pow2(126) });
    lemma_pow2_pos(125);
    lemma_pow2_unfold(126);
    lemma2_to64();
    lemma_fundamental_div_mod_converse((0x80_0000 * p) as int, p as int, 0x80_0000, 0);
    let fine = pow2(126 + levels);
    let coarse = pow2((23 - levels) as nat);
    lemma_pow2_pos(126 + levels);
    lemma_pow2_adds(126 + levels, (23 - levels) as nat);
    lemma_pow2_adds(23, 126);
    assert(126 + levels + (23 - levels) == 149);
    assert(0x80_0000 * pow2(126) == coarse * fine) by (nonlinear_arith)
        requires
            pow2(23) == 0x80_0000,
            pow2(149) == pow2(23) * pow2(126),
            pow2(149) == fine * coarse,
    ;
    lemma_fundamental_div_mod_converse((coarse * fine) as int, fine as int, coarse as int, 0);
    assert(125 + levels + 1 == 126 + levels);
    assert(on_grid(c, w, 125, levels));
    lemma_grid_exact((c, c), (w, w), 125, 125, levels);
}

} // verus!
