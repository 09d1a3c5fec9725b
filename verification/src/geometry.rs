//! Distances between points with integer coordinates.
//!
//! The distance between two points is their Euclidean distance, counted in
//! millionths of a unit and rounded up to a whole number of them. Rounding up
//! keeps the triangle inequality exact, which is what the search relies on.

use vstd::prelude::*;
use crate::isqrt::{
    ceil_sqrt, ceil_sqrt_u128, lemma_ceil_sqrt, lemma_ceil_sqrt_at_most, lemma_ceil_sqrt_is,
    lemma_square_monotonic,
};

verus! {

/// The number of distance units in one coordinate unit.
pub const SCALE: u128 = 1_000_000;

/// `SCALE` squared.
pub const SCALE_SQUARED: u128 = 1_000_000_000_000;

/// No two points with `i32` coordinates are farther apart than this.
pub const MAX_DISTANCE: u128 = 8_589_934_592_000_000;

/// The square of the Euclidean distance between `p` and `q`.
pub open spec fn squared_distance(p: (i32, i32), q: (i32, i32)) -> nat {
    let dx: int = p.0 - q.0;
    let dy: int = p.1 - q.1;
    (dx * dx + dy * dy) as nat
}

/// The Euclidean distance between `p` and `q` in units of `1 / SCALE`,
/// rounded up: the least `d` with `d * d >= SCALE * SCALE * |p - q|^2`.
pub open spec fn scaled_distance(p: (i32, i32), q: (i32, i32)) -> nat {
    ceil_sqrt(SCALE_SQUARED as nat * squared_distance(p, q))
}

/// The squared distance is the sum of the squared coordinate differences.
pub proof fn lemma_squared_distance(p: (i32, i32), q: (i32, i32))
    ensures
        squared_distance(p, q) == (p.0 - q.0) * (p.0 - q.0) + (p.1 - q.1) * (p.1 - q.1),
{
    let dx: int = p.0 - q.0;
    let dy: int = p.1 - q.1;
    assert(dx * dx >= 0) by (nonlinear_arith);
    assert(dy * dy >= 0) by (nonlinear_arith);
}

/// A point is at distance zero from itself.
pub proof fn lemma_distance_to_self(p: (i32, i32))
    ensures
        scaled_distance(p, p) == 0,
{
    lemma_squared_distance(p, p);
    assert(squared_distance(p, p) == 0);
    assert(SCALE_SQUARED as nat * squared_distance(p, p) == 0);
    lemma_ceil_sqrt_is(0, 0);
}

/// Distance does not depend on the direction.
pub proof fn lemma_distance_symmetric(p: (i32, i32), q: (i32, i32))
    ensures
        scaled_distance(p, q) == scaled_distance(q, p),
{
    let dx: int = p.0 - q.0;
    let dy: int = p.1 - q.1;
    assert(dx * dx == (-dx) * (-dx)) by (nonlinear_arith);
    assert(dy * dy == (-dy) * (-dy)) by (nonlinear_arith);
    lemma_squared_distance(p, q);
    lemma_squared_distance(q, p);
    assert(squared_distance(p, q) == squared_distance(q, p));
}

/// Every distance is at most `MAX_DISTANCE`.
pub proof fn lemma_distance_bounded(p: (i32, i32), q: (i32, i32))
    ensures
        scaled_distance(p, q) <= MAX_DISTANCE,
{
    let dx: int = p.0 - q.0;
    let dy: int = p.1 - q.1;
    assert(dx * dx <= 0x1_0000_0000 * 0x1_0000_0000) by (nonlinear_arith)
        requires
            -0x1_0000_0000 <= dx <= 0x1_0000_0000,
    ;
    assert(dy * dy <= 0x1_0000_0000 * 0x1_0000_0000) by (nonlinear_arith)
        requires
            -0x1_0000_0000 <= dy <= 0x1_0000_0000,
    ;
    let sq: nat = squared_distance(p, q);
    lemma_squared_distance(p, q);
    assert(sq <= 2 * (0x1_0000_0000 * 0x1_0000_0000));
    assert(SCALE_SQUARED as nat * sq <= SCALE_SQUARED as nat * (2 * (0x1_0000_0000
        * 0x1_0000_0000))) by (nonlinear_arith)
        requires
            sq <= 2 * (0x1_0000_0000 * 0x1_0000_0000),
    ;
    assert(MAX_DISTANCE as nat * MAX_DISTANCE as nat >= 1_000_000_000_000 * (2 * (0x1_0000_0000
        * 0x1_0000_0000)));
    lemma_ceil_sqrt_at_most(SCALE_SQUARED as nat * sq, MAX_DISTANCE as nat);
}

/// Cauchy-Schwarz in the plane: the squared inner product of two vectors is at
/// most the product of their squared lengths.
proof fn lemma_cauchy_schwarz(u1: int, u2: int, v1: int, v2: int)
    ensures
        (u1 * v1 + u2 * v2) * (u1 * v1 + u2 * v2) <= (u1 * u1 + u2 * u2) * (v1 * v1 + v2 * v2),
{
    let p11: int = u1 * v1;
    let p12: int = u1 * v2;
    let p21: int = u2 * v1;
    let p22: int = u2 * v2;
    let a1: int = u1 * u1;
    let a2: int = u2 * u2;
    let b1: int = v1 * v1;
    let b2: int = v2 * v2;
    assert(a1 * b1 == p11 * p11) by (nonlinear_arith)
        requires
            a1 == u1 * u1,
            b1 == v1 * v1,
            p11 == u1 * v1,
    ;
    assert(a1 * b2 == p12 * p12) by (nonlinear_arith)
        requires
            a1 == u1 * u1,
            b2 == v2 * v2,
            p12 == u1 * v2,
    ;
    assert(a2 * b1 == p21 * p21) by (nonlinear_arith)
        requires
            a2 == u2 * u2,
            b1 == v1 * v1,
            p21 == u2 * v1,
    ;
    assert(a2 * b2 == p22 * p22) by (nonlinear_arith)
        requires
            a2 == u2 * u2,
            b2 == v2 * v2,
            p22 == u2 * v2,
    ;
    assert(p12 * p21 == p11 * p22) by (nonlinear_arith)
        requires
            p11 == u1 * v1,
            p12 == u1 * v2,
            p21 == u2 * v1,
            p22 == u2 * v2,
    ;
    assert((a1 + a2) * (b1 + b2) == a1 * b1 + a1 * b2 + a2 * b1 + a2 * b2) by (nonlinear_arith);
    assert((p11 + p22) * (p11 + p22) == p11 * p11 + 2 * (p11 * p22) + p22 * p22)
        by (nonlinear_arith);
    assert((p12 - p21) * (p12 - p21) == p12 * p12 - 2 * (p12 * p21) + p21 * p21)
        by (nonlinear_arith);
    assert((p12 - p21) * (p12 - p21) >= 0) by (nonlinear_arith);
}

/// If `x` and `y` bound the lengths of two vectors `u` and `v`, each
/// stretched by the square root of `k`, then `x + y` bounds the stretched
/// length of `u + v`.
proof fn lemma_norm_triangle(k: int, u1: int, u2: int, v1: int, v2: int, x: int, y: int)
    requires
        k >= 0,
        x >= 0,
        y >= 0,
        x * x >= k * (u1 * u1 + u2 * u2),
        y * y >= k * (v1 * v1 + v2 * v2),
    ensures
        (x + y) * (x + y) >= k * ((u1 + v1) * (u1 + v1) + (u2 + v2) * (u2 + v2)),
{
    let a: int = u1 * u1 + u2 * u2;
    let b: int = v1 * v1 + v2 * v2;
    let d: int = u1 * v1 + u2 * v2;
    let ka: int = k * a;
    let kb: int = k * b;
    let kd: int = k * d;
    let xy: int = x * y;
    assert(a >= 0 && b >= 0) by (nonlinear_arith)
        requires
            a == u1 * u1 + u2 * u2,
            b == v1 * v1 + v2 * v2,
    ;
    lemma_cauchy_schwarz(u1, u2, v1, v2);
    assert(d * d <= a * b);
    assert(kd * kd <= ka * kb) by (nonlinear_arith)
        requires
            kd == k * d,
            ka == k * a,
            kb == k * b,
            d * d <= a * b,
            k >= 0,
    ;
    assert(ka >= 0 && kb >= 0) by (nonlinear_arith)
        requires
            ka == k * a,
            kb == k * b,
            k >= 0,
            a >= 0,
            b >= 0,
    ;
    assert(ka * kb <= (x * x) * (y * y)) by (nonlinear_arith)
        requires
            0 <= ka <= x * x,
            0 <= kb <= y * y,
    ;
    assert((x * x) * (y * y) == xy * xy) by (nonlinear_arith)
        requires
            xy == x * y,
    ;
    assert(xy >= 0) by (nonlinear_arith)
        requires
            xy == x * y,
            x >= 0,
            y >= 0,
    ;
    assert(kd <= xy) by (nonlinear_arith)
        requires
            kd * kd <= xy * xy,
            xy >= 0,
    ;
    assert((x + y) * (x + y) == x * x + 2 * xy + y * y) by (nonlinear_arith)
        requires
            xy == x * y,
    ;
    assert(k * ((u1 + v1) * (u1 + v1) + (u2 + v2) * (u2 + v2)) == ka + 2 * kd + kb)
        by (nonlinear_arith)
        requires
            ka == k * (u1 * u1 + u2 * u2),
            kb == k * (v1 * v1 + v2 * v2),
            kd == k * (u1 * v1 + u2 * v2),
    ;
}

/// The triangle inequality: going from `p` to `r` directly is never longer
/// than going by way of `q`.
pub proof fn lemma_distance_triangle(p: (i32, i32), q: (i32, i32), r: (i32, i32))
    ensures
        scaled_distance(p, r) <= scaled_distance(p, q) + scaled_distance(q, r),
{
    let k: nat = SCALE_SQUARED as nat;
    let u1: int = p.0 - q.0;
    let u2: int = p.1 - q.1;
    let v1: int = q.0 - r.0;
    let v2: int = q.1 - r.1;
    let x: nat = scaled_distance(p, q);
    let y: nat = scaled_distance(q, r);
    lemma_ceil_sqrt(k * squared_distance(p, q));
    lemma_ceil_sqrt(k * squared_distance(q, r));
    lemma_squared_distance(p, q);
    lemma_squared_distance(q, r);
    lemma_squared_distance(p, r);
    assert(squared_distance(p, q) == u1 * u1 + u2 * u2);
    assert(squared_distance(q, r) == v1 * v1 + v2 * v2);
    lemma_norm_triangle(k as int, u1, u2, v1, v2, x as int, y as int);
    assert(u1 + v1 == p.0 - r.0);
    assert(u2 + v2 == p.1 - r.1);
    assert(squared_distance(p, r) == (u1 + v1) * (u1 + v1) + (u2 + v2) * (u2 + v2));
    lemma_ceil_sqrt_at_most(k * squared_distance(p, r), x + y);
}

/// The distance between the points `nodes[node1]` and `nodes[node2]`.
pub fn distance(nodes: &Vec<(i32, i32)>, node1: usize, node2: usize) -> (d: u128)
    requires
        node1 < nodes@.len(),
        node2 < nodes@.len(),
    ensures
        d == scaled_distance(nodes@[node1 as int], nodes@[node2 as int]),
        d <= MAX_DISTANCE,
{
    let p: (i32, i32) = nodes[node1];
    let q: (i32, i32) = nodes[node2];
    let dx: i64 = p.0 as i64 - q.0 as i64;
    let dy: i64 = p.1 as i64 - q.1 as i64;
    let ax: u128 = if dx < 0 { (-dx) as u128 } else { dx as u128 };
    let ay: u128 = if dy < 0 { (-dy) as u128 } else { dy as u128 };
    proof {
        lemma_square_monotonic(ax as nat, 0x1_0000_0000nat);
        lemma_square_monotonic(ay as nat, 0x1_0000_0000nat);
        assert(ax * ax == dx * dx) by (nonlinear_arith)
            requires
                ax == dx || ax == -dx,
        ;
        assert(ay * ay == dy * dy) by (nonlinear_arith)
            requires
                ay == dy || ay == -dy,
        ;
    }
    let sq: u128 = ax * ax + ay * ay;
    proof {
        lemma_squared_distance(p, q);
        assert(sq == squared_distance(p, q));
        assert(SCALE_SQUARED * sq <= SCALE_SQUARED * (2 * (0x1_0000_0000 * 0x1_0000_0000)))
            by (nonlinear_arith)
            requires
                sq <= 2 * (0x1_0000_0000 * 0x1_0000_0000),
        ;
        lemma_distance_bounded(p, q);
    }
    ceil_sqrt_u128(SCALE_SQUARED * sq)
}

} // verus!
