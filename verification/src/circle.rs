use vstd::prelude::*;
use vstd::arithmetic::div_mod::*;
use crate::error::StarkError;
use crate::field::{addition, finv, fnorm, inverse, invertible, multiply, subtract, MODULUS};

verus! {

/// A pair of field elements, meant to satisfy `x^2 + y^2 = 1`.
///
/// The operations below compute on any pair; what they return is a point of
/// the circle group only where their arguments are.
#[derive(Clone, Copy, Debug, PartialEq, Eq, Structural)]
pub struct CirclePoint {
    pub x: u32,
    pub y: u32,
}

/// The neutral element of the group law.
pub open spec fn identity() -> CirclePoint {
    CirclePoint { x: 1, y: 0 }
}

/// Both coordinates are canonical field elements.
pub open spec fn canonical(p: CirclePoint) -> bool {
    p.x < MODULUS && p.y < MODULUS
}

/// `x^2 + y^2 = 1` in the field.
pub open spec fn on_curve(p: CirclePoint) -> bool {
    fnorm(p.x * p.x + p.y * p.y) == 1
}

/// The group law: `(x1, y1) + (x2, y2) = (x1 x2 - y1 y2, x1 y2 + y1 x2)`.
pub open spec fn point_add(p: CirclePoint, q: CirclePoint) -> CirclePoint {
    CirclePoint {
        x: fnorm(p.x * q.x - p.y * q.y) as u32,
        y: fnorm(p.x * q.y + p.y * q.x) as u32,
    }
}

/// The doubling map `(x, y) -> (2 x^2 - 1, 2 x y)`.
pub open spec fn point_double(p: CirclePoint) -> CirclePoint {
    CirclePoint { x: fnorm(2 * (p.x * p.x) - 1) as u32, y: fnorm(2 * (p.x * p.y)) as u32 }
}

/// `n` doublings of `p`.
pub open spec fn point_double_times(p: CirclePoint, n: nat) -> CirclePoint
    decreases n,
{
    if n == 0 {
        p
    } else {
        point_double(point_double_times(p, (n - 1) as nat))
    }
}

/// The multiple `n * c` by double-and-add: `0 * c` is the identity,
/// `1 * c` is `c`, and `n * c` is the double of `(n / 2) * c`, plus `c` for
/// odd `n`.
pub open spec fn scalar_mul(c: CirclePoint, n: nat) -> CirclePoint
    decreases n,
{
    if n == 0 {
        identity()
    } else if n == 1 {
        c
    } else {
        let doubled = point_double(scalar_mul(c, n / 2));
        if n % 2 == 0 {
            doubled
        } else {
            point_add(doubled, c)
        }
    }
}

/// Doubling keeps a point on the curve.
pub proof fn lemma_double_on_curve(p: CirclePoint)
    requires
        on_curve(p),
    ensures
        on_curve(point_double(p)),
        canonical(point_double(p)),
{
    let m = MODULUS as int;
    let x = p.x as int;
    let y = p.y as int;
    let dx = 2 * (x * x) - 1;
    let dy = 2 * (x * y);
    let q = point_double(p);
    // q.x^2 + q.y^2 is congruent to dx^2 + dy^2
    lemma_mul_mod_noop_general(dx, dx, m);
    lemma_mul_mod_noop_general(dy, dy, m);
    lemma_add_mod_noop(q.x * q.x, q.y * q.y, m);
    lemma_add_mod_noop(dx * dx, dy * dy, m);
    // dx^2 + dy^2 = 4 x^2 (x^2 + y^2 - 1) + 1
    let s = x * x + y * y;
    assert(dx * dx + dy * dy == (4 * (x * x)) * (s - 1) + 1) by (nonlinear_arith)
        requires
            dx == 2 * (x * x) - 1,
            dy == 2 * (x * y),
            s == x * x + y * y,
    ;
    assert((s - 1) % m == 0) by {
        lemma_sub_mod_noop(s, 1, m);
    }
    lemma_mul_mod_noop_general(4 * (x * x), s - 1, m);
    assert((4 * (x * x) % m) * 0 == 0);
    lemma_add_mod_noop((4 * (x * x)) * (s - 1), 1, m);
}

/// Twice a point, as a multiple, is its double.
pub proof fn lemma_scalar_mul_two(p: CirclePoint)
    ensures
        scalar_mul(p, 2) == point_double(p),
{
    reveal_with_fuel(scalar_mul, 2);
}

/// The sum of `n` copies of `c`.
pub open spec fn repeated_add(c: CirclePoint, n: nat) -> CirclePoint
    decreases n,
{
    if n == 0 {
        identity()
    } else {
        point_add(repeated_add(c, (n - 1) as nat), c)
    }
}

proof fn lemma_reduced_products(u1: int, v1: int, u2: int, v2: int)
    ensures
        fnorm(fnorm(u1) * v1 - fnorm(u2) * v2) == fnorm(u1 * v1 - u2 * v2),
        fnorm(fnorm(u1) * v1 + fnorm(u2) * v2) == fnorm(u1 * v1 + u2 * v2),
        fnorm(v1 * fnorm(u1) - v2 * fnorm(u2)) == fnorm(v1 * u1 - v2 * u2),
        fnorm(v1 * fnorm(u1) + v2 * fnorm(u2)) == fnorm(v1 * u1 + v2 * u2),
{
    let m = MODULUS as int;
    lemma_mul_mod_noop_left(u1, v1, m);
    lemma_mul_mod_noop_left(u2, v2, m);
    lemma_mul_mod_noop_right(v1, u1, m);
    lemma_mul_mod_noop_right(v2, u2, m);
    lemma_sub_mod_noop(fnorm(u1) * v1, fnorm(u2) * v2, m);
    lemma_sub_mod_noop(u1 * v1, u2 * v2, m);
    lemma_add_mod_noop(fnorm(u1) * v1, fnorm(u2) * v2, m);
    lemma_add_mod_noop(u1 * v1, u2 * v2, m);
    lemma_sub_mod_noop(v1 * fnorm(u1), v2 * fnorm(u2), m);
    lemma_sub_mod_noop(v1 * u1, v2 * u2, m);
    lemma_add_mod_noop(v1 * fnorm(u1), v2 * fnorm(u2), m);
    lemma_add_mod_noop(v1 * u1, v2 * u2, m);
}

/// The group law does not depend on the order of its arguments.
pub proof fn lemma_add_commutative(p: CirclePoint, q: CirclePoint)
    ensures
        point_add(p, q) == point_add(q, p),
{
    assert(p.x * q.x == q.x * p.x) by (nonlinear_arith);
    assert(p.y * q.y == q.y * p.y) by (nonlinear_arith);
    assert(p.x * q.y == q.y * p.x) by (nonlinear_arith);
    assert(p.y * q.x == q.x * p.y) by (nonlinear_arith);
}

proof fn lemma_triple_products(x: int, y: int, z: int)
    ensures
        (x * y) * z == x * (y * z),
{
    assert((x * y) * z == x * (y * z)) by (nonlinear_arith);
}

proof fn lemma_spread(u: int, v: int, z: int)
    ensures
        (u - v) * z == u * z - v * z,
        (u + v) * z == u * z + v * z,
{
    assert((u - v) * z == u * z - v * z) by (nonlinear_arith);
    assert((u + v) * z == u * z + v * z) by (nonlinear_arith);
}

proof fn lemma_spread_left(z: int, u: int, v: int)
    ensures
        z * (u - v) == z * u - z * v,
        z * (u + v) == z * u + z * v,
{
    assert(z * (u - v) == z * u - z * v) by (nonlinear_arith);
    assert(z * (u + v) == z * u + z * v) by (nonlinear_arith);
}

proof fn lemma_product_of_products(x: int, y: int, z: int, w: int)
    ensures
        (x * y) * (z * w) == (x * z) * (y * w),
        (x * y) * (z * w) == (x * w) * (z * y),
{
    assert((x * y) * (z * w) == (x * z) * (y * w)) by (nonlinear_arith);
    assert((x * y) * (z * w) == (x * w) * (z * y)) by (nonlinear_arith);
}

/// The group law is associative.
pub proof fn lemma_add_associative(p: CirclePoint, q: CirclePoint, r: CirclePoint)
    ensures
        point_add(point_add(p, q), r) == point_add(p, point_add(q, r)),
{
    let px = p.x as int;
    let py = p.y as int;
    let qx = q.x as int;
    let qy = q.y as int;
    let rx = r.x as int;
    let ry = r.y as int;
    let a = px * qx - py * qy;
    let b = px * qy + py * qx;
    let c = qx * rx - qy * ry;
    let d = qx * ry + qy * rx;
    lemma_reduced_products(a, rx, b, ry);
    lemma_reduced_products(a, ry, b, rx);
    lemma_reduced_products(c, px, d, py);
    lemma_reduced_products(d, px, c, py);
    lemma_triple_products(px, qx, rx);
    lemma_triple_products(py, qy, rx);
    lemma_triple_products(px, qy, ry);
    lemma_triple_products(py, qx, ry);
    lemma_triple_products(px, qx, ry);
    lemma_triple_products(py, qy, ry);
    lemma_triple_products(px, qy, rx);
    lemma_triple_products(py, qx, rx);
    lemma_spread(px * qx, py * qy, rx);
    lemma_spread(px * qy, py * qx, ry);
    lemma_spread(px * qx, py * qy, ry);
    lemma_spread(px * qy, py * qx, rx);
    lemma_spread_left(px, qx * rx, qy * ry);
    lemma_spread_left(py, qx * ry, qy * rx);
    lemma_spread_left(px, qx * ry, qy * rx);
    lemma_spread_left(py, qx * rx, qy * ry);
    assert(a * rx - b * ry == px * c - py * d);
    assert(a * ry + b * rx == px * d + py * c);
}

/// The identity is neutral: added to a point it gives the point, with
/// canonical coordinates.
pub proof fn lemma_add_identity(p: CirclePoint)
    ensures
        point_add(identity(), p) == (CirclePoint {
            x: fnorm(p.x as int) as u32,
            y: fnorm(p.y as int) as u32,
        }),
        canonical(p) ==> point_add(identity(), p) == p && point_add(p, identity()) == p,
{
    let one: int = 1;
    let zero: int = 0;
    assert(one * p.x == p.x && one * p.y == p.y && zero * p.x == 0 && zero * p.y == 0);
    lemma_add_commutative(p, identity());
}

/// The sum of two points of the circle is a point of the circle.
pub proof fn lemma_add_on_curve(p: CirclePoint, q: CirclePoint)
    requires
        on_curve(p),
        on_curve(q),
    ensures
        on_curve(point_add(p, q)),
        canonical(point_add(p, q)),
{
    let m = MODULUS as int;
    let px = p.x as int;
    let py = p.y as int;
    let qx = q.x as int;
    let qy = q.y as int;
    let a = px * qx - py * qy;
    let b = px * qy + py * qx;
    let s = point_add(p, q);
    lemma_mul_mod_noop_general(a, a, m);
    lemma_mul_mod_noop_general(b, b, m);
    lemma_add_mod_noop(s.x * s.x, s.y * s.y, m);
    lemma_add_mod_noop(a * a, b * b, m);
    let np = px * px + py * py;
    let nq = qx * qx + qy * qy;
    let u = px * qx;
    let v = py * qy;
    let w = px * qy;
    let z = py * qx;
    assert(a * a == u * u - 2 * (u * v) + v * v) by (nonlinear_arith)
        requires
            a == u - v,
    ;
    assert(b * b == w * w + 2 * (w * z) + z * z) by (nonlinear_arith)
        requires
            b == w + z,
    ;
    lemma_product_of_products(px, qx, py, qy);
    assert(u * v == w * z);
    lemma_product_of_products(px, px, qx, qx);
    lemma_product_of_products(px, px, qy, qy);
    lemma_product_of_products(py, py, qx, qx);
    lemma_product_of_products(py, py, qy, qy);
    lemma_spread(px * px, py * py, nq);
    lemma_spread_left(px * px, qx * qx, qy * qy);
    lemma_spread_left(py * py, qx * qx, qy * qy);
    assert(a * a + b * b == np * nq);
    lemma_mul_mod_noop_general(np, nq, m);
    assert(fnorm(np) * fnorm(nq) == 1) by (nonlinear_arith)
        requires
            fnorm(np) == 1,
            fnorm(nq) == 1,
    ;
}

/// On the circle, the double of a point is the point added to itself.
pub proof fn lemma_double_is_add(p: CirclePoint)
    requires
        on_curve(p),
    ensures
        point_double(p) == point_add(p, p),
{
    let m = MODULUS as int;
    let x = p.x as int;
    let y = p.y as int;
    // 2 x^2 - 1 = x^2 - y^2 + (x^2 + y^2 - 1)
    let s = x * x + y * y;
    assert(2 * (x * x) - 1 == (x * x - y * y) + (s - 1));
    assert((s - 1) % m == 0) by {
        lemma_sub_mod_noop(s, 1, m);
    }
    lemma_add_mod_noop(x * x - y * y, s - 1, m);
    lemma_mod_twice(x * x - y * y, m);
    assert(2 * (x * y) == x * y + y * x) by (nonlinear_arith);
}

/// The sum of `n` copies of a point of the circle is a point of the
/// circle.
pub proof fn lemma_repeated_add_on_curve(c: CirclePoint, n: nat)
    requires
        on_curve(c),
    ensures
        on_curve(repeated_add(c, n)),
        canonical(repeated_add(c, n)),
    decreases n,
{
    if n == 0 {
        let one: int = 1;
        let zero: int = 0;
        assert(one * one + zero * zero == 1);
    } else {
        lemma_repeated_add_on_curve(c, (n - 1) as nat);
        lemma_add_on_curve(repeated_add(c, (n - 1) as nat), c);
    }
}

/// `a + b` copies of a point add up to the sum of `a` copies and `b`
/// copies.
pub proof fn lemma_repeated_add_splits(c: CirclePoint, a: nat, b: nat)
    requires
        on_curve(c),
    ensures
        repeated_add(c, a + b) == point_add(repeated_add(c, a), repeated_add(c, b)),
    decreases b,
{
    lemma_repeated_add_on_curve(c, a);
    if b == 0 {
        lemma_add_identity(repeated_add(c, a));
    } else {
        lemma_repeated_add_splits(c, a, (b - 1) as nat);
        lemma_add_associative(repeated_add(c, a), repeated_add(c, (b - 1) as nat), c);
        assert(a + b - 1 == a + (b - 1));
    }
}

/// On the circle, the multiple that double-and-add computes is the sum of
/// as many copies of the point.
pub proof fn lemma_scalar_mul_is_repeated_add(c: CirclePoint, n: nat)
    requires
        on_curve(c),
        canonical(c),
    ensures
        scalar_mul(c, n) == repeated_add(c, n),
    decreases n,
{
    if n == 0 {
    } else if n == 1 {
        lemma_add_identity(c);
        assert(repeated_add(c, 1) == point_add(repeated_add(c, 0), c));
    } else {
        let h = n / 2;
        lemma_scalar_mul_is_repeated_add(c, h);
        lemma_repeated_add_on_curve(c, h);
        lemma_double_is_add(repeated_add(c, h));
        lemma_repeated_add_splits(c, h, h);
        if n % 2 == 1 {
            assert(n == h + h + 1);
        } else {
            assert(n == h + h);
        }
    }
}

/// Multiples of a point of the circle are points of the circle.
pub proof fn lemma_scalar_mul_on_curve(c: CirclePoint, n: nat)
    requires
        on_curve(c),
        canonical(c),
    ensures
        on_curve(scalar_mul(c, n)),
        canonical(scalar_mul(c, n)),
{
    lemma_scalar_mul_is_repeated_add(c, n);
    lemma_repeated_add_on_curve(c, n);
}

/// Doubling a point of the circle any number of times gives a point of the
/// circle.
pub proof fn lemma_double_times_on_curve(p: CirclePoint, n: nat)
    requires
        on_curve(p),
        canonical(p),
    ensures
        on_curve(point_double_times(p, n)),
        canonical(point_double_times(p, n)),
    decreases n,
{
    if n > 0 {
        lemma_double_times_on_curve(p, (n - 1) as nat);
        lemma_double_on_curve(point_double_times(p, (n - 1) as nat));
    }
}

/// The inverse of a point of the circle under the group law: its mirror
/// image `(x, -y)`.
pub open spec fn point_neg(p: CirclePoint) -> CirclePoint {
    CirclePoint { x: fnorm(p.x as int) as u32, y: fnorm(-(p.y as int)) as u32 }
}

/// The point of order two.
pub open spec fn minus_one() -> CirclePoint {
    CirclePoint { x: (MODULUS - 1) as u32, y: 0 }
}

/// A point of the circle and its mirror image add up to the identity.
pub proof fn lemma_add_neg(p: CirclePoint)
    requires
        on_curve(p),
    ensures
        point_add(p, point_neg(p)) == identity(),
        on_curve(point_neg(p)),
        canonical(point_neg(p)),
{
    let m = MODULUS as int;
    let x = p.x as int;
    let y = p.y as int;
    let n = point_neg(p);
    // x nx - y ny = x^2 + y^2 and x ny + y nx = 0, modulo the modulus
    lemma_reduced_products(x, x, -y, y);
    lemma_reduced_products(-y, x, x, y);
    assert(x * x - (-y) * y == x * x + y * y) by (nonlinear_arith);
    assert((-y) * x + x * y == 0) by (nonlinear_arith);
    assert(n.x * x == x * n.x) by (nonlinear_arith);
    assert(n.y * y == y * n.y) by (nonlinear_arith);
    assert(n.y * x == x * n.y) by (nonlinear_arith);
    assert(n.x * y == y * n.x) by (nonlinear_arith);
    // the mirror image lies on the circle
    lemma_mul_mod_noop_general(x, x, m);
    lemma_mul_mod_noop_general(-y, -y, m);
    assert((-y) * (-y) == y * y) by (nonlinear_arith);
    lemma_add_mod_noop(n.x * n.x, n.y * n.y, m);
    lemma_add_mod_noop(x * x, y * y, m);
}

/// What adds up to the identity with a point of the circle is its mirror
/// image.
pub proof fn lemma_neg_unique(p: CirclePoint, q: CirclePoint)
    requires
        on_curve(p),
        on_curve(q),
        canonical(q),
        point_add(p, q) == identity(),
    ensures
        q == point_neg(p),
{
    let n = point_neg(p);
    lemma_add_neg(p);
    // q = (n + p) + q = n + (p + q) = n
    lemma_add_commutative(p, n);
    lemma_add_associative(n, p, q);
    lemma_add_identity(q);
    lemma_add_identity(n);
}

/// Adding the point of order two negates both coordinates.
pub proof fn lemma_add_minus_one(p: CirclePoint)
    ensures
        point_add(minus_one(), p) == (CirclePoint {
            x: fnorm(-(p.x as int)) as u32,
            y: fnorm(-(p.y as int)) as u32,
        }),
{
    let m = MODULUS as int;
    let x = p.x as int;
    let y = p.y as int;
    let zero: int = 0;
    assert(zero * y == 0 && zero * x == 0);
    assert((m - 1) * x - 0 == x * m + (-x)) by (nonlinear_arith);
    assert((m - 1) * y + 0 == y * m + (-y)) by (nonlinear_arith);
    lemma_mod_multiples_vanish(x, -x, m);
    lemma_mod_multiples_vanish(y, -y, m);
}

/// On the circle, the multiples of the double of a point are the doubles
/// of its multiples.
pub proof fn lemma_repeated_add_of_double(c: CirclePoint, k: nat)
    requires
        on_curve(c),
    ensures
        repeated_add(point_double(c), k) == repeated_add(c, 2 * k),
        k > 0 ==> repeated_add(c, 2 * k) == point_double(repeated_add(c, k)),
    decreases k,
{
    lemma_double_is_add(c);
    lemma_double_on_curve(c);
    lemma_repeated_add_on_curve(c, k);
    lemma_double_is_add(repeated_add(c, k));
    lemma_repeated_add_splits(c, k, k);
    if k > 0 {
        lemma_repeated_add_of_double(c, (k - 1) as nat);
        lemma_repeated_add_on_curve(c, (2 * k - 2) as nat);
        // (2 k - 2) c + (c + c) = ((2 k - 2) c + c) + c
        lemma_add_associative(repeated_add(c, (2 * k - 2) as nat), c, c);
        assert(repeated_add(c, (2 * k - 1) as nat) == point_add(
            repeated_add(c, (2 * k - 2) as nat),
            c,
        ));
        assert(repeated_add(c, 2 * k) == point_add(repeated_add(c, (2 * k - 1) as nat), c));
    }
}

/// On the circle, `n` doublings of a point give its multiple by 2 to the
/// power `n`.
pub proof fn lemma_double_times_is_multiple(c: CirclePoint, n: nat)
    requires
        on_curve(c),
        canonical(c),
    ensures
        point_double_times(c, n) == repeated_add(c, crate::utils::pow2(n)),
    decreases n,
{
    if n == 0 {
        lemma_add_identity(c);
        assert(repeated_add(c, 1) == point_add(repeated_add(c, 0), c));
    } else {
        lemma_double_times_is_multiple(c, (n - 1) as nat);
        crate::utils::lemma_pow2_is_pow2((n - 1) as nat);
        lemma_repeated_add_of_double(c, crate::utils::pow2((n - 1) as nat));
    }
}

/// On the circle, a multiple of a multiple is the multiple by the product.
pub proof fn lemma_repeated_add_of_multiple(c: CirclePoint, a: nat, b: nat)
    requires
        on_curve(c),
    ensures
        repeated_add(repeated_add(c, a), b) == repeated_add(c, a * b),
    decreases b,
{
    lemma_repeated_add_on_curve(c, a);
    if b == 0 {
        assert(a * 0 == 0);
    } else {
        lemma_repeated_add_of_multiple(c, a, (b - 1) as nat);
        lemma_repeated_add_splits(c, a * (b - 1) as nat, a);
        assert(a * (b - 1) + a == a * b) by (nonlinear_arith);
    }
}

/// What a point of the circle offers: its construction, its coordinates
/// and their inverses, and the doubling map.
pub trait CircleImpl: Sized {
    /// The point that the value stands for.
    spec fn point(&self) -> CirclePoint;

    /// The point with coordinates `x` and `y` as they are.
    fn new_with_field_elements(x: u32, y: u32) -> (r: CirclePoint)
        ensures
            r == (CirclePoint { x, y }),
    ;

    /// The point with the canonical representatives of `x` and `y`.
    fn new(x: u32, y: u32) -> (r: CirclePoint)
        ensures
            r.x == fnorm(x as int),
            r.y == fnorm(y as int),
            canonical(r),
    ;

    /// The first coordinate.
    fn get_x(&self) -> (r: u32)
        ensures
            r == self.point().x,
    ;

    /// The second coordinate.
    fn get_y(&self) -> (r: u32)
        ensures
            r == self.point().y,
    ;

    /// The pair `(0, 0)`, which is no point of the circle.
    fn zero() -> (r: CirclePoint)
        ensures
            r == (CirclePoint { x: 0, y: 0 }),
    ;

    /// The double of a point: `(2 x^2 - 1, 2 x y)`.
    fn double(&self) -> (r: CirclePoint)
        ensures
            r == point_double(self.point()),
            canonical(r),
    ;

    /// `shape` copies of the identity.
    fn zeroes(shape: usize) -> (r: Vec<CirclePoint>)
        ensures
            r@ == Seq::new(shape as nat, |i: int| identity()),
    ;

    /// The inverse of the first coordinate; `DivisionByZero` when it is zero.
    fn inverse_x(&self) -> (r: Result<u32, StarkError>)
        ensures
            r is Ok <==> fnorm(self.point().x as int) != 0,
            r is Ok <==> invertible(self.point().x as int),
            r is Err ==> r == Err::<u32, StarkError>(StarkError::DivisionByZero),
            r matches Ok(w) ==> w as int == finv(self.point().x as int) && w < MODULUS,
    ;

    /// The inverse of the second coordinate; `DivisionByZero` when it is zero.
    fn inverse_y(&self) -> (r: Result<u32, StarkError>)
        ensures
            r is Ok <==> fnorm(self.point().y as int) != 0,
            r is Ok <==> invertible(self.point().y as int),
            r is Err ==> r == Err::<u32, StarkError>(StarkError::DivisionByZero),
            r matches Ok(w) ==> w as int == finv(self.point().y as int) && w < MODULUS,
    ;
}

impl CircleImpl for CirclePoint {
    open spec fn point(&self) -> CirclePoint {
        *self
    }

    fn new_with_field_elements(x: u32, y: u32) -> (r: CirclePoint) {
        CirclePoint { x, y }
    }

    fn new(x: u32, y: u32) -> (r: CirclePoint) {
        CirclePoint { x: x % MODULUS, y: y % MODULUS }
    }

    fn get_x(&self) -> (r: u32) {
        self.x
    }

    fn get_y(&self) -> (r: u32) {
        self.y
    }

    fn zero() -> (r: CirclePoint) {
        CirclePoint { x: 0, y: 0 }
    }

    fn double(&self) -> (r: CirclePoint) {
        let xx = multiply(self.x, self.x);
        let x = subtract(multiply(2, xx), 1);
        let y = multiply(2, multiply(self.x, self.y));
        proof {
            let m = MODULUS as int;
            lemma_mul_mod_noop_right(2, self.x * self.x, m);
            lemma_sub_mod_noop(2 * (self.x * self.x), 1, m);
            lemma_mul_mod_noop_right(2, self.x * self.y, m);
        }
        CirclePoint { x, y }
    }

    fn zeroes(shape: usize) -> (r: Vec<CirclePoint>) {
        let mut out: Vec<CirclePoint> = Vec::new();
        let mut i: usize = 0;
        while i < shape
            invariant
                i <= shape,
                out@ == Seq::new(i as nat, |j: int| identity()),
            decreases shape - i,
        {
            out.push(CirclePoint { x: 1, y: 0 });
            i = i + 1;
            assert(out@ =~= Seq::new(i as nat, |j: int| identity()));
        }
        out
    }

    fn inverse_x(&self) -> (r: Result<u32, StarkError>) {
        inverse(self.x)
    }

    fn inverse_y(&self) -> (r: Result<u32, StarkError>) {
        inverse(self.y)
    }
}

impl CirclePoint {
    /// The sum of two points under the group law.
    pub fn add(self, rhs: CirclePoint) -> (r: CirclePoint)
        ensures
            r == point_add(self, rhs),
            canonical(r),
    {
        let x = subtract(multiply(self.x, rhs.x), multiply(self.y, rhs.y));
        let y = addition(multiply(self.x, rhs.y), multiply(self.y, rhs.x));
        proof {
            let m = MODULUS as int;
            lemma_sub_mod_noop(self.x * rhs.x, self.y * rhs.y, m);
            lemma_add_mod_noop(self.x * rhs.y, self.y * rhs.x, m);
        }
        CirclePoint { x, y }
    }
}

/// A point of order 2^31, which generates the whole circle group.
#[allow(non_snake_case)]
pub fn G() -> (r: CirclePoint)
    ensures
        r == (CirclePoint { x: 1268011823, y: 2 }),
{
    CirclePoint { x: 1268011823, y: 2 }
}

/// The identity of the circle group.
#[allow(non_snake_case)]
pub fn Z() -> (r: CirclePoint)
    ensures
        r == identity(),
{
    CirclePoint { x: 1, y: 0 }
}

/// The multiple `n * c`, by double-and-add.
pub fn scalar_multiply(c: CirclePoint, n: u32) -> (r: CirclePoint)
    ensures
        r == scalar_mul(c, n as nat),
    decreases n,
{
    if n == 0 {
        CirclePoint { x: 1, y: 0 }
    } else if n == 1 {
        c
    } else {
        let half_result = scalar_multiply(c, n / 2);
        let doubled = half_result.double();
        if n % 2 == 0 {
            doubled
        } else {
            doubled.add(c)
        }
    }
}

} // verus!
