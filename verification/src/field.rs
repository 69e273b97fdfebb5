use vstd::prelude::*;
use vstd::arithmetic::div_mod::*;
use lambdaworks_math::field::element::FieldElement;
use lambdaworks_math::field::errors::FieldError;
use lambdaworks_math::field::fields::mersenne31::field::Mersenne31Field;
use crate::error::StarkError;

verus! {

/// The Mersenne prime 2^31 - 1.
pub const MODULUS: u32 = 2147483647;

/// 2^30, the inverse of 2 in the field.
pub const HALF: u32 = 1073741824;

/// The canonical representative of `a`.
pub open spec fn fnorm(a: int) -> int {
    a % (MODULUS as int)
}

/// `a + b` in the field.
pub open spec fn fadd(a: int, b: int) -> int {
    (a + b) % (MODULUS as int)
}

/// `a - b` in the field.
pub open spec fn fsub(a: int, b: int) -> int {
    (a - b) % (MODULUS as int)
}

/// `a * b` in the field.
pub open spec fn fmul(a: int, b: int) -> int {
    (a * b) % (MODULUS as int)
}

/// `w` is a canonical field element with `a * w = 1`.
pub open spec fn is_inverse(a: int, w: int) -> bool {
    0 <= w < MODULUS && (a * w) % (MODULUS as int) == 1
}

/// `a` has a multiplicative inverse.
pub open spec fn invertible(a: int) -> bool {
    exists|w: int| is_inverse(a, w)
}

/// The multiplicative inverse of `a`, where one exists.
pub open spec fn finv(a: int) -> int {
    choose|w: int| is_inverse(a, w)
}

/// `a / b` in the field, for invertible `b`.
pub open spec fn fdiv(a: int, b: int) -> int {
    fmul(a, finv(b))
}

/// `r` is a canonical field element with `r * r = a`.
pub open spec fn is_sqrt(a: int, r: int) -> bool {
    0 <= r < MODULUS && (r * r) % (MODULUS as int) == a % (MODULUS as int)
}

/// `a` is a square.
pub open spec fn has_sqrt(a: int) -> bool {
    exists|r: int| is_sqrt(a, r)
}

/// Congruent factors give congruent products.
pub proof fn lemma_fmul_congruent(a: int, a2: int, b: int, b2: int)
    requires
        fnorm(a) == fnorm(a2),
        fnorm(b) == fnorm(b2),
    ensures
        fmul(a, b) == fmul(a2, b2),
{
    lemma_mul_mod_noop_general(a, b, MODULUS as int);
    lemma_mul_mod_noop_general(a2, b2, MODULUS as int);
}

/// Congruent summands give congruent sums.
pub proof fn lemma_fadd_congruent(a: int, a2: int, b: int, b2: int)
    requires
        fnorm(a) == fnorm(a2),
        fnorm(b) == fnorm(b2),
    ensures
        fadd(a, b) == fadd(a2, b2),
{
    lemma_add_mod_noop(a, b, MODULUS as int);
    lemma_add_mod_noop(a2, b2, MODULUS as int);
}

/// Congruent terms give congruent differences.
pub proof fn lemma_fsub_congruent(a: int, a2: int, b: int, b2: int)
    requires
        fnorm(a) == fnorm(a2),
        fnorm(b) == fnorm(b2),
    ensures
        fsub(a, b) == fsub(a2, b2),
{
    lemma_sub_mod_noop(a, b, MODULUS as int);
    lemma_sub_mod_noop(a2, b2, MODULUS as int);
}

/// An element has at most one inverse.
pub proof fn lemma_inverse_unique(a: int, w1: int, w2: int)
    requires
        is_inverse(a, w1),
        is_inverse(a, w2),
    ensures
        w1 == w2,
{
    let p = MODULUS as int;
    // w1 = w1 * (a * w2) = (w1 * a) * w2 = w2, all modulo p
    lemma_fmul_congruent(w1, w1, a * w2, 1);
    lemma_fmul_congruent(a * w1, 1, w2, w2);
    assert(w1 * (a * w2) == (a * w1) * w2) by (nonlinear_arith);
    assert(fmul(w1, 1) == w1) by {
        lemma_small_mod(w1 as nat, p as nat);
    }
    assert(fmul(1, w2) == w2) by {
        lemma_small_mod(w2 as nat, p as nat);
    }
}

/// Whatever has an inverse has `finv` as its inverse.
pub proof fn lemma_finv(a: int, w: int)
    requires
        is_inverse(a, w),
    ensures
        finv(a) == w,
        is_inverse(a, finv(a)),
{
    lemma_inverse_unique(a, w, finv(a));
}

/// The additive identity has no inverse.
pub proof fn lemma_zero_not_invertible(a: int)
    requires
        fnorm(a) == 0,
    ensures
        !invertible(a),
{
    assert forall|w: int| !is_inverse(a, w) by {
        lemma_fmul_congruent(a, 0, w, w);
    }
}

/// Congruent elements are invertible together, and have the same inverse.
pub proof fn lemma_finv_congruent(a: int, a2: int)
    requires
        fnorm(a) == fnorm(a2),
    ensures
        invertible(a) == invertible(a2),
        invertible(a) ==> finv(a) == finv(a2) && is_inverse(a, finv(a)),
{
    if invertible(a) {
        let w = choose|w: int| is_inverse(a, w);
        lemma_fmul_congruent(a, a2, w, w);
        assert(is_inverse(a2, w));
        lemma_finv(a, w);
        lemma_finv(a2, w);
    }
    if invertible(a2) {
        let w = choose|w: int| is_inverse(a2, w);
        lemma_fmul_congruent(a, a2, w, w);
        assert(is_inverse(a, w));
    }
}

/// Doubling is undone by multiplying with `HALF`, so what agrees after
/// doubling agrees before.
pub proof fn lemma_cancel_two(x: int, y: int)
    requires
        fnorm(2 * x) == fnorm(2 * y),
    ensures
        fnorm(x) == fnorm(y),
{
    let m = MODULUS as int;
    let h = HALF as int;
    lemma_fmul_congruent(h, h, 2 * x, 2 * y);
    assert(h * (2 * x) == x * m + x) by (nonlinear_arith)
        requires
            h == 1073741824,
            m == 2147483647,
    ;
    assert(h * (2 * y) == y * m + y) by (nonlinear_arith)
        requires
            h == 1073741824,
            m == 2147483647,
    ;
    lemma_mod_multiples_vanish(x, x, m);
    lemma_mod_multiples_vanish(y, y, m);
}

/// An element is invertible exactly where its double is.
pub proof fn lemma_double_invertible(t: int)
    ensures
        invertible(2 * t) == invertible(t),
{
    let m = MODULUS as int;
    if invertible(t) {
        let w = choose|w: int| is_inverse(t, w);
        let w2 = fmul(HALF as int, w);
        // (2 t) (HALF w) = (2 HALF) (t w) = 1
        assert((2 * t) * (HALF * w) == (2 * HALF) * (t * w)) by (nonlinear_arith);
        lemma_fmul_congruent(2 * HALF, 1, t * w, 1);
        lemma_mul_mod_noop_right(2 * t, HALF * w, m);
        assert(is_inverse(2 * t, w2));
    }
    if invertible(2 * t) {
        let t2 = 2 * t;
        let w = choose|w: int| is_inverse(t2, w);
        let w2 = fmul(2, w);
        assert(t * (2 * w) == (2 * t) * w) by (nonlinear_arith);
        lemma_mul_mod_noop_right(t, 2 * w, m);
        assert(is_inverse(t, w2));
    }
}

/// `a + b`.
pub fn addition(a: u32, b: u32) -> (r: u32)
    ensures
        r == fadd(a as int, b as int),
        r < MODULUS,
{
    let s: u64 = a as u64 + b as u64;
    (s % (MODULUS as u64)) as u32
}

/// `a - b`.
pub fn subtract(a: u32, b: u32) -> (r: u32)
    ensures
        r == fsub(a as int, b as int),
        r < MODULUS,
{
    let p: u64 = MODULUS as u64;
    let s: u64 = (a as u64 % p) + p - (b as u64 % p);
    proof {
        let pi = MODULUS as int;
        lemma_sub_mod_noop(a as int, b as int, pi);
        lemma_mod_add_multiples_vanish((a as int % pi) - (b as int % pi), pi);
    }
    (s % p) as u32
}

/// `a * b`.
pub fn multiply(a: u32, b: u32) -> (r: u32)
    ensures
        r == fmul(a as int, b as int),
        r < MODULUS,
{
    assert(a as u64 * b as u64 <= 0xffff_ffff * 0xffff_ffff) by (nonlinear_arith)
        requires
            a <= 0xffff_ffff,
            b <= 0xffff_ffff,
    ;
    let s: u64 = a as u64 * b as u64;
    (s % (MODULUS as u64)) as u32
}

/// The error type of `lambdaworks_math`'s field operations.
#[verifier::external_type_specification]
#[verifier::external_body]
pub struct ExFieldError(FieldError);

/// The square root that `FieldElement::<Mersenne31Field>::sqrt` returns
/// first for the canonical element `a`, as its canonical representative.
pub uninterp spec fn m31_sqrt(a: u32) -> Option<u32>;

/// `FieldElement::<Mersenne31Field>::inv` on the canonical element `x`.
///
/// Trusted: the call fails exactly for zero, and otherwise returns the
/// multiplicative inverse, read back as its canonical representative.
#[verifier::external_body]
fn m31_inv(x: u32) -> (r: Result<u32, FieldError>)
    requires
        x < MODULUS,
    ensures
        r is Err <==> x == 0,
        r matches Ok(w) ==> is_inverse(x as int, w as int),
{
    match FieldElement::<Mersenne31Field>::new(x).inv() {
        Ok(w) => Ok(w.representative()),
        Err(e) => Err(e),
    }
}

/// `FieldElement::<Mersenne31Field>::sqrt` on the canonical element `a`.
///
/// Trusted: the call returns `None` exactly when `a` is no square, and
/// otherwise two roots, of which the first is handed on as its canonical
/// representative; which of the roots of `a` that is, is left to `m31_sqrt`.
#[verifier::external_body]
fn m31_sqrt_first(a: u32) -> (r: Option<u32>)
    requires
        a < MODULUS,
    ensures
        r == m31_sqrt(a),
        r is None <==> !has_sqrt(a as int),
        r matches Some(root) ==> is_sqrt(a as int, root as int),
{
    match FieldElement::<Mersenne31Field>::new(a).sqrt() {
        Some((first, _)) => Some(first.representative()),
        None => None,
    }
}

/// The multiplicative inverse of `x`; `DivisionByZero` for the additive
/// identity.
pub fn inverse(x: u32) -> (r: Result<u32, StarkError>)
    ensures
        r is Ok <==> fnorm(x as int) != 0,
        r is Ok <==> invertible(x as int),
        r is Err ==> r == Err::<u32, StarkError>(StarkError::DivisionByZero),
        r matches Ok(w) ==> w as int == finv(x as int) && is_inverse(x as int, w as int),
{
    let c: u32 = x % MODULUS;
    match m31_inv(c) {
        Ok(w) => {
            proof {
                lemma_fmul_congruent(c as int, x as int, w as int, w as int);
                lemma_finv(x as int, w as int);
            }
            Ok(w)
        },
        Err(_) => {
            proof {
                lemma_zero_not_invertible(x as int);
            }
            Err(StarkError::DivisionByZero)
        },
    }
}

/// `a / b`; `DivisionByZero` when `b` is the additive identity.
pub fn div(a: u32, b: u32) -> (r: Result<u32, StarkError>)
    ensures
        r is Ok <==> fnorm(b as int) != 0,
        r is Ok <==> invertible(b as int),
        r is Err ==> r == Err::<u32, StarkError>(StarkError::DivisionByZero),
        r matches Ok(q) ==> q as int == fdiv(a as int, b as int) && q < MODULUS,
        r is Ok ==> is_inverse(b as int, finv(b as int)),
{
    match inverse(b) {
        Ok(w) => Ok(multiply(a, w)),
        Err(e) => Err(e),
    }
}

/// `value / n`, the division of a field element by a scalar;
/// `DivisionByZero` when `n` is zero in the field.
pub fn scalar_division(value: u32, n: u32) -> (r: Result<u32, StarkError>)
    ensures
        r is Ok <==> fnorm(n as int) != 0,
        r is Ok <==> invertible(n as int),
        r is Err ==> r == Err::<u32, StarkError>(StarkError::DivisionByZero),
        r matches Ok(q) ==> q as int == fdiv(value as int, n as int) && q < MODULUS,
{
    div(value, n)
}

/// A square root of `a`; `NoSquareRoot` when `a` is no square.
///
/// Of the two roots of a nonzero square the one returned is `m31_sqrt`.
pub fn sqrt(a: u32) -> (r: Result<u32, StarkError>)
    ensures
        r is Ok <==> has_sqrt(a as int),
        r is Err ==> r == Err::<u32, StarkError>(StarkError::NoSquareRoot),
        r matches Ok(root) ==> is_sqrt(a as int, root as int),
        r matches Ok(root) ==> m31_sqrt((a % MODULUS) as u32) == Some(root),
        r is Err ==> m31_sqrt((a % MODULUS) as u32) is None,
{
    let c: u32 = a % MODULUS;
    assert(forall|w: int| is_sqrt(c as int, w) == is_sqrt(a as int, w)) by {
        lemma_mod_twice(a as int, MODULUS as int);
    }
    assert(has_sqrt(c as int) == has_sqrt(a as int));
    match m31_sqrt_first(c) {
        Some(root) => Ok(root),
        None => Err(StarkError::NoSquareRoot),
    }
}

} // verus!
