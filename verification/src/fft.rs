use vstd::prelude::*;
use vstd::arithmetic::div_mod::*;
use crate::circle::{
    canonical, identity, lemma_repeated_add_splits, lemma_scalar_mul_is_repeated_add, on_curve,
    point_add, point_double, point_double_times, scalar_mul, scalar_multiply, CircleImpl,
    CirclePoint,
};
use crate::error::StarkError;
use crate::field::{
    addition, div, finv, fmul, fnorm, invertible, lemma_cancel_two, lemma_double_invertible,
    lemma_fadd_congruent, lemma_finv_congruent, lemma_fmul_congruent, lemma_fsub_congruent,
    m31_sqrt, multiply, sqrt, subtract, HALF, MODULUS,
};
use crate::utils::{
    even_entries, evens, floor_log2, folded_bit_reversed, folded_reverse_bit_order, interleave,
    is_pow2, is_power_of_two, lemma_folded_bit_reversed_len, log2, odd_entries, odds,
};

verus! {

/// An evaluation domain: points of the circle, or, after the first
/// halving, their first coordinates.
#[derive(Debug)]
pub enum Domain {
    Points(Vec<CirclePoint>),
    Scalars(Vec<u32>),
}

/// What a domain holds, as sequences.
pub enum DomainView {
    Points(Seq<CirclePoint>),
    Scalars(Seq<u32>),
}

impl DomainView {
    /// The number of entries.
    pub open spec fn size(self) -> nat {
        match self {
            DomainView::Points(p) => p.len(),
            DomainView::Scalars(s) => s.len(),
        }
    }

    /// The coordinate to divide by at each entry: the second coordinate of
    /// a point, and a scalar itself.
    pub open spec fn coords(self) -> Seq<u32> {
        match self {
            DomainView::Points(p) => p.map_values(|c: CirclePoint| c.y),
            DomainView::Scalars(s) => s,
        }
    }

    /// The entry below each entry: the first coordinate of a point, and
    /// the image of a scalar under the doubling map.
    pub open spec fn lowered(self) -> Seq<u32> {
        match self {
            DomainView::Points(p) => p.map_values(|c: CirclePoint| c.x),
            DomainView::Scalars(s) => s.map_values(|x: u32| double_x(x as int) as u32),
        }
    }

    /// The domain that a fold leaves: the entries at the even positions,
    /// lowered.
    pub open spec fn folded(self) -> DomainView {
        DomainView::Scalars(evens(self.lowered()))
    }

    /// The domain in folded reverse bit order.
    pub open spec fn reordered(self) -> DomainView {
        match self {
            DomainView::Points(p) => DomainView::Points(folded_bit_reversed(p)),
            DomainView::Scalars(s) => DomainView::Scalars(folded_bit_reversed(s)),
        }
    }

    /// The coordinates to divide by, as integers.
    pub open spec fn twiddles(self) -> Seq<int> {
        ints(self.coords())
    }

    /// The first half of the entries, lowered, as integers.
    pub open spec fn halved(self) -> Seq<int> {
        ints(self.lowered()).take((self.size() / 2) as int)
    }
}

impl View for Domain {
    type V = DomainView;

    open spec fn view(&self) -> DomainView {
        match self {
            Domain::Points(p) => DomainView::Points(p@),
            Domain::Scalars(s) => DomainView::Scalars(s@),
        }
    }
}

/// `domain` in folded reverse bit order.
pub fn reorder_domain(domain: &Domain) -> (r: Domain)
    ensures
        r@ == domain@.reordered(),
        r@.size() == domain@.size(),
{
    match domain {
        Domain::Points(p) => {
            proof {
                lemma_folded_bit_reversed_len(p@);
            }
            Domain::Points(folded_reverse_bit_order(p))
        },
        Domain::Scalars(s) => {
            proof {
                lemma_folded_bit_reversed_len(s@);
            }
            Domain::Scalars(folded_reverse_bit_order(s))
        },
    }
}

/// The entries of `s` as integers.
pub open spec fn ints(s: Seq<u32>) -> Seq<int> {
    s.map_values(|v: u32| v as int)
}

/// The first coordinate of the double of a point with first coordinate `x`.
pub open spec fn double_x(x: int) -> int {
    fnorm(2 * (x * x) - 1)
}

/// The coordinates that the level below a scalar level divides by: the
/// doubling map on the first half of `d`.
pub open spec fn halve_scalars(d: Seq<int>) -> Seq<int> {
    Seq::new(d.len() / 2, |i: int| double_x(d[i]))
}

impl Domain {
    /// The number of entries.
    pub fn len(&self) -> (r: usize)
        ensures
            r == self@.size(),
    {
        match self {
            Domain::Points(p) => p.len(),
            Domain::Scalars(s) => s.len(),
        }
    }
}

/// `(a + b) / 2`.
pub open spec fn half_sum(a: int, b: int) -> int {
    fmul(a + b, HALF as int)
}

/// `(a - b) / (2 t)`.
pub open spec fn half_diff(a: int, b: int, t: int) -> int {
    fmul(a - b, finv(2 * t))
}

/// The sums of the entries that mirror each other, halved.
pub open spec fn sums(v: Seq<int>) -> Seq<int> {
    Seq::new(v.len() / 2, |i: int| half_sum(v[i], v[v.len() - 1 - i]))
}

/// The differences of the entries that mirror each other, divided by twice
/// the coordinate of the first.
pub open spec fn diffs(v: Seq<int>, tw: Seq<int>) -> Seq<int> {
    Seq::new(v.len() / 2, |i: int| half_diff(v[i], v[v.len() - 1 - i], tw[i]))
}

/// The coefficients of the values `v` on the domain with coordinates `tw`
/// at this level and `next` at the level below: the coefficients of the
/// halved sums at the even places, those of the divided differences at the
/// odd places, both taken on the level below.
pub open spec fn transform(v: Seq<int>, tw: Seq<int>, next: Seq<int>) -> Seq<int>
    decreases v.len(),
{
    if v.len() <= 1 {
        v
    } else {
        interleave(
            transform(sums(v), next, halve_scalars(next)),
            transform(diffs(v, tw), next, halve_scalars(next)),
        )
    }
}

/// `f0 + t f1` for each entry.
pub open spec fn upper(f0: Seq<int>, f1: Seq<int>, tw: Seq<int>) -> Seq<int> {
    Seq::new(f0.len(), |i: int| fnorm(f0[i] + tw[i] * f1[i]))
}

/// `f0 - t f1` for each entry.
pub open spec fn lower(f0: Seq<int>, f1: Seq<int>, tw: Seq<int>) -> Seq<int> {
    Seq::new(f0.len(), |i: int| fnorm(f0[i] - tw[i] * f1[i]))
}

/// The values on the domain with coordinates `tw` at this level and `next`
/// at the level below that have the coefficients `c`: with `f0` and `f1`
/// the values of the coefficients at the even and at the odd places on the
/// level below, `f0 + t f1` followed by `f0 - t f1` from the last to the
/// first.
pub open spec fn inverse_transform(c: Seq<int>, tw: Seq<int>, next: Seq<int>) -> Seq<int>
    decreases c.len(),
{
    if c.len() <= 1 {
        c
    } else {
        let f0 = inverse_transform(evens(c), next, halve_scalars(next));
        let f1 = inverse_transform(odds(c), next, halve_scalars(next));
        upper(f0, f1, tw) + lower(f0, f1, tw).reverse()
    }
}

/// Every coordinate that the transform of `n` values divides by is
/// invertible.
pub open spec fn twiddles_invertible(n: nat, tw: Seq<int>, next: Seq<int>) -> bool
    decreases n,
{
    n <= 1 || ((forall|i: int| 0 <= i < n / 2 ==> invertible(#[trigger] tw[i]))
        && twiddles_invertible(n / 2, next, halve_scalars(next)))
}

/// Every entry is a canonical field element.
pub open spec fn canonical_ints(v: Seq<int>) -> bool {
    forall|i: int| 0 <= i < v.len() ==> 0 <= #[trigger] v[i] < MODULUS
}

/// The transform keeps the length.
pub proof fn lemma_transform_len(v: Seq<int>, tw: Seq<int>, next: Seq<int>)
    requires
        is_pow2(v.len()),
    ensures
        transform(v, tw, next).len() == v.len(),
    decreases v.len(),
{
    if v.len() > 1 {
        lemma_transform_len(sums(v), next, halve_scalars(next));
        lemma_transform_len(diffs(v, tw), next, halve_scalars(next));
    }
}

/// The inverse transform keeps the length.
pub proof fn lemma_inverse_transform_len(c: Seq<int>, tw: Seq<int>, next: Seq<int>)
    requires
        is_pow2(c.len()),
    ensures
        inverse_transform(c, tw, next).len() == c.len(),
    decreases c.len(),
{
    if c.len() > 1 {
        lemma_inverse_transform_len(evens(c), next, halve_scalars(next));
        lemma_inverse_transform_len(odds(c), next, halve_scalars(next));
    }
}

/// The point with second coordinate `y` on which the search for a
/// generator tries its luck: its first coordinate is the first square root
/// of `1 - y^2`, where there is one.
pub open spec fn candidate(y: u32) -> Option<CirclePoint> {
    match m31_sqrt(fnorm(1 - y * y) as u32) {
        Some(x) => Some(CirclePoint { x, y }),
        None => None,
    }
}

/// The number of doublings that take a point of full order to the point of
/// order two: one less than the logarithm of the group's order.
pub open spec fn order_doublings(field_modulus: u32) -> nat {
    if floor_log2((field_modulus + 1) as nat) >= 1 {
        (floor_log2((field_modulus + 1) as nat) - 1) as nat
    } else {
        0
    }
}

/// The candidate for `y` exists and has full order: doubled as often as
/// `order_doublings` says, it is not yet the identity.
pub open spec fn is_generator(field_modulus: u32, y: u32) -> bool {
    candidate(y) matches Some(p) && point_double_times(p, order_doublings(field_modulus))
        != identity()
}

/// The first of `2, 3, ..., field_modulus - 1` from `from` on that gives a
/// generator, if any does.
pub open spec fn first_generator_from(field_modulus: u32, from: nat) -> Option<CirclePoint>
    decreases field_modulus - from,
{
    if from >= field_modulus {
        None
    } else if is_generator(field_modulus, from as u32) {
        candidate(from as u32)
    } else {
        first_generator_from(field_modulus, from + 1)
    }
}

/// The generator that the search finds.
pub open spec fn generator(field_modulus: u32) -> Option<CirclePoint> {
    first_generator_from(field_modulus, 2)
}

/// The number of doublings that take the generator of the whole group to
/// the one of a domain of `size` points, where `size` is one the group has
/// room for.
pub open spec fn domain_doublings(field_modulus: u32, size: nat) -> Option<nat> {
    if size == 0 || size >= field_modulus || floor_log2(((field_modulus + 1) / size as int) as nat)
        == 0 {
        None
    } else {
        Some((floor_log2(((field_modulus + 1) / size as int) as nat) - 1) as nat)
    }
}

/// The generator of the domain of `size` points, or why there is none:
/// the generator of the group, doubled until its order is twice `size`.
pub open spec fn domain_generator_result(field_modulus: u32, size: nat) -> Result<
    CirclePoint,
    StarkError,
> {
    if domain_doublings(field_modulus, size) is None {
        Err(StarkError::InvalidLength)
    } else if generator(field_modulus) is None {
        Err(StarkError::NoGeneratorFound)
    } else {
        Ok(
            point_double_times(
                generator(field_modulus)->0,
                domain_doublings(field_modulus, size)->0,
            ),
        )
    }
}

/// Point `index` of the domain of `size` points, or why there is none.
pub open spec fn single_domain_value(field_modulus: u32, size: nat, index: nat) -> Result<
    CirclePoint,
    StarkError,
> {
    if index >= size {
        Err(StarkError::InvalidLength)
    } else {
        match domain_generator_result(field_modulus, size) {
            Ok(g) => Ok(scalar_mul(g, 2 * index + 1)),
            Err(e) => Err(e),
        }
    }
}

/// Point `i` of the domain that starts at `g`: `g` itself, and then each
/// time the double of `g` added to the point before.
pub open spec fn domain_point(g: CirclePoint, i: nat) -> CirclePoint
    decreases i,
{
    if i == 0 {
        g
    } else {
        point_add(point_double(g), domain_point(g, (i - 1) as nat))
    }
}

/// The domain of `size` points that starts at `g`.
pub open spec fn domain_from(g: CirclePoint, size: nat) -> Seq<CirclePoint> {
    Seq::new(size, |i: int| domain_point(g, i as nat))
}

/// On the circle, point `i` of the domain that starts at `g` is the odd
/// multiple `(2 i + 1) g`.
pub proof fn lemma_domain_point_is_odd_multiple(g: CirclePoint, i: nat)
    requires
        on_curve(g),
        canonical(g),
    ensures
        domain_point(g, i) == scalar_mul(g, 2 * i + 1),
    decreases i,
{
    lemma_scalar_mul_is_repeated_add(g, 2 * i + 1);
    if i == 0 {
        lemma_scalar_mul_is_repeated_add(g, 1);
    } else {
        lemma_domain_point_is_odd_multiple(g, (i - 1) as nat);
        lemma_scalar_mul_is_repeated_add(g, (2 * i - 1) as nat);
        lemma_scalar_mul_is_repeated_add(g, 2);
        crate::circle::lemma_scalar_mul_two(g);
        lemma_repeated_add_splits(g, 2, (2 * i - 1) as nat);
        assert(2 + (2 * i - 1) == 2 * i + 1);
    }
}

/// Where the generator of a domain is a point of the circle, the point
/// that `get_single_domain_value` gives for a position is the point that
/// `get_initial_domain_of_size` has at that position.
pub proof fn lemma_single_value_in_domain(field_modulus: u32, size: nat, index: nat)
    requires
        index < size,
        domain_generator_result(field_modulus, size) matches Ok(g) && on_curve(g) && canonical(g),
    ensures
        initial_domain(field_modulus, size) is Ok,
        single_domain_value(field_modulus, size, index) == Ok::<CirclePoint, StarkError>(
            initial_domain(field_modulus, size)->Ok_0[index as int],
        ),
{
    let g = domain_generator_result(field_modulus, size)->Ok_0;
    lemma_domain_point_is_odd_multiple(g, index);
}

/// `n` doublings of `p`.
pub fn double_times(p: CirclePoint, n: usize) -> (r: CirclePoint)
    ensures
        r == point_double_times(p, n as nat),
{
    let mut q = p;
    let mut i: usize = 0;
    while i < n
        invariant
            i <= n,
            q == point_double_times(p, i as nat),
        decreases n - i,
    {
        q = q.double();
        i = i + 1;
    }
    q
}

/// The integer logarithm of `x + 1`.
fn log2_successor(x: u32) -> (r: usize)
    ensures
        r == floor_log2((x + 1) as nat),
        r <= 32,
{
    if x == u32::MAX {
        proof {
            crate::utils::lemma_pow2_32();
            crate::utils::lemma_pow2_is_pow2(32);
        }
        32
    } else {
        log2(x + 1)
    }
}

/// A generator of the circle group: the first of the second coordinates
/// `2, 3, ..., field_modulus - 1` for which `1 - y^2` has a square root and
/// the point with the first root as its first coordinate has full order.
/// `NoGeneratorFound` when there is none.
pub fn get_generator(field_modulus: u32) -> (r: Result<CirclePoint, StarkError>)
    ensures
        r is Ok <==> generator(field_modulus) is Some,
        r is Err ==> r == Err::<CirclePoint, StarkError>(StarkError::NoGeneratorFound),
        r matches Ok(g) ==> generator(field_modulus) == Some(g) && on_curve(g) && g.x < MODULUS,
{
    let log = log2_successor(field_modulus);
    let doublings: usize = if log >= 1 {
        log - 1
    } else {
        0
    };
    let mut y: u32 = 2;
    while y < field_modulus
        invariant
            2 <= y,
            doublings == order_doublings(field_modulus),
            first_generator_from(field_modulus, y as nat) == generator(field_modulus),
        decreases field_modulus - y,
    {
        let yy = multiply(y, y);
        proof {
            lemma_sub_mod_noop_right(1, y * y, MODULUS as int);
            lemma_mod_twice(1 - y * y, MODULUS as int);
        }
        let rhs = subtract(1, yy);
        assert(rhs == fnorm(1 - y * y) && rhs % MODULUS == rhs);
        match sqrt(rhs) {
            Ok(x) => {
                let point = CirclePoint::new_with_field_elements(x, y);
                assert(candidate(y) == Some(point));
                let top = double_times(point, doublings);
                if top.x != 1 || top.y != 0 {
                    assert(is_generator(field_modulus, y));
                    assert(on_curve(point)) by {
                        let m = MODULUS as int;
                        lemma_add_mod_noop(x * x, y * y, m);
                        lemma_add_mod_noop(1 - y * y, y * y, m);
                    }
                    return Ok(point);
                }
                assert(!is_generator(field_modulus, y));
            },
            Err(_) => {
                assert(candidate(y) is None);
            },
        }
        assert(first_generator_from(field_modulus, y as nat) == first_generator_from(
            field_modulus,
            (y + 1) as nat,
        ));
        y = y + 1;
    }
    Err(StarkError::NoGeneratorFound)
}

/// The generator of the domain of `size` points: `InvalidLength` where the
/// group has no room for such a domain, `NoGeneratorFound` where the group
/// has no generator.
fn domain_generator(field_modulus: u32, size: usize) -> (r: Result<CirclePoint, StarkError>)
    ensures
        r is Ok <==> domain_doublings(field_modulus, size as nat) is Some && generator(
            field_modulus,
        ) is Some,
        r matches Err(e) ==> e == if domain_doublings(field_modulus, size as nat) is None {
            StarkError::InvalidLength
        } else {
            StarkError::NoGeneratorFound
        },
        r matches Ok(g) ==> g == point_double_times(
            generator(field_modulus)->0,
            domain_doublings(field_modulus, size as nat)->0,
        ),
        r is Ok ==> 2 * size <= field_modulus + 1,
{
    if size == 0 || size >= field_modulus as usize {
        return Err(StarkError::InvalidLength);
    }
    let quotient: u64 = (field_modulus as u64 + 1) / (size as u64);
    assert(quotient <= field_modulus + 1) by (nonlinear_arith)
        requires
            quotient == (field_modulus + 1) / (size as int),
            size >= 1,
    ;
    let log = if quotient > 0xffff_ffff {
        proof {
            crate::utils::lemma_pow2_32();
            crate::utils::lemma_pow2_is_pow2(32);
        }
        32
    } else {
        log2(quotient as u32)
    };
    if log == 0 {
        return Err(StarkError::InvalidLength);
    }
    assert(2 * size <= field_modulus + 1) by (nonlinear_arith)
        requires
            (field_modulus + 1) / (size as int) >= 2,
            size >= 1,
    ;
    match get_generator(field_modulus) {
        Ok(g) => Ok(double_times(g, log - 1)),
        Err(e) => Err(e),
    }
}

/// The domain of `size` points: the odd multiples `g, 3 g, 5 g, ...` of the
/// point `g` that the generator of the group becomes when it is doubled
/// until its order is twice `size`.
pub fn get_initial_domain_of_size(field_modulus: u32, size: usize) -> (r: Result<
    Vec<CirclePoint>,
    StarkError,
>)
    ensures
        match (r, initial_domain(field_modulus, size as nat)) {
            (Ok(d), Ok(stated)) => d@ == stated,
            (Err(e), Err(f)) => e == f,
            _ => false,
        },
{
    let g = match domain_generator(field_modulus, size) {
        Ok(g) => g,
        Err(e) => {
            return Err(e);
        },
    };
    let gx2 = g.double();
    let mut domain: Vec<CirclePoint> = Vec::new();
    domain.push(g);
    let mut i: usize = 1;
    while i < size
        invariant
            1 <= i <= size,
            gx2 == point_double(g),
            domain.len() == i,
            forall|j: int| 0 <= j < i ==> domain[j] == domain_point(g, j as nat),
        decreases size - i,
    {
        let last = domain[i - 1];
        domain.push(gx2.add(last));
        i = i + 1;
    }
    assert(domain@ =~= domain_from(g, size as nat));
    Ok(domain)
}

/// Point `index` of the domain of `size` points, as the multiple
/// `(2 index + 1) g` of the domain's generator. `InvalidLength` also where
/// `index` is no position of the domain.
pub fn get_single_domain_value(field_modulus: u32, size: usize, index: usize) -> (r: Result<
    CirclePoint,
    StarkError,
>)
    ensures
        r == single_domain_value(field_modulus, size as nat, index as nat),
{
    if index >= size {
        return Err(StarkError::InvalidLength);
    }
    match domain_generator(field_modulus, size) {
        Ok(g) => {
            Ok(scalar_multiply(g, (2 * index + 1) as u32))
        },
        Err(e) => Err(e),
    }
}

/// One level of the transform is undone by one level of its inverse: from
/// `(a + b) / 2` and `(a - b) / (2 t)`, the sum with `t` times the second
/// is `a` and the difference is `b`.
pub proof fn lemma_level_round_trip(a: int, b: int, t: int)
    requires
        0 <= a < MODULUS,
        0 <= b < MODULUS,
        invertible(t),
    ensures
        fnorm(half_sum(a, b) + t * half_diff(a, b, t)) == a,
        fnorm(half_sum(a, b) - t * half_diff(a, b, t)) == b,
{
    let m = MODULUS as int;
    let h = HALF as int;
    let t2 = 2 * t;
    lemma_double_invertible(t);
    let w = finv(t2);
    lemma_finv_congruent(t2, t2);
    let s = half_sum(a, b);
    let d = half_diff(a, b, t);
    let sx = (a + b) * h;
    let dx = t * ((a - b) * w);
    lemma_mod_twice(sx, m);
    lemma_mul_mod_noop_right(t, (a - b) * w, m);
    // the sum
    let x = sx + dx;
    lemma_fadd_congruent(s, sx, t * d, dx);
    assert(2 * x == (a + b) * (2 * h) + (a - b) * (t2 * w)) by (nonlinear_arith)
        requires
            x == sx + dx,
            sx == (a + b) * h,
            dx == t * ((a - b) * w),
            t2 == 2 * t,
    ;
    lemma_fmul_congruent(a + b, a + b, 2 * h, 1);
    lemma_fmul_congruent(a - b, a - b, t2 * w, 1);
    lemma_fadd_congruent((a + b) * (2 * h), (a + b) * 1, (a - b) * (t2 * w), (a - b) * 1);
    assert((a + b) * 1 + (a - b) * 1 == 2 * a);
    lemma_cancel_two(x, a);
    lemma_small_mod(a as nat, m as nat);
    // the difference
    let y = sx - dx;
    lemma_fsub_congruent(s, sx, t * d, dx);
    assert(2 * y == (a + b) * (2 * h) - (a - b) * (t2 * w)) by (nonlinear_arith)
        requires
            y == sx - dx,
            sx == (a + b) * h,
            dx == t * ((a - b) * w),
            t2 == 2 * t,
    ;
    lemma_fsub_congruent((a + b) * (2 * h), (a + b) * 1, (a - b) * (t2 * w), (a - b) * 1);
    assert((a + b) * 1 - (a - b) * 1 == 2 * b);
    lemma_cancel_two(y, b);
    lemma_small_mod(b as nat, m as nat);
}

/// The inverse transform undoes the transform: on a domain whose
/// coordinates are invertible, the values that have the coefficients of `v`
/// are `v`.
pub proof fn lemma_inverse_transform_undoes_transform(v: Seq<int>, tw: Seq<int>, next: Seq<int>)
    requires
        is_pow2(v.len()),
        canonical_ints(v),
        twiddles_invertible(v.len(), tw, next),
    ensures
        inverse_transform(transform(v, tw, next), tw, next) == v,
    decreases v.len(),
{
    let n = v.len() as int;
    if n > 1 {
        let below = halve_scalars(next);
        let s = sums(v);
        let d = diffs(v, tw);
        let cs = transform(s, next, below);
        let cd = transform(d, next, below);
        let c = transform(v, tw, next);
        lemma_transform_len(s, next, below);
        lemma_transform_len(d, next, below);
        assert(evens(c) =~= cs);
        assert(odds(c) =~= cd);
        assert(twiddles_invertible((n / 2) as nat, next, below));
        lemma_inverse_transform_undoes_transform(s, next, below);
        lemma_inverse_transform_undoes_transform(d, next, below);
        let back = upper(s, d, tw) + lower(s, d, tw).reverse();
        assert forall|i: int| 0 <= i < n implies back[i] == v[i] by {
            if i < n / 2 {
                lemma_level_round_trip(v[i], v[n - 1 - i], tw[i]);
            } else {
                lemma_level_round_trip(v[n - 1 - i], v[i], tw[n - 1 - i]);
            }
        }
        assert(back =~= v);
    }
}

/// One level of the inverse transform is undone by one level of the
/// transform: from `g0 + t g1` and `g0 - t g1`, half the sum is `g0` and
/// the difference divided by `2 t` is `g1`.
pub proof fn lemma_level_round_trip_converse(g0: int, g1: int, t: int)
    requires
        0 <= g0 < MODULUS,
        0 <= g1 < MODULUS,
        invertible(t),
    ensures
        half_sum(fnorm(g0 + t * g1), fnorm(g0 - t * g1)) == g0,
        half_diff(fnorm(g0 + t * g1), fnorm(g0 - t * g1), t) == g1,
{
    let m = MODULUS as int;
    let h = HALF as int;
    let t2 = 2 * t;
    lemma_double_invertible(t);
    let w = finv(t2);
    lemma_finv_congruent(t2, t2);
    let u = fnorm(g0 + t * g1);
    let l = fnorm(g0 - t * g1);
    // the sum
    lemma_fadd_congruent(u, g0 + t * g1, l, g0 - t * g1);
    assert((g0 + t * g1) + (g0 - t * g1) == 2 * g0);
    lemma_fmul_congruent(u + l, 2 * g0, h, h);
    assert((2 * g0) * h == g0 * m + g0) by (nonlinear_arith)
        requires
            h == 1073741824,
            m == 2147483647,
    ;
    lemma_mod_multiples_vanish(g0, g0, m);
    lemma_small_mod(g0 as nat, m as nat);
    // the difference
    lemma_fsub_congruent(u, g0 + t * g1, l, g0 - t * g1);
    assert((g0 + t * g1) - (g0 - t * g1) == 2 * (t * g1));
    lemma_fmul_congruent(u - l, 2 * (t * g1), w, w);
    assert((2 * (t * g1)) * w == g1 * (t2 * w)) by (nonlinear_arith)
        requires
            t2 == 2 * t,
    ;
    lemma_fmul_congruent(g1, g1, t2 * w, 1);
    lemma_small_mod(g1 as nat, m as nat);
}

/// The inverse transform of canonical coefficients gives canonical values.
pub proof fn lemma_inverse_transform_canonical(c: Seq<int>, tw: Seq<int>, next: Seq<int>)
    requires
        is_pow2(c.len()),
        canonical_ints(c),
    ensures
        canonical_ints(inverse_transform(c, tw, next)),
        inverse_transform(c, tw, next).len() == c.len(),
    decreases c.len(),
{
    lemma_inverse_transform_len(c, tw, next);
    if c.len() > 1 {
        let below = halve_scalars(next);
        lemma_inverse_transform_len(evens(c), next, below);
        lemma_inverse_transform_len(odds(c), next, below);
    }
}

/// The transform undoes the inverse transform: on a domain whose
/// coordinates are invertible, the coefficients of the values that have
/// the canonical coefficients `c` are `c`.
pub proof fn lemma_transform_undoes_inverse_transform(c: Seq<int>, tw: Seq<int>, next: Seq<int>)
    requires
        is_pow2(c.len()),
        canonical_ints(c),
        twiddles_invertible(c.len(), tw, next),
    ensures
        transform(inverse_transform(c, tw, next), tw, next) == c,
    decreases c.len(),
{
    let n = c.len() as int;
    if n > 1 {
        let below = halve_scalars(next);
        let ce = evens(c);
        let co = odds(c);
        let f0 = inverse_transform(ce, next, below);
        let f1 = inverse_transform(co, next, below);
        assert(canonical_ints(ce)) by {
            assert forall|i: int| 0 <= i < ce.len() implies 0 <= #[trigger] ce[i] < MODULUS by {
                assert(ce[i] == c[2 * i]);
            }
        }
        assert(canonical_ints(co)) by {
            assert forall|i: int| 0 <= i < co.len() implies 0 <= #[trigger] co[i] < MODULUS by {
                assert(co[i] == c[2 * i + 1]);
            }
        }
        lemma_inverse_transform_canonical(ce, next, below);
        lemma_inverse_transform_canonical(co, next, below);
        let v = inverse_transform(c, tw, next);
        assert(v == upper(f0, f1, tw) + lower(f0, f1, tw).reverse());
        assert forall|i: int| 0 <= i < n / 2 implies sums(v)[i] == f0[i] && diffs(v, tw)[i]
            == f1[i] by {
            lemma_level_round_trip_converse(f0[i], f1[i], tw[i]);
            assert(v[i] == upper(f0, f1, tw)[i]);
            assert(v[n - 1 - i] == lower(f0, f1, tw)[i]);
        }
        assert(sums(v) =~= f0);
        assert(diffs(v, tw) =~= f1);
        lemma_transform_undoes_inverse_transform(ce, next, below);
        lemma_transform_undoes_inverse_transform(co, next, below);
        assert(interleave(ce, co) =~= c);
    }
}

/// Where `inv_fft` is given canonical coefficients on a domain whose
/// coordinates are invertible, `fft` on the same domain gives the
/// coefficients back from the values.
pub proof fn lemma_fft_undoes_inv_fft(c: Seq<int>, domain: Option<&Domain>)
    requires
        canonical_ints(c),
        fft_result(c, domain) is Ok,
    ensures
        inv_fft_result(c, domain) is Ok,
        fft_result(inv_fft_result(c, domain)->Ok_0, domain) == Ok::<Seq<int>, StarkError>(c),
{
    match domain {
        Some(d) => {
            lemma_inverse_transform_len(c, d@.twiddles(), d@.halved());
            lemma_transform_undoes_inverse_transform(c, d@.twiddles(), d@.halved());
        },
        None => {
            let p = initial_domain(MODULUS, c.len())->Ok_0;
            let tw = DomainView::Points(p).twiddles();
            let next = DomainView::Points(p).halved();
            lemma_inverse_transform_len(c, tw, next);
            lemma_transform_undoes_inverse_transform(c, tw, next);
        },
    }
}

/// `a + coeff b`, entry by entry.
pub open spec fn combine(a: Seq<int>, b: Seq<int>, coeff: int) -> Seq<int> {
    Seq::new(a.len(), |i: int| fnorm(a[i] + coeff * b[i]))
}

/// Half the sum of two combinations is the combination of the half sums,
/// and their divided difference that of the divided differences.
proof fn lemma_level_linear(a1: int, a2: int, b1: int, b2: int, coeff: int, t: int)
    ensures
        half_sum(fnorm(a1 + coeff * b1), fnorm(a2 + coeff * b2)) == fnorm(
            half_sum(a1, a2) + coeff * half_sum(b1, b2),
        ),
        half_diff(fnorm(a1 + coeff * b1), fnorm(a2 + coeff * b2), t) == fnorm(
            half_diff(a1, a2, t) + coeff * half_diff(b1, b2, t),
        ),
{
    let m = MODULUS as int;
    let h = HALF as int;
    let w = finv(2 * t);
    let u1 = a1 + coeff * b1;
    let u2 = a2 + coeff * b2;
    // the sums
    lemma_fadd_congruent(fnorm(u1), u1, fnorm(u2), u2);
    lemma_fmul_congruent(fnorm(u1) + fnorm(u2), u1 + u2, h, h);
    assert((u1 + u2) * h == (a1 + a2) * h + coeff * ((b1 + b2) * h)) by (nonlinear_arith)
        requires
            u1 == a1 + coeff * b1,
            u2 == a2 + coeff * b2,
    ;
    lemma_mul_mod_noop_right(coeff, (b1 + b2) * h, m);
    lemma_fadd_congruent(
        (a1 + a2) * h,
        half_sum(a1, a2),
        coeff * ((b1 + b2) * h),
        coeff * half_sum(b1, b2),
    );
    // the differences
    lemma_fsub_congruent(fnorm(u1), u1, fnorm(u2), u2);
    lemma_fmul_congruent(fnorm(u1) - fnorm(u2), u1 - u2, w, w);
    assert((u1 - u2) * w == (a1 - a2) * w + coeff * ((b1 - b2) * w)) by (nonlinear_arith)
        requires
            u1 == a1 + coeff * b1,
            u2 == a2 + coeff * b2,
    ;
    lemma_mul_mod_noop_right(coeff, (b1 - b2) * w, m);
    lemma_fadd_congruent(
        (a1 - a2) * w,
        half_diff(a1, a2, t),
        coeff * ((b1 - b2) * w),
        coeff * half_diff(b1, b2, t),
    );
}

/// The transform is linear: the coefficients of `a + coeff b` are those of
/// `a` plus `coeff` times those of `b`.
pub proof fn lemma_transform_linear(
    a: Seq<int>,
    b: Seq<int>,
    coeff: int,
    tw: Seq<int>,
    next: Seq<int>,
)
    requires
        is_pow2(a.len()),
        a.len() == b.len(),
    ensures
        transform(combine(a, b, coeff), tw, next) == combine(
            transform(a, tw, next),
            transform(b, tw, next),
            coeff,
        ),
    decreases a.len(),
{
    let n = a.len() as int;
    let w = combine(a, b, coeff);
    if n > 1 {
        let below = halve_scalars(next);
        assert forall|i: int| 0 <= i < n / 2 implies #[trigger] sums(w)[i] == combine(
            sums(a),
            sums(b),
            coeff,
        )[i] by {
            lemma_level_linear(a[i], a[n - 1 - i], b[i], b[n - 1 - i], coeff, tw[i]);
        }
        assert forall|i: int| 0 <= i < n / 2 implies #[trigger] diffs(w, tw)[i] == combine(
            diffs(a, tw),
            diffs(b, tw),
            coeff,
        )[i] by {
            lemma_level_linear(a[i], a[n - 1 - i], b[i], b[n - 1 - i], coeff, tw[i]);
        }
        assert(sums(w) =~= combine(sums(a), sums(b), coeff));
        assert(diffs(w, tw) =~= combine(diffs(a, tw), diffs(b, tw), coeff));
        lemma_transform_linear(sums(a), sums(b), coeff, next, below);
        lemma_transform_linear(diffs(a, tw), diffs(b, tw), coeff, next, below);
        lemma_transform_len(sums(a), next, below);
        lemma_transform_len(sums(b), next, below);
        lemma_transform_len(diffs(a, tw), next, below);
        lemma_transform_len(diffs(b, tw), next, below);
        let sa = transform(sums(a), next, below);
        let sb = transform(sums(b), next, below);
        let da = transform(diffs(a, tw), next, below);
        let db = transform(diffs(b, tw), next, below);
        assert(interleave(combine(sa, sb, coeff), combine(da, db, coeff)) =~= combine(
            interleave(sa, da),
            interleave(sb, db),
            coeff,
        ));
    }
}

/// `(a + b) / 2`.
pub(crate) fn halved_sum(a: u32, b: u32) -> (r: u32)
    ensures
        r == half_sum(a as int, b as int),
        r < MODULUS,
{
    proof {
        lemma_mod_twice(a + b, MODULUS as int);
        lemma_fmul_congruent(fnorm(a + b), a + b, HALF as int, HALF as int);
    }
    multiply(addition(a, b), HALF)
}

/// `(a - b) / (2 t)`; `DivisionByZero` when `t` is zero.
pub(crate) fn divided_difference(a: u32, b: u32, t: u32) -> (r: Result<u32, StarkError>)
    ensures
        r is Ok <==> invertible(t as int),
        r is Err ==> r == Err::<u32, StarkError>(StarkError::DivisionByZero),
        r matches Ok(q) ==> q == half_diff(a as int, b as int, t as int) && q < MODULUS,
{
    let d = subtract(a, b);
    let t2 = multiply(2, t);
    proof {
        lemma_double_invertible(t as int);
        lemma_mod_twice(2 * t, MODULUS as int);
        lemma_mod_twice(a - b, MODULUS as int);
        lemma_finv_congruent(t2 as int, 2 * t);
    }
    match div(d, t2) {
        Ok(q) => {
            proof {
                let w = finv(t2 as int);
                lemma_fmul_congruent(d as int, a - b, w, w);
            }
            Ok(q)
        },
        Err(e) => Err(e),
    }
}

/// `f0 + t f1`.
pub(crate) fn combined_sum(f0: u32, t: u32, f1: u32) -> (r: u32)
    ensures
        r == fnorm(f0 + t * f1),
        r < MODULUS,
{
    proof {
        lemma_add_mod_noop_right(f0 as int, t * f1, MODULUS as int);
    }
    addition(f0, multiply(t, f1))
}

/// `f0 - t f1`.
pub(crate) fn combined_difference(f0: u32, t: u32, f1: u32) -> (r: u32)
    ensures
        r == fnorm(f0 - t * f1),
        r < MODULUS,
{
    proof {
        lemma_sub_mod_noop_right(f0 as int, t * f1, MODULUS as int);
    }
    subtract(f0, multiply(t, f1))
}

/// The image of the scalar `x` under the doubling map, `2 x^2 - 1`.
pub fn halve_single_scalar(x: u32) -> (r: u32)
    ensures
        r == double_x(x as int),
        r < MODULUS,
{
    let xx = multiply(x, x);
    proof {
        let m = MODULUS as int;
        lemma_mul_mod_noop_right(2, x * x, m);
        lemma_sub_mod_noop(2 * (x * x), 1, m);
    }
    subtract(multiply(2, xx), 1)
}

/// What stands below a point in the halved domain: its first coordinate.
pub fn halve_single_domain_value(value: &CirclePoint) -> (r: u32)
    ensures
        r == value.x,
{
    value.x
}

/// Whether the domain is one of points.
pub fn is_tuple(domain: &Domain) -> (r: bool)
    ensures
        r == (domain is Points),
{
    match domain {
        Domain::Points(_) => true,
        Domain::Scalars(_) => false,
    }
}

/// The domain below `domain`: of its first half, or of all its entries
/// where `preserve_length` is set, the first coordinates of points and the
/// images of scalars under the doubling map.
pub fn halve_domain(domain: &Domain, preserve_length: bool) -> (r: Domain)
    ensures
        r is Scalars,
        r@ == DomainView::Scalars(
            domain@.lowered().take(
                if preserve_length {
                    domain@.size() as int
                } else {
                    (domain@.size() / 2) as int
                },
            ),
        ),
        !preserve_length ==> r@.twiddles() == domain@.halved(),
{
    let new_length = if preserve_length {
        domain.len()
    } else {
        domain.len() / 2
    };
    let mut out: Vec<u32> = Vec::new();
    let mut i: usize = 0;
    while i < new_length
        invariant
            i <= new_length <= domain@.size(),
            out.len() == i,
            forall|j: int| 0 <= j < i ==> out[j] == domain@.lowered()[j],
        decreases new_length - i,
    {
        match domain {
            Domain::Points(p) => {
                out.push(p[i].x);
            },
            Domain::Scalars(s) => {
                out.push(halve_single_scalar(s[i]));
            },
        }
        i = i + 1;
    }
    let r = Domain::Scalars(out);
    assert(out@ =~= domain@.lowered().take(new_length as int));
    if !preserve_length {
        assert(r@.twiddles() =~= domain@.halved());
    }
    r
}

/// The images of the first half of `d` under the doubling map.
fn halved_scalars(d: &Vec<u32>) -> (r: Vec<u32>)
    ensures
        ints(r@) == halve_scalars(ints(d@)),
        r.len() == d.len() / 2,
{
    let n = d.len() / 2;
    let mut out: Vec<u32> = Vec::new();
    let mut i: usize = 0;
    while i < n
        invariant
            i <= n,
            n == d.len() / 2,
            out.len() == i,
            forall|j: int| 0 <= j < i ==> out[j] as int == double_x(d[j] as int),
        decreases n - i,
    {
        out.push(halve_single_scalar(d[i]));
        i = i + 1;
    }
    assert(ints(out@) =~= halve_scalars(ints(d@)));
    out
}

/// The entries of `a` at the even places and those of `b` at the odd ones.
fn interleaved(a: &Vec<u32>, b: &Vec<u32>) -> (r: Vec<u32>)
    requires
        a.len() == b.len(),
        a.len() + b.len() <= usize::MAX,
    ensures
        ints(r@) == interleave(ints(a@), ints(b@)),
        r.len() == a.len() + b.len(),
{
    let n = a.len();
    let mut out: Vec<u32> = Vec::new();
    let mut i: usize = 0;
    while i < n
        invariant
            i <= n,
            n == a.len(),
            n == b.len(),
            out.len() == 2 * i,
            2 * n <= usize::MAX,
            forall|j: int|
                0 <= j < 2 * i ==> out[j] == if j % 2 == 0 {
                    a[j / 2]
                } else {
                    b[j / 2]
                },
        decreases n - i,
    {
        out.push(a[i]);
        out.push(b[i]);
        i = i + 1;
    }
    assert(ints(out@) =~= interleave(ints(a@), ints(b@)));
    out
}

fn transform_level(vals: &Vec<u32>, tw: &Vec<u32>, next: &Vec<u32>) -> (r: Result<
    Vec<u32>,
    StarkError,
>)
    requires
        is_pow2(vals.len() as nat),
        tw.len() >= vals.len() / 2,
        next.len() >= vals.len() / 4,
    ensures
        r is Ok <==> twiddles_invertible(vals.len() as nat, ints(tw@), ints(next@)),
        r is Err ==> r == Err::<Vec<u32>, StarkError>(StarkError::DivisionByZero),
        r matches Ok(c) ==> ints(c@) == transform(ints(vals@), ints(tw@), ints(next@))
            && c.len() == vals.len(),
    decreases vals.len(),
{
    let n = vals.len();
    if n == 1 {
        let mut out: Vec<u32> = Vec::new();
        out.push(vals[0]);
        assert(out@ =~= vals@);
        return Ok(out);
    }
    let h = n / 2;
    let ghost v = ints(vals@);
    let ghost t = ints(tw@);
    let mut f0: Vec<u32> = Vec::new();
    let mut f1: Vec<u32> = Vec::new();
    let mut i: usize = 0;
    while i < h
        invariant
            i <= h,
            h == n / 2,
            n == vals.len(),
            n >= 2,
            tw.len() >= h,
            v == ints(vals@),
            t == ints(tw@),
            f0.len() == i,
            f1.len() == i,
            forall|j: int| 0 <= j < i ==> f0[j] as int == half_sum(v[j], v[n - 1 - j]),
            forall|j: int| 0 <= j < i ==> f1[j] as int == half_diff(v[j], v[n - 1 - j], t[j]),
            forall|j: int| 0 <= j < i ==> invertible(#[trigger] t[j]),
        decreases h - i,
    {
        let l = vals[i];
        let r = vals[n - 1 - i];
        f0.push(halved_sum(l, r));
        match divided_difference(l, r, tw[i]) {
            Ok(q) => {
                f1.push(q);
            },
            Err(e) => {
                assert(!invertible(t[i as int]));
                return Err(e);
            },
        }
        i = i + 1;
    }
    assert(ints(f0@) =~= sums(v));
    assert(ints(f1@) =~= diffs(v, t));
    let below = halved_scalars(next);
    let r0 = match transform_level(&f0, next, &below) {
        Ok(c) => c,
        Err(e) => {
            return Err(e);
        },
    };
    let r1 = match transform_level(&f1, next, &below) {
        Ok(c) => c,
        Err(e) => {
            return Err(e);
        },
    };
    Ok(interleaved(&r0, &r1))
}

fn inverse_level(coeffs: &Vec<u32>, tw: &Vec<u32>, next: &Vec<u32>) -> (r: Vec<u32>)
    requires
        is_pow2(coeffs.len() as nat),
        tw.len() >= coeffs.len() / 2,
        next.len() >= coeffs.len() / 4,
    ensures
        ints(r@) == inverse_transform(ints(coeffs@), ints(tw@), ints(next@)),
        r.len() == coeffs.len(),
    decreases coeffs.len(),
{
    let n = coeffs.len();
    if n == 1 {
        let mut out: Vec<u32> = Vec::new();
        out.push(coeffs[0]);
        assert(out@ =~= coeffs@);
        return out;
    }
    let h = n / 2;
    let ghost c = ints(coeffs@);
    let ghost t = ints(tw@);
    let below = halved_scalars(next);
    let ce = even_entries(coeffs);
    let co = odd_entries(coeffs);
    assert(ints(ce@) =~= evens(c));
    assert(ints(co@) =~= odds(c));
    let f0 = inverse_level(&ce, next, &below);
    let f1 = inverse_level(&co, next, &below);
    let ghost g0 = ints(f0@);
    let ghost g1 = ints(f1@);
    let mut out: Vec<u32> = Vec::new();
    let mut i: usize = 0;
    while i < h
        invariant
            i <= h,
            h == n / 2,
            f0.len() == h,
            f1.len() == h,
            tw.len() >= h,
            g0 == ints(f0@),
            g1 == ints(f1@),
            t == ints(tw@),
            out.len() == i,
            forall|j: int| 0 <= j < i ==> out[j] as int == upper(g0, g1, t)[j],
        decreases h - i,
    {
        out.push(combined_sum(f0[i], tw[i], f1[i]));
        i = i + 1;
    }
    let mut k: usize = 0;
    while k < h
        invariant
            k <= h,
            h == n / 2,
            f0.len() == h,
            f1.len() == h,
            tw.len() >= h,
            g0 == ints(f0@),
            g1 == ints(f1@),
            t == ints(tw@),
            out.len() == h + k,
            forall|j: int| 0 <= j < h ==> out[j] as int == upper(g0, g1, t)[j],
            forall|m: int| h <= m < h + k ==> out[m] as int == lower(g0, g1, t)[2 * h - 1 - m],
        decreases h - k,
    {
        let j: usize = h - 1 - k;
        out.push(combined_difference(f0[j], tw[j], f1[j]));
        k = k + 1;
    }
    assert(ints(out@) =~= upper(g0, g1, t) + lower(g0, g1, t).reverse());
    out
}

/// The coordinates that the transform divides by at each entry.
fn twiddle_values(domain: &Domain) -> (r: Vec<u32>)
    ensures
        ints(r@) == domain@.twiddles(),
        r.len() == domain@.size(),
{
    let n = domain.len();
    let mut out: Vec<u32> = Vec::new();
    let mut i: usize = 0;
    while i < n
        invariant
            i <= n,
            n == domain@.size(),
            out.len() == i,
            forall|j: int| 0 <= j < i ==> out[j] == domain@.coords()[j],
        decreases n - i,
    {
        match domain {
            Domain::Points(p) => {
                out.push(p[i].y);
            },
            Domain::Scalars(s) => {
                out.push(s[i]);
            },
        }
        i = i + 1;
    }
    assert(ints(out@) =~= domain@.twiddles());
    out
}

/// The first half of the entries, lowered.
fn halved_values(domain: &Domain) -> (r: Vec<u32>)
    ensures
        ints(r@) == domain@.halved(),
        r.len() == domain@.size() / 2,
{
    match halve_domain(domain, false) {
        Domain::Scalars(v) => {
            assert(ints(v@).len() == v.len());
            v
        },
        Domain::Points(_) => Vec::new(),
    }
}

/// What the transform of `v` gives on a domain of `size` entries with the
/// coordinates `tw` and, below them, `next`.
pub open spec fn transform_result(v: Seq<int>, size: nat, tw: Seq<int>, next: Seq<int>) -> Result<
    Seq<int>,
    StarkError,
> {
    if !is_pow2(v.len()) || size != v.len() {
        Err(StarkError::InvalidLength)
    } else if !twiddles_invertible(v.len(), tw, next) {
        Err(StarkError::DivisionByZero)
    } else {
        Ok(transform(v, tw, next))
    }
}

/// What the inverse transform of `c` gives on a domain of `size` entries
/// with the coordinates `tw` and, below them, `next`.
pub open spec fn inverse_transform_result(
    c: Seq<int>,
    size: nat,
    tw: Seq<int>,
    next: Seq<int>,
) -> Result<Seq<int>, StarkError> {
    if !is_pow2(c.len()) || size != c.len() {
        Err(StarkError::InvalidLength)
    } else {
        Ok(inverse_transform(c, tw, next))
    }
}

/// The domain of `size` points, or why there is none.
pub open spec fn initial_domain(field_modulus: u32, size: nat) -> Result<
    Seq<CirclePoint>,
    StarkError,
> {
    if domain_doublings(field_modulus, size) is None {
        Err(StarkError::InvalidLength)
    } else if generator(field_modulus) is None {
        Err(StarkError::NoGeneratorFound)
    } else {
        Ok(
            domain_from(
                point_double_times(
                    generator(field_modulus)->0,
                    domain_doublings(field_modulus, size)->0,
                ),
                size,
            ),
        )
    }
}

/// The computed result is the stated one.
pub open spec fn same_result(
    r: Result<Vec<u32>, StarkError>,
    stated: Result<Seq<int>, StarkError>,
) -> bool {
    match (r, stated) {
        (Ok(c), Ok(s)) => ints(c@) == s,
        (Err(e), Err(f)) => e == f,
        _ => false,
    }
}

/// What `fft` returns for the values `v`.
pub open spec fn fft_result(v: Seq<int>, domain: Option<&Domain>) -> Result<Seq<int>, StarkError> {
    match domain {
        Some(d) => transform_result(v, d@.size(), d@.twiddles(), d@.halved()),
        None => if !is_pow2(v.len()) {
            Err(StarkError::InvalidLength)
        } else {
            match initial_domain(MODULUS, v.len()) {
                Ok(p) => transform_result(
                    v,
                    p.len(),
                    DomainView::Points(p).twiddles(),
                    DomainView::Points(p).halved(),
                ),
                Err(e) => Err(e),
            }
        },
    }
}

/// What `inv_fft` returns for the coefficients `c`.
pub open spec fn inv_fft_result(c: Seq<int>, domain: Option<&Domain>) -> Result<
    Seq<int>,
    StarkError,
> {
    match domain {
        Some(d) => inverse_transform_result(c, d@.size(), d@.twiddles(), d@.halved()),
        None => if !is_pow2(c.len()) {
            Err(StarkError::InvalidLength)
        } else {
            match initial_domain(MODULUS, c.len()) {
                Ok(p) => inverse_transform_result(
                    c,
                    p.len(),
                    DomainView::Points(p).twiddles(),
                    DomainView::Points(p).halved(),
                ),
                Err(e) => Err(e),
            }
        },
    }
}

/// The coefficients of the values `vals` on `domain`.
///
/// The values are split into the first half and the second half taken from
/// its end; their halved sums and their differences, divided by twice the
/// domain's coordinate, are transformed on the halved domain, and the two
/// results are interleaved. So place 0 holds the constant term, and the
/// places after it follow the pattern `y, x, x y, 2 x^2 - 1, ...` of the
/// doubling map.
///
/// `InvalidLength` unless the number of values is a power of two and that
/// of the domain's entries; `DivisionByZero` where a coordinate to divide
/// by is zero.
pub fn fft_on(vals: &Vec<u32>, domain: &Domain) -> (r: Result<Vec<u32>, StarkError>)
    ensures
        same_result(
            r,
            transform_result(ints(vals@), domain@.size(), domain@.twiddles(), domain@.halved()),
        ),
        r matches Ok(c) ==> c.len() == vals.len(),
{
    if !is_power_of_two(vals.len()) || domain.len() != vals.len() {
        return Err(StarkError::InvalidLength);
    }
    let tw = twiddle_values(domain);
    let next = halved_values(domain);
    transform_level(vals, &tw, &next)
}

/// The values on `domain` of the function with the coefficients `coeffs`.
///
/// `InvalidLength` unless the number of coefficients is a power of two and
/// that of the domain's entries.
pub fn inv_fft_on(coeffs: &Vec<u32>, domain: &Domain) -> (r: Result<Vec<u32>, StarkError>)
    ensures
        same_result(
            r,
            inverse_transform_result(
                ints(coeffs@),
                domain@.size(),
                domain@.twiddles(),
                domain@.halved(),
            ),
        ),
        r matches Ok(c) ==> c.len() == coeffs.len(),
{
    if !is_power_of_two(coeffs.len()) || domain.len() != coeffs.len() {
        return Err(StarkError::InvalidLength);
    }
    let tw = twiddle_values(domain);
    let next = halved_values(domain);
    Ok(inverse_level(coeffs, &tw, &next))
}

/// The coefficients of the values `vals` on `domain`, or, where none is
/// given, on the domain of as many points as there are values.
pub fn fft(vals: &Vec<u32>, domain: Option<&Domain>) -> (r: Result<Vec<u32>, StarkError>)
    ensures
        same_result(r, fft_result(ints(vals@), domain)),
        r matches Ok(c) ==> c.len() == vals.len(),
{
    match domain {
        Some(d) => fft_on(vals, d),
        None => {
            if !is_power_of_two(vals.len()) {
                return Err(StarkError::InvalidLength);
            }
            match get_initial_domain_of_size(MODULUS, vals.len()) {
                Ok(points) => fft_on(vals, &Domain::Points(points)),
                Err(e) => Err(e),
            }
        },
    }
}

/// The values on `domain` of the function with the coefficients `vals`, or,
/// where no domain is given, on the domain of as many points as there are
/// coefficients.
pub fn inv_fft(vals: &Vec<u32>, domain: Option<&Domain>) -> (r: Result<Vec<u32>, StarkError>)
    ensures
        same_result(r, inv_fft_result(ints(vals@), domain)),
        r matches Ok(c) ==> c.len() == vals.len(),
{
    match domain {
        Some(d) => inv_fft_on(vals, d),
        None => {
            if !is_power_of_two(vals.len()) {
                return Err(StarkError::InvalidLength);
            }
            match get_initial_domain_of_size(MODULUS, vals.len()) {
                Ok(points) => inv_fft_on(vals, &Domain::Points(points)),
                Err(e) => Err(e),
            }
        },
    }
}

/// Where `fft` succeeds on canonical values, `inv_fft` on the same domain
/// gives the values back from their coefficients.
pub proof fn lemma_inv_fft_undoes_fft(v: Seq<int>, domain: Option<&Domain>)
    requires
        canonical_ints(v),
        fft_result(v, domain) is Ok,
    ensures
        inv_fft_result(fft_result(v, domain)->Ok_0, domain) == Ok::<Seq<int>, StarkError>(v),
{
    match domain {
        Some(d) => {
            lemma_transform_len(v, d@.twiddles(), d@.halved());
            lemma_inverse_transform_undoes_transform(v, d@.twiddles(), d@.halved());
        },
        None => {
            let p = initial_domain(MODULUS, v.len())->Ok_0;
            let tw = DomainView::Points(p).twiddles();
            let next = DomainView::Points(p).halved();
            lemma_transform_len(v, tw, next);
            lemma_inverse_transform_undoes_transform(v, tw, next);
        },
    }
}

} // verus!
