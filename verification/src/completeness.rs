use vstd::prelude::*;
use vstd::arithmetic::div_mod::*;
use crate::circle::{
    canonical, identity, lemma_add_associative, lemma_add_commutative, lemma_add_identity,
    lemma_add_minus_one, lemma_add_neg, lemma_double_on_curve, lemma_double_times_is_multiple,
    lemma_double_times_on_curve, lemma_neg_unique, lemma_repeated_add_of_double,
    lemma_repeated_add_of_multiple, lemma_repeated_add_on_curve, lemma_repeated_add_splits,
    lemma_scalar_mul_is_repeated_add, minus_one, on_curve, point_add, point_double,
    point_double_times, point_neg, repeated_add, scalar_mul, CirclePoint,
};
use crate::error::StarkError;
use crate::fft::{
    combine, diffs, domain_doublings, domain_generator_result, double_times, double_x, fft_result,
    generator, get_generator, half_diff, half_sum, halve_scalars, initial_domain, ints,
    lemma_domain_point_is_odd_multiple, lemma_transform_len, lemma_transform_linear, sums,
    transform, transform_result, twiddles_invertible, DomainView,
};
use crate::field::{finv, fnorm, invertible, is_inverse, lemma_finv, lemma_fmul_congruent, MODULUS};
use crate::fri::{
    after_rounds, branches_verify, chunks, claimed_size, committed_root, expected_final_domain,
    expected_value, final_check, flat, fold_domain, fold_factor, fold_ok, fold_once, fold_once_ok,
    fold_result, fold_values, leaf_group, lemma_revealed_leaf_verifies, low_degree_result, proof_of,
    prove_result, query_positions, revealed_position, round_check, round_domain, round_groups,
    round_step, rounds_check, rounds_for, shrink, shrunk, size_after, start_state, values_match,
    verify_result, well_formed, NUM_CHALLENGES, ProofView, RoundState,
};
use crate::utils::{
    evens, floor_log2, folded_bit_reversed, interleave, is_pow2, lemma_folded_bit_reversed_index,
    lemma_folded_bit_reversed_len, lemma_folded_bit_reversed_twice, lemma_log2_below,
    lemma_log2_bounds, lemma_pow2_31, lemma_pow2_is_pow2, lemma_pow2_log2, original_index, pow2,
};

verus! {

/// The entries of a domain in its natural order mirror each other: the
/// coordinates to divide by of the entries `i` and `size - 1 - i` are
/// opposite, and what stands below them is the same.
pub open spec fn mirrored(dn: DomainView) -> bool {
    &&& forall|i: int|
        0 <= i < dn.size() ==> fnorm(
            (#[trigger] dn.coords()[i]) + dn.coords()[dn.size() - 1 - i],
        ) == 0
    &&& forall|i: int|
        0 <= i < dn.size() ==> (#[trigger] dn.lowered()[i]) == dn.lowered()[dn.size() - 1 - i]
}

/// Every coordinate of the domain is invertible.
pub open spec fn coords_invertible(dn: DomainView) -> bool {
    forall|i: int| 0 <= i < dn.size() ==> invertible((#[trigger] dn.coords()[i]) as int)
}

/// One fold of values in their natural order: entry `q` is folded with
/// its mirror image `len - 1 - q`.
pub open spec fn natural_fold(v: Seq<u32>, coeff: u32, dn: DomainView) -> Seq<u32> {
    Seq::new(
        v.len() / 2,
        |q: int|
            fnorm(
                half_sum(v[q] as int, v[v.len() - 1 - q] as int) + coeff * half_diff(
                    v[q] as int,
                    v[v.len() - 1 - q] as int,
                    dn.coords()[q] as int,
                ),
            ) as u32,
    )
}

/// The domain below a domain in its natural order: the first half of its
/// entries, lowered.
pub open spec fn natural_halved(dn: DomainView) -> DomainView {
    DomainView::Scalars(dn.lowered().take((dn.size() / 2) as int))
}

/// Where the folded reverse bit order of `m` entries takes its entries
/// `2 j` and `2 j + 1` from, and where that of `m / 2` entries takes its
/// entry `j` from: the first two are mirror images, and the third is the
/// one of them that lies in the first half.
pub proof fn lemma_folded_positions(m: nat, j: nat)
    requires
        is_pow2(m),
        m >= 2,
        j < m / 2,
    ensures
        original_index(m, 2 * j) < m,
        original_index(m, 2 * j + 1) == m - 1 - original_index(m, 2 * j),
        original_index(m / 2, j) < m / 2,
        j % 2 == 0 ==> original_index(m / 2, j) == original_index(m, 2 * j),
        j % 2 == 1 ==> original_index(m / 2, j) == m - 1 - original_index(m, 2 * j),
{
    let h = (m / 2) as nat;
    assert(is_pow2(h));
    crate::utils::lemma_reversed_bits_complement(h, j);
    assert((2 * j) / 2 == j && (2 * j + 1) / 2 == j);
    if h >= 2 {
        let q = (h / 2) as nat;
        assert(is_pow2(q) && 2 * q == h);
        crate::utils::lemma_reversed_bits_complement(q, j / 2);
        if j % 2 == 0 {
            assert((j % 2) * q == 0) by (nonlinear_arith)
                requires
                    j % 2 == 0,
            ;
        } else {
            assert((j % 2) * q == q) by (nonlinear_arith)
                requires
                    j % 2 == 1,
            ;
        }
    }
}

/// Opposite elements have opposite inverses, so a difference divided by
/// twice an element is the opposite difference divided by twice the
/// opposite element.
pub proof fn lemma_half_diff_mirrored(a: int, b: int, t: int, t2: int)
    requires
        invertible(t),
        fnorm(t + t2) == 0,
    ensures
        half_diff(b, a, t2) == half_diff(a, b, t),
        invertible(t2),
{
    let m = MODULUS as int;
    crate::field::lemma_double_invertible(t);
    let d = 2 * t;
    let d2 = 2 * t2;
    let w = finv(d);
    crate::field::lemma_finv_congruent(d, d);
    // the opposite of w inverts the opposite of d
    let w2 = fnorm(-w);
    assert(is_inverse(d2, w2)) by {
        lemma_mul_mod_noop_right(d2, -w, m);
        assert(d2 * (-w) == d * w - (2 * w) * (t + t2)) by (nonlinear_arith)
            requires
                d == 2 * t,
                d2 == 2 * t2,
        ;
        lemma_fmul_congruent(2 * w, 2 * w, t + t2, 0);
        lemma_sub_mod_noop(d * w, (2 * w) * (t + t2), m);
        assert((2 * w) * 0 == 0);
    }
    lemma_finv(d2, w2);
    crate::field::lemma_double_invertible(t2);
    // (b - a) (-w) = (a - b) w
    lemma_mul_mod_noop_right(b - a, -w, m);
    assert((b - a) * (-w) == (a - b) * w) by (nonlinear_arith);
}

/// A fold in the folded reverse bit order is the fold in the natural
/// order, reordered: on a domain whose entries mirror each other, folding
/// neighbours in the one order is folding mirror images in the other.
#[verifier::rlimit(40)]
pub proof fn lemma_fold_reordered(v: Seq<u32>, coeff: u32, dn: DomainView)
    requires
        is_pow2(v.len()),
        2 <= v.len() <= 0x1_0000_0000,
        dn.size() == v.len(),
        mirrored(dn),
        coords_invertible(dn),
    ensures
        fold_once(folded_bit_reversed(v), coeff, dn.reordered()) == folded_bit_reversed(
            natural_fold(v, coeff, dn),
        ),
{
    let m = v.len();
    let w = folded_bit_reversed(v);
    let d = dn.reordered();
    let f = natural_fold(v, coeff, dn);
    let lhs = fold_once(w, coeff, d);
    let rhs = folded_bit_reversed(f);
    lemma_folded_bit_reversed_len(v);
    lemma_folded_bit_reversed_len(f);
    lemma_reordered_coords(dn);
    assert(is_pow2(f.len()));
    assert forall|j: int| 0 <= j < m / 2 implies lhs[j] == rhs[j] by {
        lemma_folded_positions(m, j as nat);
        let i = original_index(m, (2 * j) as nat) as int;
        let q = original_index(m / 2, j as nat) as int;
        lemma_folded_bit_reversed_index(v, 2 * j);
        lemma_folded_bit_reversed_index(v, 2 * j + 1);
        lemma_folded_bit_reversed_index(dn.coords(), 2 * j);
        lemma_folded_bit_reversed_index(f, j);
        assert(evens(d.coords())[j] == dn.coords()[i]);
        if j % 2 == 1 {
            lemma_half_diff_mirrored(
                v[i] as int,
                v[m - 1 - i] as int,
                dn.coords()[i] as int,
                dn.coords()[m - 1 - i] as int,
            );
            assert(half_sum(v[i] as int, v[m - 1 - i] as int) == half_sum(
                v[m - 1 - i] as int,
                v[i] as int,
            ));
        }
    }
    assert(lhs =~= rhs);
}

/// The coordinates, and what stands below the entries, of a reordered
/// domain are those of the domain, reordered.
pub proof fn lemma_reordered_coords(dn: DomainView)
    requires
        is_pow2(dn.size()),
        dn.size() <= 0x1_0000_0000,
    ensures
        dn.reordered().size() == dn.size(),
        dn.reordered().coords() == folded_bit_reversed(dn.coords()),
        dn.reordered().lowered() == folded_bit_reversed(dn.lowered()),
{
    let m = dn.size();
    match dn {
        DomainView::Points(p) => {
            lemma_folded_bit_reversed_len(p);
            lemma_folded_bit_reversed_len(dn.coords());
            lemma_folded_bit_reversed_len(dn.lowered());
            assert forall|i: int| 0 <= i < m implies dn.reordered().coords()[i]
                == folded_bit_reversed(dn.coords())[i] && dn.reordered().lowered()[i]
                == folded_bit_reversed(dn.lowered())[i] by {
                lemma_folded_bit_reversed_index(p, i);
                lemma_folded_bit_reversed_index(dn.coords(), i);
                lemma_folded_bit_reversed_index(dn.lowered(), i);
            }
            assert(dn.reordered().coords() =~= folded_bit_reversed(dn.coords()));
            assert(dn.reordered().lowered() =~= folded_bit_reversed(dn.lowered()));
        },
        DomainView::Scalars(s) => {
            lemma_folded_bit_reversed_len(s);
            lemma_folded_bit_reversed_len(dn.lowered());
            assert forall|i: int| 0 <= i < m implies dn.reordered().lowered()[i]
                == folded_bit_reversed(dn.lowered())[i] by {
                lemma_folded_bit_reversed_index(s, i);
                lemma_folded_bit_reversed_index(dn.lowered(), i);
            }
            assert(dn.reordered().lowered() =~= folded_bit_reversed(dn.lowered()));
        },
    }
}

/// The domain that a fold leaves of a reordered domain is the domain
/// below it, reordered.
pub proof fn lemma_folded_domain_reordered(dn: DomainView)
    requires
        is_pow2(dn.size()),
        2 <= dn.size() <= 0x1_0000_0000,
        mirrored(dn),
    ensures
        dn.reordered().folded() == natural_halved(dn).reordered(),
{
    let m = dn.size();
    let low = dn.lowered();
    let half = low.take((m / 2) as int);
    lemma_reordered_coords(dn);
    lemma_folded_bit_reversed_len(low);
    lemma_folded_bit_reversed_len(half);
    let lhs = evens(dn.reordered().lowered());
    let rhs = folded_bit_reversed(half);
    assert forall|j: int| 0 <= j < m / 2 implies lhs[j] == rhs[j] by {
        lemma_folded_positions(m, j as nat);
        lemma_folded_bit_reversed_index(low, 2 * j);
        lemma_folded_bit_reversed_index(half, j);
    }
    assert(lhs =~= rhs);
}

/// Every coefficient in the upper half is zero.
pub open spec fn upper_half_zero(c: Seq<int>) -> bool {
    forall|i: int| c.len() / 2 <= i < c.len() ==> #[trigger] c[i] == 0
}

/// The values `v` on the domain `dn`, both in their natural order, are
/// those of a function of low degree: their coefficients can be had, and
/// those in the upper half are zero.
pub open spec fn low_degree_on(v: Seq<u32>, dn: DomainView) -> bool {
    transform_result(ints(v), dn.size(), dn.twiddles(), dn.halved()) matches Ok(c)
        && upper_half_zero(c)
}

/// A fold in the natural order keeps the degree low: the coefficients of
/// the folded values are those at the even places plus the coefficient of
/// the fold times those at the odd places.
pub proof fn lemma_natural_fold_low_degree(v: Seq<u32>, coeff: u32, dn: DomainView)
    requires
        v.len() >= 4,
        low_degree_on(v, dn),
    ensures
        low_degree_on(natural_fold(v, coeff, dn), natural_halved(dn)),
{
    let m = v.len() as int;
    let tw = dn.twiddles();
    let next = dn.halved();
    let below = halve_scalars(next);
    let nh = natural_halved(dn);
    let folded = natural_fold(v, coeff, dn);
    assert(ints(v).len() == m);
    let c = transform(ints(v), tw, next);
    let s = sums(ints(v));
    let d = diffs(ints(v), tw);
    assert(nh.twiddles() =~= next);
    assert(nh.halved() =~= below);
    assert(ints(folded) =~= combine(s, d, coeff as int));
    lemma_transform_linear(s, d, coeff as int, next, below);
    lemma_transform_len(s, next, below);
    lemma_transform_len(d, next, below);
    let cs = transform(s, next, below);
    let cd = transform(d, next, below);
    let c2 = combine(cs, cd, coeff as int);
    lemma_transform_len(ints(v), tw, next);
    assert(c == interleave(cs, cd));
    assert(ints(v).len() == m);
    assert(is_pow2(m as nat));
    assert(is_pow2((m / 2) as nat) && m % 2 == 0);
    assert((m / 2) % 2 == 0);
    assert(transform_result(ints(v), dn.size(), tw, next) == Ok::<Seq<int>, StarkError>(c));
    assert(upper_half_zero(c));
    assert(c.len() == m && c2.len() == m / 2);
    assert forall|i: int| c2.len() / 2 <= i < c2.len() implies #[trigger] c2[i] == 0 by {
        assert(c[2 * i] == cs[i]);
        assert(c[2 * i + 1] == cd[i]);
        assert(c[2 * i] == 0 && c[2 * i + 1] == 0);
        assert(coeff * 0 == 0);
    }
}

/// The odd multiples `g, 3 g, 5 g, ...` of `g`, `n` of them.
pub open spec fn odd_multiples(g: CirclePoint, n: nat) -> Seq<CirclePoint> {
    Seq::new(n, |i: int| scalar_mul(g, (2 * i + 1) as nat))
}

/// The domain holds the odd multiples of `g`, a point of the circle whose
/// order is twice the size of the domain.
pub open spec fn proper_points(dn: DomainView, g: CirclePoint) -> bool {
    &&& dn == DomainView::Points(odd_multiples(g, dn.size()))
    &&& on_curve(g)
    &&& canonical(g)
    &&& repeated_add(g, dn.size()) == minus_one()
}

/// The domain holds the first coordinates of the odd multiples of `h`, a
/// point of the circle whose order is four times the size of the domain.
pub open spec fn proper_scalars(dn: DomainView, h: CirclePoint) -> bool {
    &&& dn == DomainView::Scalars(odd_multiples(h, dn.size()).map_values(|p: CirclePoint| p.x))
    &&& on_curve(h)
    &&& canonical(h)
    &&& repeated_add(h, 2 * dn.size()) == minus_one()
}

proof fn lemma_multiple(g: CirclePoint, k: nat)
    requires
        on_curve(g),
        canonical(g),
    ensures
        scalar_mul(g, k) == repeated_add(g, k),
        on_curve(scalar_mul(g, k)),
        canonical(scalar_mul(g, k)),
{
    lemma_scalar_mul_is_repeated_add(g, k);
    lemma_repeated_add_on_curve(g, k);
}

proof fn lemma_twice_minus_one()
    ensures
        point_add(minus_one(), minus_one()) == identity(),
{
    lemma_add_minus_one(minus_one());
}

/// A domain of the odd multiples of a point of the right order mirrors
/// itself.
#[verifier::rlimit(40)]
pub proof fn lemma_proper_points_mirrored(dn: DomainView, g: CirclePoint)
    requires
        proper_points(dn, g),
    ensures
        mirrored(dn),
{
    let n = dn.size();
    let pts = odd_multiples(g, n);
    assert forall|i: int| 0 <= i < n implies pts[n - 1 - i] == point_neg(#[trigger] pts[i]) by {
        let a = pts[i];
        let b = pts[n - 1 - i];
        lemma_multiple(g, (2 * i + 1) as nat);
        lemma_multiple(g, (2 * (n - 1 - i) + 1) as nat);
        lemma_repeated_add_splits(g, (2 * i + 1) as nat, (2 * (n - 1 - i) + 1) as nat);
        lemma_repeated_add_splits(g, n, n);
        lemma_twice_minus_one();
        assert((2 * i + 1) + (2 * (n - 1 - i) + 1) == n + n);
        lemma_neg_unique(a, b);
    }
    assert forall|i: int| 0 <= i < n implies fnorm(
        (#[trigger] dn.coords()[i]) + dn.coords()[n - 1 - i],
    ) == 0 by {
        let a = pts[i];
        assert(pts[n - 1 - i] == point_neg(a));
        lemma_add_mod_noop_right(a.y as int, -(a.y as int), MODULUS as int);
    }
    assert forall|i: int| 0 <= i < n implies (#[trigger] dn.lowered()[i]) == dn.lowered()[n - 1
        - i] by {
        let a = pts[i];
        assert(pts[n - 1 - i] == point_neg(a));
        lemma_multiple(g, (2 * i + 1) as nat);
    }
}

/// A domain of the first coordinates of the odd multiples of a point of
/// the right order mirrors itself.
#[verifier::rlimit(40)]
pub proof fn lemma_proper_scalars_mirrored(dn: DomainView, h: CirclePoint)
    requires
        proper_scalars(dn, h),
    ensures
        mirrored(dn),
{
    let m = dn.size();
    let pts = odd_multiples(h, m);
    assert forall|i: int| 0 <= i < m implies fnorm(
        (#[trigger] pts[i]).x + pts[m - 1 - i].x,
    ) == 0 && double_x(pts[i].x as int) == double_x(pts[m - 1 - i].x as int) by {
        let a = pts[i];
        let b = pts[m - 1 - i];
        let na = point_neg(a);
        lemma_multiple(h, (2 * i + 1) as nat);
        lemma_multiple(h, (2 * (m - 1 - i) + 1) as nat);
        lemma_repeated_add_splits(h, (2 * (m - 1 - i) + 1) as nat, (2 * i + 1) as nat);
        assert((2 * (m - 1 - i) + 1) + (2 * i + 1) == 2 * m);
        // b = b + (a - a) = (b + a) - a = -1 - a
        lemma_add_neg(a);
        lemma_add_associative(b, a, na);
        lemma_add_commutative(b, identity());
        lemma_add_identity(b);
        lemma_add_minus_one(na);
        assert(b == point_add(minus_one(), na));
        let x = a.x as int;
        let bx = b.x as int;
        assert(bx == fnorm(-x));
        lemma_add_mod_noop_right(x, -x, MODULUS as int);
        // the squares agree, so what stands below agrees
        lemma_fmul_congruent(bx, -x, bx, -x);
        assert((-x) * (-x) == x * x) by (nonlinear_arith);
        lemma_mul_mod_noop_right(2, bx * bx, MODULUS as int);
        lemma_mul_mod_noop_right(2, x * x, MODULUS as int);
        lemma_sub_mod_noop(2 * (bx * bx), 1, MODULUS as int);
        lemma_sub_mod_noop(2 * (x * x), 1, MODULUS as int);
    }
    assert forall|i: int| 0 <= i < m implies fnorm(
        (#[trigger] dn.coords()[i]) + dn.coords()[m - 1 - i],
    ) == 0 by {
        assert(dn.coords()[i] == pts[i].x && dn.coords()[m - 1 - i] == pts[m - 1 - i].x);
    }
    assert forall|i: int| 0 <= i < m implies (#[trigger] dn.lowered()[i]) == dn.lowered()[m - 1
        - i] by {
        assert(dn.coords()[i] == pts[i].x && dn.coords()[m - 1 - i] == pts[m - 1 - i].x);
        assert(double_x(pts[i].x as int) == double_x(pts[m - 1 - i].x as int));
    }
}

/// Below a domain of points stands the domain of the first coordinates of
/// the first half of the points.
pub proof fn lemma_proper_points_halved(dn: DomainView, g: CirclePoint)
    requires
        proper_points(dn, g),
        dn.size() >= 2,
        dn.size() % 2 == 0,
    ensures
        proper_scalars(natural_halved(dn), g),
        natural_halved(dn).size() == dn.size() / 2,
{
    let nh = natural_halved(dn);
    let m = dn.size() / 2;
    assert(nh.coords() =~= odd_multiples(g, m).map_values(|p: CirclePoint| p.x));
}

/// Below a domain of scalars stands the domain of the same kind for the
/// double of its point.
pub proof fn lemma_proper_scalars_halved(dn: DomainView, h: CirclePoint)
    requires
        proper_scalars(dn, h),
        dn.size() >= 2,
        dn.size() % 2 == 0,
    ensures
        proper_scalars(natural_halved(dn), point_double(h)),
        natural_halved(dn).size() == dn.size() / 2,
{
    let nh = natural_halved(dn);
    let m = dn.size() / 2;
    let h2 = point_double(h);
    lemma_double_on_curve(h);
    lemma_repeated_add_of_double(h, dn.size());
    let want = odd_multiples(h2, m).map_values(|p: CirclePoint| p.x);
    assert forall|i: int| 0 <= i < m implies nh.coords()[i] == want[i] by {
        lemma_multiple(h, (2 * i + 1) as nat);
        lemma_multiple(h2, (2 * i + 1) as nat);
        lemma_repeated_add_of_double(h, (2 * i + 1) as nat);
    }
    assert(nh.coords() =~= want);
}

/// Reordering a domain whose size is a power of two twice gives the
/// domain back.
pub proof fn lemma_reordered_twice(d: DomainView)
    requires
        is_pow2(d.size()),
        d.size() <= 0x1_0000_0000,
    ensures
        d.reordered().reordered() == d,
        d.reordered().size() == d.size(),
{
    match d {
        DomainView::Points(p) => {
            lemma_folded_bit_reversed_twice(p);
            lemma_folded_bit_reversed_len(p);
        },
        DomainView::Scalars(s) => {
            lemma_folded_bit_reversed_twice(s);
            lemma_folded_bit_reversed_len(s);
        },
    }
}

/// On a domain that mirrors itself, the coordinates are invertible if
/// those of the first half are.
pub proof fn lemma_mirrored_invertible(dn: DomainView)
    requires
        mirrored(dn),
        dn.size() % 2 == 0,
        forall|i: int| 0 <= i < dn.size() / 2 ==> invertible((#[trigger] dn.coords()[i]) as int),
    ensures
        coords_invertible(dn),
{
    let m = dn.size() as int;
    assert forall|i: int| 0 <= i < m implies invertible((#[trigger] dn.coords()[i]) as int) by {
        if i >= m / 2 {
            let k = m - 1 - i;
            assert(invertible(dn.coords()[k] as int));
            assert(fnorm(dn.coords()[k] + dn.coords()[m - 1 - k]) == 0);
            lemma_half_diff_mirrored(0, 0, dn.coords()[k] as int, dn.coords()[i] as int);
        }
    }
}

/// The domain is proper: it holds the odd multiples of `h`, or their
/// first coordinates, and `h` has the order that goes with its size.
pub open spec fn proper(dn: DomainView, h: CirclePoint) -> bool {
    match dn {
        DomainView::Points(_) => proper_points(dn, h),
        DomainView::Scalars(_) => proper_scalars(dn, h),
    }
}

/// The point that the domain below a proper domain on `h` is proper on.
pub open spec fn point_below(dn: DomainView, h: CirclePoint) -> CirclePoint {
    match dn {
        DomainView::Points(_) => h,
        DomainView::Scalars(_) => point_double(h),
    }
}

/// The values `w` and the domain `d`, both in folded reverse bit order,
/// are, in their natural order, the values of a function of low degree on
/// a proper domain on `h`.
pub open spec fn sound_state(w: Seq<u32>, d: DomainView, h: CirclePoint) -> bool {
    &&& is_pow2(w.len())
    &&& w.len() <= 0x4000_0000
    &&& d.size() == w.len()
    &&& proper(d.reordered(), h)
    &&& low_degree_on(folded_bit_reversed(w), d.reordered())
}

/// One fold keeps a sound state sound, and divides by nothing but
/// invertible coordinates.
#[verifier::rlimit(40)]
pub proof fn lemma_fold_once_sound(w: Seq<u32>, coeff: u32, d: DomainView, h: CirclePoint)
    requires
        sound_state(w, d, h),
        w.len() >= 4,
    ensures
        fold_once_ok(w.len(), d),
        sound_state(fold_once(w, coeff, d), d.folded(), point_below(d.reordered(), h)),
        fold_once(w, coeff, d).len() == w.len() / 2,
        d.folded() is Scalars,
{
    let m = w.len();
    let v = folded_bit_reversed(w);
    let dn = d.reordered();
    lemma_folded_bit_reversed_twice(w);
    lemma_folded_bit_reversed_len(w);
    lemma_reordered_twice(d);
    assert(is_pow2((m / 2) as nat) && m % 2 == 0);
    match dn {
        DomainView::Points(_) => {
            lemma_proper_points_mirrored(dn, h);
            lemma_proper_points_halved(dn, h);
        },
        DomainView::Scalars(_) => {
            lemma_proper_scalars_mirrored(dn, h);
            lemma_proper_scalars_halved(dn, h);
        },
    }
    assert(twiddles_invertible(m, dn.twiddles(), dn.halved()));
    assert forall|i: int| 0 <= i < m / 2 implies invertible(
        (#[trigger] dn.coords()[i]) as int,
    ) by {
        assert(dn.twiddles()[i] == dn.coords()[i] as int);
    }
    lemma_mirrored_invertible(dn);
    lemma_fold_reordered(v, coeff, dn);
    lemma_folded_domain_reordered(dn);
    lemma_natural_fold_low_degree(v, coeff, dn);
    let f = natural_fold(v, coeff, dn);
    let nh = natural_halved(dn);
    lemma_folded_bit_reversed_twice(f);
    lemma_folded_bit_reversed_len(f);
    lemma_reordered_twice(nh);
    // the coordinates that the fold divides by
    lemma_reordered_coords(dn);
    assert forall|j: int| 0 <= j < m / 2 implies invertible(
        (#[trigger] evens(d.coords())[j]) as int,
    ) by {
        lemma_folded_bit_reversed_index(dn.coords(), 2 * j);
    }
}

/// The point that the domain is proper on after three folds.
pub open spec fn point_after_round(dn: DomainView, h: CirclePoint) -> CirclePoint {
    point_double(point_double(point_below(dn, h)))
}

/// The three folds of a round keep a sound state sound, and divide by
/// nothing but invertible coordinates.
#[verifier::rlimit(40)]
pub proof fn lemma_round_folds_sound(w: Seq<u32>, coeff: u32, d: DomainView, h: CirclePoint)
    requires
        sound_state(w, d, h),
        w.len() >= 16,
    ensures
        fold_ok(w.len(), d, 3),
        sound_state(
            fold_values(w, coeff, d, 3),
            fold_domain(d, 3),
            point_after_round(d.reordered(), h),
        ),
        fold_values(w, coeff, d, 3).len() == w.len() / 8,
        fold_domain(d, 3) is Scalars,
{
    reveal_with_fuel(fold_values, 4);
    reveal_with_fuel(fold_domain, 4);
    reveal_with_fuel(fold_ok, 4);
    let w1 = fold_once(w, coeff, d);
    let d1 = d.folded();
    let h1 = point_below(d.reordered(), h);
    lemma_fold_once_sound(w, coeff, d, h);
    let w2 = fold_once(w1, coeff, d1);
    let d2 = d1.folded();
    lemma_fold_once_sound(w1, coeff, d1, h1);
    lemma_fold_once_sound(w2, coeff, d2, point_double(h1));
    assert(d1.reordered() is Scalars);
    assert(d2.reordered() is Scalars);
}

/// The search for a generator of the circle group has found a point of
/// the circle whose order is 2^31: doubled 30 times it is the point of
/// order two.
pub open spec fn generator_sound() -> bool {
    generator(MODULUS) matches Some(g) && on_curve(g) && canonical(g) && point_double_times(
        g,
        30,
    ) == minus_one()
}

/// Whether the search for a generator of the circle group finds a sound
/// one. Where it does, the protocol is complete.
pub fn generator_is_sound() -> (r: bool)
    ensures
        r == generator_sound(),
{
    match get_generator(MODULUS) {
        Ok(g) => {
            if g.y >= MODULUS {
                return false;
            }
            let top = double_times(g, 30);
            top.x == MODULUS - 1 && top.y == 0
        },
        Err(_) => false,
    }
}

/// The generator of the domain of `size` points.
pub open spec fn domain_gen(size: nat) -> CirclePoint {
    point_double_times(generator(MODULUS)->0, (30 - floor_log2(size)) as nat)
}

/// The point that a domain of its kind and size is proper on.
pub open spec fn gen_for(dn: DomainView) -> CirclePoint {
    match dn {
        DomainView::Points(_) => domain_gen(dn.size()),
        DomainView::Scalars(_) => domain_gen(2 * dn.size()),
    }
}

proof fn lemma_pow2_adds(a: nat, b: nat)
    ensures
        pow2(a + b) == pow2(a) * pow2(b),
    decreases b,
{
    if b == 0 {
        assert(pow2(a) * 1 == pow2(a));
    } else {
        lemma_pow2_adds(a, (b - 1) as nat);
        assert(pow2(a) * (2 * pow2((b - 1) as nat)) == 2 * (pow2(a) * pow2((b - 1) as nat)))
            by (nonlinear_arith);
    }
}

/// A power of two up to 2^30 has a domain, whose generator is the
/// generator of the group doubled until its order is twice the size.
pub proof fn lemma_domain_gen(size: nat)
    requires
        generator_sound(),
        is_pow2(size),
        size <= 0x4000_0000,
    ensures
        floor_log2(size) <= 30,
        pow2(floor_log2(size)) == size,
        domain_generator_result(MODULUS, size) == Ok::<CirclePoint, StarkError>(domain_gen(size)),
        on_curve(domain_gen(size)),
        canonical(domain_gen(size)),
        repeated_add(domain_gen(size), size) == minus_one(),
        size >= 2 ==> domain_gen(size / 2) == point_double(domain_gen(size)),
{
    let g = generator(MODULUS)->0;
    let k = floor_log2(size);
    lemma_pow2_log2(size);
    lemma_pow2_31();
    lemma_log2_below(size, 31);
    let e = (30 - k) as nat;
    // the number of doublings
    lemma_pow2_adds(k, (31 - k) as nat);
    lemma_pow2_is_pow2((31 - k) as nat);
    let q = pow2((31 - k) as nat);
    assert((MODULUS + 1) / size as int == q) by {
        lemma_div_by_multiple(q as int, size as int);
        assert(size * q == q * size) by (nonlinear_arith);
    }
    assert(domain_doublings(MODULUS, size) == Some(e));
    // the generator
    lemma_double_times_on_curve(g, e);
    lemma_double_times_is_multiple(g, e);
    lemma_double_times_is_multiple(g, 30);
    lemma_repeated_add_of_multiple(g, pow2(e), size);
    lemma_pow2_adds(e, k);
    if size >= 2 {
        assert(floor_log2(size / 2) == k - 1);
    }
}

/// The points of the domain of `size` points are the odd multiples of its
/// generator, so the domain is proper.
pub proof fn lemma_initial_domain_proper(size: nat)
    requires
        generator_sound(),
        is_pow2(size),
        size <= 0x4000_0000,
    ensures
        initial_domain(MODULUS, size) == Ok::<Seq<CirclePoint>, StarkError>(
            odd_multiples(domain_gen(size), size),
        ),
        proper_points(DomainView::Points(odd_multiples(domain_gen(size), size)), domain_gen(size)),
{
    lemma_domain_gen(size);
    let g = domain_gen(size);
    let points = initial_domain(MODULUS, size)->Ok_0;
    assert forall|i: int| 0 <= i < size implies points[i] == odd_multiples(g, size)[i] by {
        lemma_domain_point_is_odd_multiple(g, i as nat);
    }
    assert(points =~= odd_multiples(g, size));
}

/// The values and the domain of the prover, both in folded reverse bit
/// order, are, in their natural order, the values of a function of low
/// degree on the proper domain of their kind and size.
pub open spec fn sound(w: Seq<u32>, d: DomainView) -> bool {
    &&& sound_state(w, d, gen_for(d.reordered()))
    &&& d is Scalars ==> 2 * w.len() <= 0x4000_0000
}

/// The three folds of a round keep the prover's state sound, and divide
/// by nothing but invertible coordinates.
#[verifier::rlimit(50)]
pub proof fn lemma_round_keeps_sound(w: Seq<u32>, coeff: u32, d: DomainView)
    requires
        generator_sound(),
        sound(w, d),
        w.len() >= 16,
    ensures
        fold_ok(w.len(), d, 3),
        sound(fold_values(w, coeff, d, 3), fold_domain(d, 3)),
        fold_values(w, coeff, d, 3).len() == w.len() / 8,
        fold_domain(d, 3) is Scalars,
        fold_domain(d, 3).size() == w.len() / 8,
{
    let n = w.len();
    let dn = d.reordered();
    let h = gen_for(dn);
    lemma_round_folds_sound(w, coeff, d, h);
    lemma_reordered_twice(d);
    let d3 = fold_domain(d, 3);
    lemma_reordered_twice(d3);
    assert(is_pow2((n / 2) as nat) && n % 2 == 0);
    assert(is_pow2((n / 4) as nat) && (n / 2) % 2 == 0);
    assert(is_pow2((n / 8) as nat) && (n / 4) % 2 == 0);
    match dn {
        DomainView::Points(_) => {
            // on g(n): scalars of size n / 2 on g(n), then n / 4 on g(n / 2), then n / 8
            lemma_domain_gen(n);
            lemma_domain_gen(n / 2);
        },
        DomainView::Scalars(_) => {
            assert(d is Scalars);
            assert(is_pow2(2 * n));
            lemma_domain_gen(2 * n);
            lemma_domain_gen(n);
            lemma_domain_gen(n / 2);
        },
    }
}

/// The place in the whole of entry `e` of the gathered blocks: the blocks
/// have `block` entries, and block `j` is the block of the whole at the
/// position `cur[j]`.
#[verifier::opaque]
pub open spec fn source(block: int, cur: Seq<u32>, e: int) -> int {
    block * cur[e / block] + e % block
}

/// `small` holds blocks of `big`: for each position `c` of `cur`, the
/// `block` entries of `big` from `block * c` on.
pub open spec fn gathered(block: int, cur: Seq<u32>, small: Seq<u32>, big: Seq<u32>) -> bool {
    &&& small.len() == block * cur.len()
    &&& forall|e: int| 0 <= e < small.len() ==> 0 <= #[trigger] source(block, cur, e) < big.len()
    &&& forall|e: int|
        0 <= e < small.len() ==> (#[trigger] small[e]) == big[source(block, cur, e)]
}

/// The domain `small` holds blocks of the domain `big`.
pub open spec fn gathered_domain(
    block: int,
    cur: Seq<u32>,
    small: DomainView,
    big: DomainView,
) -> bool {
    &&& gathered(block, cur, small.coords(), big.coords())
    &&& gathered(block, cur, small.lowered(), big.lowered())
}

/// The entries `2 e` and `2 e + 1` of blocks of `2 half` entries come
/// from the places `2 s` and `2 s + 1`, where entry `e` of blocks of `half`
/// entries comes from the place `s`.
proof fn lemma_source_halves(half: int, cur: Seq<u32>, e: int)
    requires
        half >= 1,
        0 <= e < half * cur.len(),
    ensures
        source(2 * half, cur, 2 * e) == 2 * source(half, cur, e),
        source(2 * half, cur, 2 * e + 1) == 2 * source(half, cur, e) + 1,
        0 <= 2 * e + 1 < (2 * half) * cur.len(),
        ((2 * half) * cur.len()) / 2 == half * cur.len(),
        ((2 * half) * cur.len() + 1) / 2 == half * cur.len(),
{
    reveal(source);
    let j = e / half;
    let t = e % half;
    lemma_fundamental_div_mod(e, half);
    assert(2 * e == (2 * half) * j + 2 * t) by (nonlinear_arith)
        requires
            e == half * j + t,
    ;
    lemma_fundamental_div_mod_converse(2 * e, 2 * half, j, 2 * t);
    lemma_fundamental_div_mod_converse(2 * e + 1, 2 * half, j, 2 * t + 1);
    assert((2 * half) * cur[j] == 2 * (half * cur[j])) by (nonlinear_arith);
    assert((2 * half) * cur.len() == 2 * (half * cur.len())) by (nonlinear_arith);
}

proof fn lemma_source_unit(cur: Seq<u32>, e: int)
    requires
        0 <= e < cur.len(),
    ensures
        source(1, cur, e) == cur[e],
{
    reveal(source);
}

/// A fold of gathered blocks is the gathering of the fold: what a fold
/// leaves at a place depends on the two values and the coordinate there
/// alone.
#[verifier::rlimit(40)]
pub proof fn lemma_fold_once_gathered(
    half: int,
    cur: Seq<u32>,
    g: Seq<u32>,
    gd: DomainView,
    w: Seq<u32>,
    d: DomainView,
    coeff: u32,
)
    requires
        half >= 1,
        gathered(2 * half, cur, g, w),
        gathered_domain(2 * half, cur, gd, d),
        gd.size() == g.len(),
        d.size() >= w.len(),
        fold_once_ok(w.len(), d),
    ensures
        fold_once_ok(g.len(), gd),
        gathered(half, cur, fold_once(g, coeff, gd), fold_once(w, coeff, d)),
        gathered_domain(half, cur, gd.folded(), d.folded()),
        gd.folded().size() == fold_once(g, coeff, gd).len(),
        d.folded().size() >= fold_once(w, coeff, d).len(),
{
    let block = 2 * half;
    let fg = fold_once(g, coeff, gd);
    let fw = fold_once(w, coeff, d);
    let nd = gd.folded();
    let bd = d.folded();
    if cur.len() > 0 {
        assert(0 <= 0 < half * cur.len()) by (nonlinear_arith)
            requires
                half >= 1,
                cur.len() > 0,
        ;
        lemma_source_halves(half, cur, 0);
    } else {
        assert(half * cur.len() == 0 && block * cur.len() == 0) by (nonlinear_arith)
            requires
                cur.len() == 0,
        ;
    }
    assert(fg.len() == half * cur.len());
    assert(nd.coords().len() == half * cur.len());
    assert forall|e: int| 0 <= e < fg.len() implies 0 <= #[trigger] source(half, cur, e)
        < fw.len() by {
        lemma_source_halves(half, cur, e);
        assert(g[2 * e + 1] == w[source(block, cur, 2 * e + 1)]);
        assert(0 <= source(block, cur, 2 * e));
    }
    assert forall|e: int| 0 <= e < fg.len() implies (#[trigger] fg[e]) == fw[source(
        half,
        cur,
        e,
    )] by {
        lemma_source_halves(half, cur, e);
        assert(0 <= source(half, cur, e) < fw.len());
        assert(g[2 * e] == w[source(block, cur, 2 * e)]);
        assert(g[2 * e + 1] == w[source(block, cur, 2 * e + 1)]);
        assert(gd.coords()[2 * e] == d.coords()[source(block, cur, 2 * e)]);
    }
    assert forall|e: int| 0 <= e < g.len() / 2 implies invertible(
        (#[trigger] evens(gd.coords())[e]) as int,
    ) by {
        lemma_source_halves(half, cur, e);
        assert(0 <= source(half, cur, e) < fw.len());
        assert(gd.coords()[2 * e] == d.coords()[source(block, cur, 2 * e)]);
        assert(invertible(evens(d.coords())[source(half, cur, e)] as int));
    }
    assert(bd.coords().len() >= fw.len() && bd.lowered().len() == bd.coords().len());
    assert forall|e: int| 0 <= e < nd.coords().len() implies (#[trigger] nd.coords()[e])
        == bd.coords()[source(half, cur, e)] by {
        lemma_source_halves(half, cur, e);
        assert(0 <= source(half, cur, e) < fw.len());
        assert(gd.lowered()[2 * e] == d.lowered()[source(block, cur, 2 * e)]);
    }
    assert forall|e: int| 0 <= e < nd.lowered().len() implies (#[trigger] nd.lowered()[e])
        == bd.lowered()[source(half, cur, e)] by {
        assert(0 <= source(half, cur, e) < fw.len());
        assert(nd.coords()[e] == bd.coords()[source(half, cur, e)]);
    }
}

/// Three folds of gathered blocks of eight leave, for each block, what
/// three folds of the whole leave at the position of the block.
pub proof fn lemma_round_gathered(
    cur: Seq<u32>,
    g: Seq<u32>,
    gd: DomainView,
    w: Seq<u32>,
    d: DomainView,
    coeff: u32,
)
    requires
        gathered(8, cur, g, w),
        gathered_domain(8, cur, gd, d),
        gd.size() == g.len(),
        d.size() >= w.len(),
        fold_ok(w.len(), d, 3),
    ensures
        fold_ok(g.len(), gd, 3),
        fold_values(g, coeff, gd, 3).len() == cur.len(),
        forall|j: int|
            0 <= j < cur.len() ==> (#[trigger] cur[j]) < fold_values(w, coeff, d, 3).len(),
        forall|j: int|
            0 <= j < cur.len() ==> (#[trigger] fold_values(g, coeff, gd, 3)[j]) == fold_values(
                w,
                coeff,
                d,
                3,
            )[cur[j] as int],
{
    reveal_with_fuel(fold_values, 4);
    reveal_with_fuel(fold_domain, 4);
    reveal_with_fuel(fold_ok, 4);
    lemma_fold_once_gathered(4, cur, g, gd, w, d, coeff);
    let g1 = fold_once(g, coeff, gd);
    let w1 = fold_once(w, coeff, d);
    lemma_fold_once_gathered(2, cur, g1, gd.folded(), w1, d.folded(), coeff);
    let g2 = fold_once(g1, coeff, gd.folded());
    let w2 = fold_once(w1, coeff, d.folded());
    lemma_fold_once_gathered(1, cur, g2, gd.folded().folded(), w2, d.folded().folded(), coeff);
    let g3 = fold_once(g2, coeff, gd.folded().folded());
    let w3 = fold_once(w2, coeff, d.folded().folded());
    assert(g3.len() == cur.len());
    assert forall|j: int| 0 <= j < cur.len() implies (#[trigger] cur[j]) < w3.len() by {
        lemma_source_unit(cur, j);
        assert(0 <= source(1, cur, j) < w3.len());
    }
    assert forall|j: int| 0 <= j < cur.len() implies (#[trigger] g3[j]) == w3[cur[j] as int] by {
        lemma_source_unit(cur, j);
        assert(g3[j] == w3[source(1, cur, j)]);
    }
}

/// The domain that the verifier computes for the positions it queries
/// holds the blocks of the prover's domain at these positions.
#[verifier::rlimit(40)]
pub proof fn lemma_round_domain_gathered(size: nat, cur: Seq<u32>, d: DomainView)
    requires
        generator_sound(),
        is_pow2(size),
        d.size() == size,
        size <= 0x4000_0000,
        d is Scalars ==> 2 * size <= 0x4000_0000,
        proper(d.reordered(), gen_for(d.reordered())),
        cur.len() > 0,
        forall|j: int| 0 <= j < cur.len() ==> 8 * (#[trigger] cur[j]) + 8 <= size,
    ensures
        round_domain(d is Points, size, cur) is Ok,
        gathered_domain(8, cur, round_domain(d is Points, size, cur)->Ok_0, d),
        (round_domain(d is Points, size, cur)->Ok_0).size() == 8 * cur.len(),
{
    reveal(source);
    let dn = d.reordered();
    let h = gen_for(dn);
    let count = 8 * cur.len();
    lemma_reordered_twice(d);
    lemma_reordered_coords(dn);
    let dv = round_domain(d is Points, size, cur)->Ok_0;
    assert forall|e: int| 0 <= e < count implies 0 <= #[trigger] source(8, cur, e) < size
        && source(8, cur, e) == revealed_position(cur, e) by {
        assert(8 * cur[e / 8] + 8 <= size);
    }
    match dn {
        DomainView::Points(pts) => {
            lemma_domain_gen(size);
            assert(pts == odd_multiples(h, size));
            assert forall|e: int| 0 <= e < count implies dv->Points_0[e] == d->Points_0[source(
                8,
                cur,
                e,
            )] by {
                let pos = source(8, cur, e);
                assert(0 <= pos < size);
                lemma_folded_bit_reversed_index(pts, pos);
            }
            assert forall|e: int| 0 <= e < count implies (#[trigger] dv.coords()[e])
                == d.coords()[source(8, cur, e)] by {
                assert(0 <= source(8, cur, e) < size);
                assert(dv->Points_0[e] == d->Points_0[source(8, cur, e)]);
            }
            assert forall|e: int| 0 <= e < count implies (#[trigger] dv.lowered()[e])
                == d.lowered()[source(8, cur, e)] by {
                assert(0 <= source(8, cur, e) < size);
                assert(dv->Points_0[e] == d->Points_0[source(8, cur, e)]);
            }
        },
        DomainView::Scalars(xs) => {
            assert(is_pow2(2 * size));
            lemma_domain_gen(2 * size);
            let all = odd_multiples(h, 2 * size);
            let whole = DomainView::Points(all);
            lemma_proper_points_mirrored(whole, h);
            assert(xs == odd_multiples(h, size).map_values(|p: CirclePoint| p.x));
            assert forall|e: int| 0 <= e < count implies (#[trigger] dv.coords()[e])
                == d.coords()[source(8, cur, e)] by {
                let pos = source(8, cur, e);
                assert(0 <= pos < size);
                lemma_folded_bit_reversed_index(xs, pos);
                lemma_folded_positions(2 * size, pos as nat);
                let far = original_index(2 * size, (2 * pos) as nat) as int;
                let near = original_index(size, pos as nat) as int;
                assert(whole.lowered()[far] == all[far].x);
                assert(whole.lowered()[2 * size - 1 - far] == all[2 * size - 1 - far].x);
                assert(all[near].x == all[far].x);
                assert(xs[near] == all[near].x);
            }
            assert forall|e: int| 0 <= e < count implies (#[trigger] dv.lowered()[e])
                == d.lowered()[source(8, cur, e)] by {
                assert(0 <= source(8, cur, e) < size);
                assert(dv.coords()[e] == d.coords()[source(8, cur, e)]);
            }
        },
    }
}

/// What the completeness of the protocol rests on: the generator of the
/// group is sound, and the values are a power of two in number, from 8
/// to 2^30, and those of a function of low degree on the domain of as
/// many points.
pub open spec fn honest(evals: Seq<u32>) -> bool {
    &&& generator_sound()
    &&& is_pow2(evals.len())
    &&& 8 <= evals.len() <= 0x4000_0000
    &&& low_degree_on(
        evals,
        DomainView::Points(odd_multiples(domain_gen(evals.len()), evals.len())),
    )
}

/// The state in which the prover starts on `evals`.
pub open spec fn honest_start(evals: Seq<u32>) -> RoundState {
    start_state(evals, odd_multiples(domain_gen(evals.len()), evals.len()))
}

/// The state of the prover after `k` rounds on `evals`.
pub open spec fn state_at(evals: Seq<u32>, k: nat) -> RoundState {
    after_rounds(honest_start(evals), k)->Ok_0
}

proof fn lemma_pow2_monotone(a: nat, b: nat)
    requires
        a <= b,
    ensures
        pow2(a) <= pow2(b),
        pow2(a) >= 1,
    decreases b,
{
    lemma_pow2_is_pow2(a);
    if a < b {
        lemma_pow2_monotone(a, (b - 1) as nat);
    }
}

/// There are no more rounds than bring the values down to the base case
/// size.
proof fn lemma_rounds_bound(n: nat)
    ensures
        rounds_for(n) >= 1 ==> n >= 128 * pow2(3 * rounds_for(n)),
{
    let x = n / 128;
    let r = rounds_for(n);
    if r >= 1 {
        assert(floor_log2(x) >= 3 * r);
        assert(x >= 1);
        lemma_log2_bounds(x);
        lemma_pow2_monotone(3 * r, floor_log2(x));
    }
}

proof fn lemma_pow2_three(k: nat)
    ensures
        pow2(3 * (k + 1)) == 8 * pow2(3 * k),
{
    reveal_with_fuel(pow2, 4);
}

/// The prover's start on honest values is sound.
pub proof fn lemma_start_sound(evals: Seq<u32>)
    requires
        honest(evals),
    ensures
        sound(honest_start(evals).values, honest_start(evals).domain),
        honest_start(evals).values.len() == evals.len(),
        initial_domain(MODULUS, evals.len()) == Ok::<Seq<CirclePoint>, StarkError>(
            odd_multiples(domain_gen(evals.len()), evals.len()),
        ),
{
    let n = evals.len();
    let points = odd_multiples(domain_gen(n), n);
    let s = honest_start(evals);
    lemma_initial_domain_proper(n);
    lemma_folded_bit_reversed_twice(evals);
    lemma_folded_bit_reversed_twice(points);
    lemma_folded_bit_reversed_len(evals);
    lemma_folded_bit_reversed_len(points);
    assert(s.domain.reordered() == DomainView::Points(points));
}

/// What holds of the prover's state after `k` of its rounds on honest
/// values.
pub open spec fn history(evals: Seq<u32>, k: nat) -> bool {
    let s = state_at(evals, k);
    let r = rounds_for(evals.len());
    &&& after_rounds(honest_start(evals), k) is Ok
    &&& sound(s.values, s.domain)
    &&& s.values.len() * pow2(3 * k) == evals.len()
    &&& s.values.len() >= 128 * pow2((3 * (r - k)) as nat) || r == 0
    &&& s.roots.len() == k
    &&& s.leaves.len() == k
    &&& k >= 1 ==> {
        let p = state_at(evals, (k - 1) as nat);
        &&& p.values.len() >= 1024
        &&& is_pow2(chunks(p.values).len())
        &&& chunks(p.values).len() == p.values.len() / 8
        &&& s.roots == p.roots.push(committed_root(p.values))
        &&& s.leaves == p.leaves.push(p.values)
        &&& fold_ok(p.values.len(), p.domain, 3)
        &&& s.values == fold_values(p.values, fold_factor(s.roots), p.domain, 3)
        &&& s.domain == fold_domain(p.domain, 3)
        &&& s.values.len() == p.values.len() / 8
        &&& s.domain is Scalars
    }
}

/// The rounds of the prover on honest values succeed, and keep its state
/// sound.
#[verifier::rlimit(40)]
pub proof fn lemma_history(evals: Seq<u32>, k: nat)
    requires
        honest(evals),
        k <= rounds_for(evals.len()),
    ensures
        history(evals, k),
    decreases k,
{
    let n = evals.len();
    let r = rounds_for(n);
    let s0 = honest_start(evals);
    lemma_rounds_bound(n);
    if k == 0 {
        lemma_start_sound(evals);
        assert(pow2(0) == 1);
        assert(n * 1 == n);
    } else {
        let j = (k - 1) as nat;
        lemma_history(evals, j);
        let p = state_at(evals, j);
        let len = p.values.len();
        lemma_pow2_three((r - k) as nat);
        lemma_pow2_monotone(0, (3 * (r - k)) as nat);
        assert(len >= 1024);
        assert(is_pow2((len / 2) as nat) && len % 2 == 0);
        assert(is_pow2((len / 4) as nat) && (len / 2) % 2 == 0);
        assert(is_pow2((len / 8) as nat) && (len / 4) % 2 == 0);
        assert(chunks(p.values).len() == len / 8);
        let roots = p.roots.push(committed_root(p.values));
        let coeff = fold_factor(roots);
        lemma_round_keeps_sound(p.values, coeff, p.domain);
        assert(round_step(p) == Ok::<RoundState, StarkError>(
            RoundState {
                values: fold_values(p.values, coeff, p.domain, 3),
                domain: fold_domain(p.domain, 3),
                roots,
                leaves: p.leaves.push(p.values),
            },
        ));
        lemma_pow2_three(j);
        let s = state_at(evals, k);
        assert(s.values.len() * pow2(3 * k) == n) by (nonlinear_arith)
            requires
                len * pow2(3 * j) == n,
                s.values.len() * 8 == len,
                pow2(3 * k) == 8 * pow2(3 * j),
        ;
    }
}

/// The roots and the committed values of the earlier rounds stay what
/// they were.
pub proof fn lemma_history_prefix(evals: Seq<u32>, i: nat, k: nat)
    requires
        honest(evals),
        i <= k <= rounds_for(evals.len()),
    ensures
        state_at(evals, k).roots.take(i as int) == state_at(evals, i).roots,
        state_at(evals, k).leaves.take(i as int) == state_at(evals, i).leaves,
        i < k ==> state_at(evals, k).leaves[i as int] == state_at(evals, i).values,
        i < k ==> state_at(evals, k).roots[i as int] == committed_root(state_at(evals, i).values),
    decreases k,
{
    lemma_history(evals, k);
    lemma_history(evals, i);
    let s = state_at(evals, k);
    if i == k {
        assert(s.roots.take(i as int) =~= s.roots);
        assert(s.leaves.take(i as int) =~= s.leaves);
    } else {
        let p = state_at(evals, (k - 1) as nat);
        lemma_history_prefix(evals, i, (k - 1) as nat);
        lemma_history(evals, (k - 1) as nat);
        assert(s.roots.take(i as int) =~= p.roots.take(i as int));
        assert(s.leaves.take(i as int) =~= p.leaves.take(i as int));
    }
}

/// The positions `i` rounds later are as many as at the start.
pub proof fn lemma_shrunk_len(positions: Seq<u32>, i: nat)
    ensures
        shrunk(positions, i).len() == positions.len(),
    decreases i,
{
    if i > 0 {
        lemma_shrunk_len(positions, (i - 1) as nat);
    }
}

/// The positions that the queries have in round `i` of an honest run.
pub open spec fn positions_at(evals: Seq<u32>, entropy: Seq<u8>, i: nat) -> Seq<u32> {
    let last = state_at(evals, rounds_for(evals.len()));
    shrunk(query_positions(entropy, last.roots, last.values, evals.len()), i)
}

/// Positions that ask for leaves of a round ask, one round later, for
/// leaves of the next round.
proof fn lemma_shrink_in_range(before: Seq<u32>, wide: nat)
    requires
        forall|j: int| 0 <= j < before.len() ==> 8 * (#[trigger] before[j]) + 8 <= wide,
        wide % 64 == 0,
    ensures
        forall|j: int|
            0 <= j < before.len() ==> 8 * (#[trigger] shrink(before)[j]) + 8 <= wide / 8,
{
    assert forall|j: int| 0 <= j < before.len() implies 8 * (#[trigger] shrink(before)[j]) + 8
        <= wide / 8 by {
        assert(8 * before[j] + 8 <= wide);
        assert(shrink(before)[j] == before[j] / 8);
    }
}

/// The queries of a proof for `n` values ask for leaves of the first
/// round.
proof fn lemma_queries_in_range(entropy: Seq<u8>, roots: Seq<Seq<u8>>, last: Seq<u32>, n: nat)
    requires
        8 <= n <= 0x4000_0000,
        n % 8 == 0,
    ensures
        query_positions(entropy, roots, last, n).len() == NUM_CHALLENGES,
        forall|j: int|
            0 <= j < NUM_CHALLENGES ==> 8 * (#[trigger] query_positions(
                entropy,
                roots,
                last,
                n,
            )[j]) + 8 <= n,
{
    let ch = query_positions(entropy, roots, last, n);
    assert forall|j: int| 0 <= j < NUM_CHALLENGES implies 8 * (#[trigger] ch[j]) + 8 <= n by {
        assert(ch[j] < n / 8);
    }
}

proof fn lemma_pow2_divisible(len: nat)
    requires
        is_pow2(len),
        len >= 64,
    ensures
        len % 64 == 0,
{
    assert(is_pow2((len / 2) as nat) && len % 2 == 0);
    assert(is_pow2((len / 4) as nat) && (len / 2) % 2 == 0);
    assert(is_pow2((len / 8) as nat) && (len / 4) % 2 == 0);
    assert(is_pow2((len / 16) as nat) && (len / 8) % 2 == 0);
    assert(is_pow2((len / 32) as nat) && (len / 16) % 2 == 0);
    assert((len / 32) % 2 == 0);
}

/// In every round of an honest run, the queries ask for leaves that the
/// round has committed to.
#[verifier::rlimit(40)]
pub proof fn lemma_positions_in_range(evals: Seq<u32>, entropy: Seq<u8>, i: nat)
    requires
        honest(evals),
        i < rounds_for(evals.len()),
    ensures
        positions_at(evals, entropy, i).len() == NUM_CHALLENGES,
        forall|j: int|
            0 <= j < NUM_CHALLENGES ==> 8 * (#[trigger] positions_at(evals, entropy, i)[j]) + 8
                <= state_at(evals, i).values.len(),
    decreases i,
{
    let n = evals.len();
    let r = rounds_for(n);
    let last = state_at(evals, r);
    let ch = query_positions(entropy, last.roots, last.values, n);
    lemma_shrunk_len(ch, i);
    let len = state_at(evals, i).values.len();
    if i == 0 {
        assert(len == n) by {
            lemma_history(evals, 0);
            assert(pow2(0) == 1);
            assert(len * 1 == len);
        }
        assert(n % 8 == 0) by {
            assert(is_pow2((n / 2) as nat) && n % 2 == 0);
            assert(is_pow2((n / 4) as nat) && (n / 2) % 2 == 0);
            assert((n / 4) % 2 == 0);
        }
        lemma_queries_in_range(entropy, last.roots, last.values, n);
    } else {
        let before = positions_at(evals, entropy, (i - 1) as nat);
        lemma_positions_in_range(evals, entropy, (i - 1) as nat);
        let wide = state_at(evals, (i - 1) as nat).values.len();
        assert(len == wide / 8 && wide >= 1024 && is_pow2(wide)) by {
            lemma_history(evals, i);
            lemma_history(evals, (i - 1) as nat);
        }
        lemma_pow2_divisible(wide);
        lemma_shrink_in_range(before, wide);
    }
}

/// The leaves that answer queries at positions in range hold the blocks
/// of the committed values at these positions.
pub proof fn lemma_revealed_gathered(values: Seq<u32>, cur: Seq<u32>)
    requires
        forall|j: int| 0 <= j < cur.len() ==> 8 * (#[trigger] cur[j]) + 8 <= values.len(),
    ensures
        gathered(8, cur, flat(round_groups(values, cur)), values),
        forall|j: int|
            0 <= j < cur.len() ==> (#[trigger] round_groups(values, cur)[j]) == values.subrange(
                8 * cur[j],
                8 * cur[j] + 8,
            ),
{
    reveal(source);
    let g = flat(round_groups(values, cur));
    assert forall|e: int| 0 <= e < g.len() implies 0 <= #[trigger] source(8, cur, e)
        < values.len() by {
        assert(8 * cur[e / 8] + 8 <= values.len());
    }
    assert forall|e: int| 0 <= e < g.len() implies (#[trigger] g[e]) == values[source(
        8,
        cur,
        e,
    )] by {
        assert(8 * cur[e / 8] + 8 <= values.len());
        assert(round_groups(values, cur)[e / 8] == leaf_group(values, cur[e / 8]));
    }
}

/// The proof that the prover makes on honest values.
pub open spec fn honest_proof(evals: Seq<u32>, entropy: Seq<u8>) -> ProofView {
    proof_of(state_at(evals, rounds_for(evals.len())), entropy, evals.len())
}

/// Every round of the proof that the prover makes on honest values stands
/// the verifier's checks.
#[verifier::rlimit(40)]
pub proof fn lemma_round_check_passes(evals: Seq<u32>, entropy: Seq<u8>, i: nat)
    requires
        honest(evals),
        i < rounds_for(evals.len()),
    ensures
        round_check(
            honest_proof(evals, entropy),
            i as int,
            state_at(evals, i).values.len(),
            positions_at(evals, entropy, i),
        ) == Ok::<bool, StarkError>(true),
{
    let n = evals.len();
    let r = rounds_for(n);
    let p = honest_proof(evals, entropy);
    let last = state_at(evals, r);
    let s = state_at(evals, i);
    let t = state_at(evals, i + 1);
    let cur = positions_at(evals, entropy, i);
    let size = s.values.len();
    lemma_history(evals, i);
    lemma_history(evals, i + 1);
    lemma_history(evals, r);
    lemma_history_prefix(evals, i, r);
    lemma_history_prefix(evals, i + 1, r);
    lemma_positions_in_range(evals, entropy, i);
    let ch = query_positions(entropy, last.roots, last.values, n);
    lemma_shrunk_len(ch, i);
    lemma_shrunk_len(ch, i + 1);
    // the domain
    if i == 0 {
        lemma_start_sound(evals);
    }
    assert((i == 0) == (s.domain is Points));
    lemma_round_domain_gathered(size, cur, s.domain);
    let dv = round_domain(i == 0, size, cur)->Ok_0;
    // the fold
    assert(p.leaf_values[i as int] == round_groups(s.values, cur));
    let g = flat(p.leaf_values[i as int]);
    lemma_revealed_gathered(s.values, cur);
    assert(p.roots.take((i + 1) as int) == t.roots);
    let coeff = fold_factor(t.roots);
    lemma_round_gathered(cur, g, dv, s.values, s.domain, coeff);
    let f = fold_values(g, coeff, dv, 3);
    assert(fold_result(g, coeff, dv) == Ok::<(Seq<u32>, DomainView), StarkError>(
        (f, fold_domain(dv, 3)),
    ));
    // the values
    assert forall|j: int| 0 <= j < NUM_CHALLENGES implies #[trigger] expected_value(
        p,
        i as int,
        cur,
        j,
    ) == Some(f[j]) by {
        let c = cur[j];
        assert(f[j] == t.values[c as int]);
        assert(8 * c + 8 <= size);
        if i + 1 < r {
            let next = positions_at(evals, entropy, i + 1);
            lemma_positions_in_range(evals, entropy, i + 1);
            assert(next[j] == c / 8);
            assert(p.leaf_values[(i + 1) as int] == round_groups(t.values, next));
            assert(p.leaf_values[(i + 1) as int][j] == leaf_group(t.values, next[j]));
            assert(8 * next[j] + 8 <= t.values.len());
        } else {
            assert(t.values == p.final_values);
        }
    }
    assert(values_match(p, i as int, cur, f));
    // the branches
    assert forall|j: int| 0 <= j < NUM_CHALLENGES implies crate::merkle::branch_verifies(
        p.roots[i as int],
        cur[j] as nat,
        crate::fri::values_bytes(#[trigger] p.leaf_values[i as int][j]),
        p.branches[i as int][j],
    ) by {
        lemma_revealed_leaf_verifies(s.values, cur[j]);
    }
    assert(branches_verify(p, i as int, cur));
}

/// All rounds from round `i` on of the proof that the prover makes on
/// honest values stand the verifier's checks.
pub proof fn lemma_rounds_check_pass(evals: Seq<u32>, entropy: Seq<u8>, i: nat)
    requires
        honest(evals),
        i <= rounds_for(evals.len()),
    ensures
        rounds_check(
            honest_proof(evals, entropy),
            i as int,
            state_at(evals, i).values.len(),
            positions_at(evals, entropy, i),
        ) == Ok::<bool, StarkError>(true),
    decreases rounds_for(evals.len()) - i,
{
    let r = rounds_for(evals.len());
    let p = honest_proof(evals, entropy);
    lemma_history(evals, r);
    if i < r {
        lemma_round_check_passes(evals, entropy, i);
        lemma_rounds_check_pass(evals, entropy, i + 1);
        lemma_history(evals, i + 1);
    }
}

proof fn lemma_size_after(len: nat, rounds: nat)
    ensures
        size_after(len, rounds) == len * pow2(3 * rounds),
    decreases rounds,
{
    if rounds == 0 {
        assert(pow2(0) == 1);
        assert(len * 1 == len);
    } else {
        lemma_size_after(len, (rounds - 1) as nat);
        lemma_pow2_three((rounds - 1) as nat);
        assert(8 * (len * pow2((3 * (rounds - 1)) as nat)) == len * (8 * pow2(
            (3 * (rounds - 1)) as nat,
        ))) by (nonlinear_arith);
    }
}

/// The proof that the prover makes on honest values has the shape of a
/// proof, and speaks of as many values as there are.
#[verifier::rlimit(40)]
pub proof fn lemma_honest_proof_well_formed(evals: Seq<u32>, entropy: Seq<u8>)
    requires
        honest(evals),
    ensures
        well_formed(honest_proof(evals, entropy)),
        claimed_size(honest_proof(evals, entropy)) == evals.len(),
{
    let n = evals.len();
    let r = rounds_for(n);
    let p = honest_proof(evals, entropy);
    let last = state_at(evals, r);
    let ch = query_positions(entropy, last.roots, last.values, n);
    lemma_history(evals, r);
    lemma_size_after(last.values.len(), r);
    assert forall|i: int| 0 <= i < p.roots.len() implies (#[trigger] p.branches[i]).len()
        == NUM_CHALLENGES by {
        lemma_shrunk_len(ch, i as nat);
    }
    assert forall|i: int| 0 <= i < p.roots.len() implies (#[trigger] p.leaf_values[i]).len()
        == NUM_CHALLENGES by {
        lemma_shrunk_len(ch, i as nat);
    }
    assert forall|i: int, j: int|
        0 <= i < p.roots.len() && 0 <= j < NUM_CHALLENGES implies (
    #[trigger] p.leaf_values[i][j]).len() == 8 by {
        lemma_shrunk_len(ch, i as nat);
        lemma_positions_in_range(evals, entropy, i as nat);
        lemma_history_prefix(evals, i as nat, r);
        let cur = positions_at(evals, entropy, i as nat);
        assert(p.leaf_values[i] == round_groups(state_at(evals, i as nat).values, cur));
        assert(8 * cur[j] + 8 <= state_at(evals, i as nat).values.len());
    }
}

/// The final values of the proof that the prover makes on honest values
/// stand the verifier's check.
#[verifier::rlimit(40)]
pub proof fn lemma_final_check_passes(evals: Seq<u32>, entropy: Seq<u8>)
    requires
        honest(evals),
    ensures
        final_check(honest_proof(evals, entropy)) == Ok::<bool, StarkError>(true),
{
    let n = evals.len();
    let r = rounds_for(n);
    let p = honest_proof(evals, entropy);
    let last = state_at(evals, r);
    let len = last.values.len();
    let d = last.domain;
    let dn = d.reordered();
    lemma_history(evals, r);
    lemma_reordered_twice(d);
    lemma_folded_bit_reversed_len(last.values);
    if r == 0 {
        lemma_start_sound(evals);
        lemma_initial_domain_proper(n);
        assert(expected_final_domain(r, len) == Ok::<DomainView, StarkError>(d));
    } else {
        assert(is_pow2(2 * len));
        lemma_initial_domain_proper(2 * len);
        let h = domain_gen(2 * len);
        let all = odd_multiples(h, 2 * len);
        let xs = DomainView::Points(all).lowered().take(len as int);
        assert(xs =~= odd_multiples(h, len).map_values(|q: CirclePoint| q.x));
        assert(dn == DomainView::Scalars(xs));
        assert(expected_final_domain(r, len) == Ok::<DomainView, StarkError>(d));
    }
    // the direct check
    let c = transform(ints(folded_bit_reversed(last.values)), dn.twiddles(), dn.halved());
    lemma_transform_len(ints(folded_bit_reversed(last.values)), dn.twiddles(), dn.halved());
    assert(transform_result(
        ints(folded_bit_reversed(last.values)),
        d.size(),
        dn.twiddles(),
        dn.halved(),
    ) == Ok::<Seq<int>, StarkError>(c));
    assert(upper_half_zero(c));
    assert(low_degree_result(last.values, d) == Ok::<bool, StarkError>(true));
}

/// The protocol is complete: on values that are those of a function of
/// low degree, the prover makes a proof, and the verifier accepts it.
///
/// The values are a power of two in number, from 8 to 2^30, and their
/// coefficients on the domain of as many points are zero in the upper
/// half. The generator that the search finds is taken to be sound: a point
/// of the circle that 30 doublings take to the point of order two.
#[verifier::rlimit(40)]
pub proof fn lemma_honest_proof_verifies(evals: Seq<u32>, entropy: Seq<u8>)
    requires
        generator_sound(),
        is_pow2(evals.len()),
        8 <= evals.len() <= 0x4000_0000,
        fft_result(ints(evals), None) matches Ok(c) && upper_half_zero(c),
    ensures
        prove_result(evals, entropy) is Ok,
        verify_result(prove_result(evals, entropy)->Ok_0) == Ok::<bool, StarkError>(true),
{
    let n = evals.len();
    let r = rounds_for(n);
    lemma_initial_domain_proper(n);
    let points = odd_multiples(domain_gen(n), n);
    let dn = DomainView::Points(points);
    assert(dn.twiddles() =~= DomainView::Points(points).twiddles());
    assert(dn.halved() =~= DomainView::Points(points).halved());
    assert(honest(evals));
    lemma_history(evals, r);
    lemma_history(evals, 0);
    let p = honest_proof(evals, entropy);
    assert(prove_result(evals, entropy) == Ok::<ProofView, StarkError>(p));
    lemma_honest_proof_well_formed(evals, entropy);
    lemma_rounds_check_pass(evals, entropy, 0);
    lemma_final_check_passes(evals, entropy);
    assert(pow2(0) == 1);
    assert(state_at(evals, 0).values.len() * 1 == n);
    assert(positions_at(evals, entropy, 0) == query_positions(
        p.extra_entropy,
        p.roots,
        p.final_values,
        claimed_size(p),
    ));
}

} // verus!
