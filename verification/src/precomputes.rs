use vstd::prelude::*;
use crate::circle::{
    canonical, identity, lemma_double_times_on_curve, lemma_repeated_add_of_double,
    lemma_scalar_mul_is_repeated_add, on_curve, point_add, point_double, point_double_times,
    scalar_mul, CircleImpl, CirclePoint, G,
};
use crate::error::StarkError;
use crate::fft::{double_times, fft_on, ints, same_result, transform_result, Domain, DomainView};
use crate::field::{finv, fnorm, invertible, MODULUS};
use crate::utils::{
    bit_reversed, floor_log2, folded_bit_reversed, folded_reverse_bit_order, index_range, iota,
    is_pow2, is_power_of_two, lemma_bit_reversed_len, lemma_pow2_is_pow2, lemma_pow2_log2, log2,
    pow2, reverse_bit_order,
};

verus! {

/// The size of the largest domain that the tables of this crate are laid
/// out for.
pub const TOP_DOMAIN_SIZE: u32 = 16777216;

/// The logarithm of `TOP_DOMAIN_SIZE`.
pub const LOG2_TOP_DOMAIN_SIZE: usize = 24;

/// The logarithm of the order of the circle group.
pub const LOG2_GROUP_ORDER: usize = 31;

/// The largest power of two that is not above `idx`.
pub open spec fn top_bit(idx: nat) -> nat {
    pow2(floor_log2(idx))
}

/// Entry `idx` of the table of the domains up to the size `max`, built on
/// the point `g`: entry 0 is the identity; the upper half holds the domain
/// of size `max`, the odd multiples `g, 3 g, 5 g, ...`; and each entry of
/// the slice `[k, 2 k)` below is the double of the entry of the slice
/// `[2 k, 3 k)` that stands as far into it.
pub open spec fn table_entry(g: CirclePoint, max: nat, idx: nat) -> CirclePoint
    decreases 2 * max - idx,
{
    if idx == 0 {
        identity()
    } else if idx >= max {
        scalar_mul(g, (2 * (idx - max) + 1) as nat)
    } else if 1 <= top_bit(idx) < 2 * max - idx {
        point_double(table_entry(g, max, idx + top_bit(idx)))
    } else {
        identity()
    }
}

/// The table of the domains up to the size `max`, built on the point `g`.
pub open spec fn subdomain_table(g: CirclePoint, max: nat) -> Seq<CirclePoint> {
    Seq::new(2 * max, |i: int| table_entry(g, max, i as nat))
}

/// Between a power of two and its double, the largest power of two not
/// above a number is that power of two.
pub proof fn lemma_top_bit(k: nat, idx: nat)
    requires
        is_pow2(k),
        k <= idx < 2 * k,
    ensures
        top_bit(idx) == k,
    decreases k,
{
    if k >= 2 {
        lemma_top_bit(k / 2, idx / 2);
    }
}

/// The table nests its domains: the first half of the domain of size
/// `2 k`, doubled, is the domain of size `k`.
pub proof fn lemma_table_nests(g: CirclePoint, max: nat, k: nat, j: nat)
    requires
        is_pow2(k),
        is_pow2(max),
        k < max,
        j < k,
    ensures
        2 * k + j < 2 * max,
        subdomain_table(g, max)[(k + j) as int] == point_double(
            subdomain_table(g, max)[(2 * k + j) as int],
        ),
{
    lemma_top_bit(k, k + j);
    crate::utils::lemma_pow2_order(k, max);
}

/// The point of order `2^(log_size + 1)` that `g`, a point of the full
/// order, gives by doubling.
pub open spec fn generator_for(g: CirclePoint, log_size: nat) -> CirclePoint {
    point_double_times(g, (LOG2_GROUP_ORDER - 1 - log_size) as nat)
}

/// The generator of the largest domain: `g`, a generator of the whole
/// group, doubled until its order is twice `TOP_DOMAIN_SIZE`.
pub fn generator_point(g: CirclePoint) -> (r: CirclePoint)
    ensures
        r == generator_for(g, LOG2_TOP_DOMAIN_SIZE as nat),
{
    double_times(g, LOG2_GROUP_ORDER - 1 - LOG2_TOP_DOMAIN_SIZE)
}

proof fn lemma_scalar_mul_step(g: CirclePoint, j: nat)
    requires
        canonical(g),
    ensures
        scalar_mul(g, 2 * j) == point_double(scalar_mul(g, j)),
        scalar_mul(g, 2 * j + 1) == point_add(point_double(scalar_mul(g, j)), g),
{
    if j == 0 {
        let one: int = 1;
        let zero: int = 0;
        assert(one * one == 1 && one * zero == 0 && zero * g.y == 0 && zero * g.x == 0);
        assert(one * g.x == g.x && one * g.y == g.y);
        assert(point_double(identity()) == identity());
        assert(point_add(identity(), g) == g);
    } else {
        assert((2 * j) / 2 == j && (2 * j + 1) / 2 == j);
    }
}

/// The generator that the tables are built on is a point of the circle.
pub proof fn lemma_generator_on_curve()
    ensures
        on_curve(CirclePoint { x: 1268011823, y: 2 }),
        canonical(CirclePoint { x: 1268011823, y: 2 }),
{
    let x: int = 1268011823;
    assert(x * x + 2 * 2 == 748715356 * 2147483647 + 1) by (nonlinear_arith)
        requires
            x == 1268011823,
    ;
    vstd::arithmetic::div_mod::lemma_fundamental_div_mod_converse(
        x * x + 2 * 2,
        MODULUS as int,
        748715356,
        1,
    );
}

/// The slice `[k, 2 k)` of the table holds the domain of size `k`: the
/// odd multiples of the generator of the group, doubled until its order is
/// twice `k`.
#[verifier::rlimit(40)]
pub proof fn lemma_table_holds_domains(max: nat, k: nat, j: nat)
    requires
        is_pow2(max),
        max <= 0x4000_0000,
        is_pow2(k),
        k <= max,
        j < k,
    ensures
        subdomain_table(
            generator_for(CirclePoint { x: 1268011823, y: 2 }, floor_log2(max)),
            max,
        )[(k + j) as int] == scalar_mul(
            generator_for(CirclePoint { x: 1268011823, y: 2 }, floor_log2(k)),
            2 * j + 1,
        ),
    decreases max - k,
{
    let g0 = CirclePoint { x: 1268011823, y: 2 };
    let g = generator_for(g0, floor_log2(max));
    lemma_generator_on_curve();
    crate::utils::lemma_pow2_31();
    crate::utils::lemma_log2_below(max, 31);
    crate::utils::lemma_log2_below(k, 31);
    if k < max {
        crate::utils::lemma_pow2_order(k, max);
        lemma_top_bit(k, k + j);
        lemma_table_holds_domains(max, 2 * k, j);
        let wide = generator_for(g0, floor_log2(2 * k));
        let narrow = generator_for(g0, floor_log2(k));
        assert(floor_log2(2 * k) == floor_log2(k) + 1);
        crate::utils::lemma_log2_below(2 * k, 31);
        assert(LOG2_GROUP_ORDER - 1 - floor_log2(k) == (LOG2_GROUP_ORDER - 1 - floor_log2(2 * k))
            + 1);
        assert(narrow == point_double(wide));
        lemma_double_times_on_curve(g0, (LOG2_GROUP_ORDER - 1 - floor_log2(2 * k)) as nat);
        crate::circle::lemma_double_on_curve(wide);
        lemma_scalar_mul_is_repeated_add(wide, 2 * j + 1);
        lemma_scalar_mul_is_repeated_add(narrow, 2 * j + 1);
        lemma_repeated_add_of_double(wide, 2 * j + 1);
        assert(table_entry(g, max, k + j) == point_double(table_entry(g, max, 2 * k + j)));
    }
}

/// The multiples `0, g, 2 g, ..., (count - 1) g`, where `count` is a power
/// of two and at least 2: built from the identity and `g` by doubling what
/// is there and putting each double, and each double plus `g`, side by side.
fn multiples(g: CirclePoint, count: usize) -> (r: Vec<CirclePoint>)
    requires
        canonical(g),
        is_pow2(count as nat),
        count >= 2,
    ensures
        r.len() == count,
        forall|j: int| 0 <= j < count ==> r[j] == scalar_mul(g, j as nat),
{
    let mut top: Vec<CirclePoint> = Vec::new();
    top.push(CirclePoint { x: 1, y: 0 });
    top.push(g);
    assert(is_pow2(2)) by {
        reveal_with_fuel(is_pow2, 2);
    }
    while top.len() < count
        invariant
            canonical(g),
            is_pow2(count as nat),
            is_pow2(top.len() as nat),
            2 <= top.len() <= count,
            forall|j: int| 0 <= j < top.len() ==> top[j] == scalar_mul(g, j as nat),
        decreases count - top.len(),
    {
        let n = top.len();
        proof {
            crate::utils::lemma_pow2_order(n as nat, count as nat);
        }
        let mut next: Vec<CirclePoint> = Vec::new();
        let mut k: usize = 0;
        while k < n
            invariant
                canonical(g),
                k <= n,
                n == top.len(),
                2 * n <= count,
                next.len() == 2 * k,
                forall|j: int| 0 <= j < n ==> top[j] == scalar_mul(g, j as nat),
                forall|j: int| 0 <= j < 2 * k ==> next[j] == scalar_mul(g, j as nat),
            decreases n - k,
        {
            let doubled = top[k].double();
            proof {
                lemma_scalar_mul_step(g, k as nat);
            }
            next.push(doubled);
            next.push(doubled.add(g));
            k = k + 1;
        }
        top = next;
    }
    top
}

/// The table of the domains of the sizes 1, 2, 4, ..., `max_size`, where
/// the slice `[k, 2 k)` holds the domain of size `k` and entry 0 the
/// identity. The domains are taken on the generator `G` of the circle group.
///
/// `InvalidLength` unless `max_size` is a power of two for which the group
/// has room, at most 2^30.
#[verifier::rlimit(40)]
pub fn build_subdomain_table(max_size: usize) -> (r: Result<Vec<CirclePoint>, StarkError>)
    ensures
        r is Ok <==> is_pow2(max_size as nat) && max_size <= 0x4000_0000,
        r is Err ==> r == Err::<Vec<CirclePoint>, StarkError>(StarkError::InvalidLength),
        r matches Ok(t) ==> t@ == subdomain_table(
            generator_for(
                CirclePoint { x: 1268011823, y: 2 },
                floor_log2(max_size as nat),
            ),
            max_size as nat,
        ),
{
    if !is_power_of_two(max_size) || max_size > 0x4000_0000 {
        return Err(StarkError::InvalidLength);
    }
    let log = log2(max_size as u32);
    proof {
        lemma_pow2_log2(max_size as nat);
        crate::utils::lemma_pow2_31();
        crate::utils::lemma_log2_below(max_size as nat, 31);
    }
    let g0 = G();
    let g = if log == LOG2_GROUP_ORDER - 1 {
        g0
    } else {
        double_times(g0, LOG2_GROUP_ORDER - 1 - log)
    };
    assert(g == generator_for(g0, log as nat));
    assert(canonical(g)) by {
        if log < LOG2_GROUP_ORDER - 1 {
            assert(g == point_double(
                point_double_times(g0, (LOG2_GROUP_ORDER - 2 - log) as nat),
            ));
        }
    }
    let ghost max = max_size as nat;
    let all = multiples(g, 2 * max_size);
    let mut table: Vec<CirclePoint> = Vec::new();
    let mut i: usize = 0;
    while i < max_size
        invariant
            i <= max_size,
            table.len() == i,
            forall|j: int| 0 <= j < i ==> table[j] == identity(),
        decreases max_size - i,
    {
        table.push(CirclePoint { x: 1, y: 0 });
        i = i + 1;
    }
    let mut j: usize = 0;
    while j < max_size
        invariant
            j <= max_size,
            max_size <= 0x4000_0000,
            table.len() == max_size + j,
            all.len() == 2 * max_size,
            forall|m: int| 0 <= m < 2 * max_size ==> all[m] == scalar_mul(g, m as nat),
            table[0] == identity(),
            forall|m: int|
                max_size <= m < max_size + j ==> table[m] == scalar_mul(
                    g,
                    (2 * (m - max_size) + 1) as nat,
                ),
        decreases max_size - j,
    {
        table.push(all[2 * j + 1]);
        j = j + 1;
    }
    // each smaller domain is the first half of the next larger one, doubled
    let mut k: usize = max_size;
    while k > 1
        invariant
            max == max_size,
            1 <= k <= max_size,
            max_size <= 0x4000_0000,
            is_pow2(k as nat),
            table.len() == 2 * max_size,
            table[0] == identity(),
            forall|q: int| k <= q < 2 * max_size ==> table[q] == table_entry(g, max, q as nat),
        decreases k,
    {
        let h: usize = k / 2;
        let mut m: usize = 0;
        while m < h
            invariant
                m <= h,
                k == 2 * h,
                2 <= k <= max_size,
                is_pow2(h as nat),
                max == max_size,
                max_size <= 0x4000_0000,
                table.len() == 2 * max_size,
                table[0] == identity(),
                forall|q: int| k <= q < 2 * max_size ==> table[q] == table_entry(g, max, q as nat),
                forall|q: int| h <= q < h + m ==> table[q] == table_entry(g, max, q as nat),
            decreases h - m,
        {
            let source = table[k + m];
            proof {
                lemma_top_bit(h as nat, (h + m) as nat);
            }
            table.set(h + m, source.double());
            m = m + 1;
        }
        k = h;
    }
    assert(table@ =~= subdomain_table(g, max));
    Ok(table)
}

/// The table of the domains up to `TOP_DOMAIN_SIZE`.
pub fn get_subdomains() -> (r: Vec<CirclePoint>)
    ensures
        r@ == subdomain_table(
            generator_for(CirclePoint { x: 1268011823, y: 2 }, LOG2_TOP_DOMAIN_SIZE as nat),
            TOP_DOMAIN_SIZE as nat,
        ),
{
    proof {
        lemma_pow2_is_pow2(24);
        assert(pow2(24) == 16777216) by {
            reveal_with_fuel(pow2, 25);
        }
    }
    match build_subdomain_table(TOP_DOMAIN_SIZE as usize) {
        Ok(t) => t,
        Err(_) => Vec::new(),
    }
}

/// The inverses of the first coordinates of `sub_domains`, entry by entry;
/// `DivisionByZero` where one of them is zero.
pub fn inverse_x(sub_domains: &Vec<CirclePoint>) -> (r: Result<Vec<u32>, StarkError>)
    ensures
        r is Ok <==> forall|i: int|
            0 <= i < sub_domains.len() ==> fnorm((#[trigger] sub_domains[i]).x as int) != 0,
        r is Err ==> r == Err::<Vec<u32>, StarkError>(StarkError::DivisionByZero),
        r matches Ok(v) ==> v.len() == sub_domains.len() && forall|i: int|
            0 <= i < v.len() ==> (#[trigger] v[i]) as int == finv(sub_domains[i].x as int)
                && invertible(sub_domains[i].x as int),
{
    let mut out: Vec<u32> = Vec::new();
    let mut i: usize = 0;
    while i < sub_domains.len()
        invariant
            i <= sub_domains.len(),
            out.len() == i,
            forall|j: int| 0 <= j < i ==> fnorm((#[trigger] sub_domains[j]).x as int) != 0,
            forall|j: int|
                0 <= j < i ==> (#[trigger] out[j]) as int == finv(sub_domains[j].x as int)
                    && invertible(sub_domains[j].x as int),
        decreases sub_domains.len() - i,
    {
        match sub_domains[i].inverse_x() {
            Ok(w) => {
                out.push(w);
            },
            Err(e) => {
                return Err(e);
            },
        }
        i = i + 1;
    }
    Ok(out)
}

/// The inverses of the second coordinates of `sub_domains`, entry by
/// entry; `DivisionByZero` where one of them is zero.
pub fn inverse_y(sub_domains: &Vec<CirclePoint>) -> (r: Result<Vec<u32>, StarkError>)
    ensures
        r is Ok <==> forall|i: int|
            0 <= i < sub_domains.len() ==> fnorm((#[trigger] sub_domains[i]).y as int) != 0,
        r is Err ==> r == Err::<Vec<u32>, StarkError>(StarkError::DivisionByZero),
        r matches Ok(v) ==> v.len() == sub_domains.len() && forall|i: int|
            0 <= i < v.len() ==> (#[trigger] v[i]) as int == finv(sub_domains[i].y as int)
                && invertible(sub_domains[i].y as int),
{
    let mut out: Vec<u32> = Vec::new();
    let mut i: usize = 0;
    while i < sub_domains.len()
        invariant
            i <= sub_domains.len(),
            out.len() == i,
            forall|j: int| 0 <= j < i ==> fnorm((#[trigger] sub_domains[j]).y as int) != 0,
            forall|j: int|
                0 <= j < i ==> (#[trigger] out[j]) as int == finv(sub_domains[j].y as int)
                    && invertible(sub_domains[j].y as int),
        decreases sub_domains.len() - i,
    {
        match sub_domains[i].inverse_y() {
            Ok(w) => {
                out.push(w);
            },
            Err(e) => {
                return Err(e);
            },
        }
        i = i + 1;
    }
    Ok(out)
}

/// Entry `idx` of the table of the reverse bit orders below the size
/// `top`: the slice `[k, 2 k)` holds the table for `k` entries, for each
/// power of two `k` below `top`; the other entries are 0.
pub open spec fn rbo_table_entry(top: nat, idx: nat) -> u32 {
    if 1 <= idx < top {
        bit_reversed(iota(top_bit(idx)))[idx - top_bit(idx)]
    } else {
        0
    }
}

/// Entry `idx` of the table of the folded reverse bit orders below the
/// size `top`, laid out in the same way.
pub open spec fn folded_rbo_table_entry(top: nat, idx: nat) -> u32 {
    if 1 <= idx < top {
        folded_bit_reversed(iota(top_bit(idx)))[idx - top_bit(idx)]
    } else {
        0
    }
}

/// The tables of the reverse bit order and of the folded reverse bit
/// order for the sizes 1, 2, 4, ... below `top_size`, each of twice
/// `top_size` entries.
///
/// `InvalidLength` unless `top_size` is a power of two, at most 2^30.
#[verifier::rlimit(40)]
pub fn bit_order_tables(top_size: usize) -> (r: Result<(Vec<u32>, Vec<u32>), StarkError>)
    ensures
        r is Ok <==> is_pow2(top_size as nat) && top_size <= 0x4000_0000,
        r is Err ==> r == Err::<(Vec<u32>, Vec<u32>), StarkError>(StarkError::InvalidLength),
        r matches Ok(tables) ==> tables.0@ == Seq::new(
            2 * top_size as nat,
            |i: int| rbo_table_entry(top_size as nat, i as nat),
        ) && tables.1@ == Seq::new(
            2 * top_size as nat,
            |i: int| folded_rbo_table_entry(top_size as nat, i as nat),
        ),
{
    if !is_power_of_two(top_size) || top_size > 0x4000_0000 {
        return Err(StarkError::InvalidLength);
    }
    let ghost top = top_size as nat;
    let mut rbos: Vec<u32> = Vec::new();
    let mut folded_rbos: Vec<u32> = Vec::new();
    let mut i: usize = 0;
    while i < 2 * top_size
        invariant
            i <= 2 * top_size,
            top_size <= 0x4000_0000,
            rbos.len() == i,
            folded_rbos.len() == i,
            forall|j: int| 0 <= j < i ==> rbos[j] == 0,
            forall|j: int| 0 <= j < i ==> folded_rbos[j] == 0,
        decreases 2 * top_size - i,
    {
        rbos.push(0);
        folded_rbos.push(0);
        i = i + 1;
    }
    let mut k: usize = 1;
    while k < top_size
        invariant
            top == top_size,
            1 <= k <= top_size,
            top_size <= 0x4000_0000,
            is_pow2(k as nat),
            is_pow2(top),
            rbos.len() == 2 * top_size,
            folded_rbos.len() == 2 * top_size,
            forall|j: int| 0 <= j < k ==> rbos[j] == rbo_table_entry(top, j as nat),
            forall|j: int| 0 <= j < k ==> folded_rbos[j] == folded_rbo_table_entry(top, j as nat),
            forall|j: int| k <= j < 2 * top_size ==> rbos[j] == 0,
            forall|j: int| k <= j < 2 * top_size ==> folded_rbos[j] == 0,
        decreases top_size - k,
    {
        let slice = reverse_bit_order(k as u32);
        let folded = folded_reverse_bit_order(&index_range(k as u32));
        proof {
            lemma_bit_reversed_len(iota(k as nat));
            crate::utils::lemma_folded_bit_reversed_len(iota(k as nat));
            crate::utils::lemma_pow2_order(k as nat, top);
        }
        let mut m: usize = 0;
        while m < k
            invariant
                m <= k,
                top == top_size,
                1 <= k,
                2 * k <= top_size,
                top_size <= 0x4000_0000,
                is_pow2(k as nat),
                slice@ == bit_reversed(iota(k as nat)),
                folded@ == folded_bit_reversed(iota(k as nat)),
                slice.len() == k,
                folded.len() == k,
                rbos.len() == 2 * top_size,
                folded_rbos.len() == 2 * top_size,
                forall|j: int| 0 <= j < k + m ==> rbos[j] == rbo_table_entry(top, j as nat),
                forall|j: int|
                    0 <= j < k + m ==> folded_rbos[j] == folded_rbo_table_entry(top, j as nat),
                forall|j: int| k + m <= j < 2 * top_size ==> rbos[j] == 0,
                forall|j: int| k + m <= j < 2 * top_size ==> folded_rbos[j] == 0,
            decreases k - m,
        {
            proof {
                lemma_top_bit(k as nat, (k + m) as nat);
            }
            rbos.set(k + m, slice[m]);
            folded_rbos.set(k + m, folded[m]);
            m = m + 1;
        }
        k = 2 * k;
    }
    assert(rbos@ =~= Seq::new(2 * top, |i: int| rbo_table_entry(top, i as nat)));
    assert(folded_rbos@ =~= Seq::new(2 * top, |i: int| folded_rbo_table_entry(top, i as nat)));
    Ok((rbos, folded_rbos))
}

/// The tables of the reverse bit order and of the folded reverse bit
/// order for the sizes below `TOP_DOMAIN_SIZE`.
pub fn compute_bit_orders() -> (r: (Vec<u32>, Vec<u32>))
    ensures
        r.0@ == Seq::new(
            2 * TOP_DOMAIN_SIZE as nat,
            |i: int| rbo_table_entry(TOP_DOMAIN_SIZE as nat, i as nat),
        ),
        r.1@ == Seq::new(
            2 * TOP_DOMAIN_SIZE as nat,
            |i: int| folded_rbo_table_entry(TOP_DOMAIN_SIZE as nat, i as nat),
        ),
{
    proof {
        lemma_pow2_is_pow2(24);
        assert(pow2(24) == 16777216) by {
            reveal_with_fuel(pow2, 25);
        }
    }
    match bit_order_tables(TOP_DOMAIN_SIZE as usize) {
        Ok(tables) => tables,
        Err(_) => (Vec::new(), Vec::new()),
    }
}

/// The domain that the table holds for `size` values: at the top level
/// the points of the slice `[size, 2 size)`, and below it the first
/// coordinates of the points of the slice `[2 size, 3 size)`.
pub open spec fn table_domain(
    table: Seq<CirclePoint>,
    size: nat,
    is_top_level: bool,
) -> DomainView {
    if is_top_level {
        DomainView::Points(table.subrange(size as int, (2 * size) as int))
    } else {
        DomainView::Scalars(
            table.subrange((2 * size) as int, (3 * size) as int).map_values(
                |p: CirclePoint| p.x,
            ),
        )
    }
}

/// What `fast_fft` returns for the values `v`.
pub open spec fn fast_fft_result(
    v: Seq<int>,
    is_top_level: bool,
    table: Seq<CirclePoint>,
) -> Result<Seq<int>, StarkError> {
    if !is_pow2(v.len()) || (is_top_level && 2 * v.len() > table.len()) || (!is_top_level && 3
        * v.len() > table.len()) {
        Err(StarkError::InvalidLength)
    } else {
        transform_result(
            v,
            v.len(),
            table_domain(table, v.len(), is_top_level).twiddles(),
            table_domain(table, v.len(), is_top_level).halved(),
        )
    }
}

/// The coefficients of the values `vals` on the domain that the table
/// `sub_domains` holds for as many values: at the top level the domain of
/// points of that size, and below it the domain of the first coordinates
/// of the first half of the points of twice the size.
///
/// `InvalidLength` unless the number of values is a power of two for which
/// the table has the domain; `DivisionByZero` where a coordinate to divide
/// by is zero.
pub fn fast_fft(vals: &Vec<u32>, is_top_level: bool, sub_domains: &Vec<CirclePoint>) -> (r: Result<
    Vec<u32>,
    StarkError,
>)
    ensures
        same_result(r, fast_fft_result(ints(vals@), is_top_level, sub_domains@)),
        r matches Ok(c) ==> c.len() == vals.len(),
{
    let n = vals.len();
    if !is_power_of_two(n) {
        return Err(StarkError::InvalidLength);
    }
    let available = sub_domains.len();
    if is_top_level {
        if n > available / 2 {
            return Err(StarkError::InvalidLength);
        }
        let mut points: Vec<CirclePoint> = Vec::new();
        let mut i: usize = 0;
        while i < n
            invariant
                i <= n,
                2 * n <= sub_domains.len(),
                points.len() == i,
                forall|j: int| 0 <= j < i ==> points[j] == sub_domains[n + j],
            decreases n - i,
        {
            points.push(sub_domains[n + i]);
            i = i + 1;
        }
        let domain = Domain::Points(points);
        proof {
            assert(points@ =~= sub_domains@.subrange(n as int, 2 * n));
        }
        fft_on(vals, &domain)
    } else {
        if n > available / 3 {
            return Err(StarkError::InvalidLength);
        }
        let mut scalars: Vec<u32> = Vec::new();
        let mut i: usize = 0;
        while i < n
            invariant
                i <= n,
                3 * n <= sub_domains.len(),
                scalars.len() == i,
                forall|j: int| 0 <= j < i ==> scalars[j] == sub_domains[2 * n + j].x,
            decreases n - i,
        {
            scalars.push(sub_domains[2 * n + i].x);
            i = i + 1;
        }
        let domain = Domain::Scalars(scalars);
        proof {
            assert(scalars@ =~= sub_domains@.subrange(2 * n, 3 * n).map_values(
                |p: CirclePoint| p.x,
            ));
        }
        fft_on(vals, &domain)
    }
}

} // verus!
