use vstd::prelude::*;
use crate::circle::{scalar_mul, CirclePoint};
use crate::error::StarkError;
use crate::fft::{
    combined_sum, divided_difference, domain_generator_result, fft_on, get_initial_domain_of_size,
    get_single_domain_value, half_diff, half_sum, halve_domain, halve_single_scalar, halved_sum,
    initial_domain, ints, inv_fft_on, inverse_transform_result, reorder_domain, transform_result,
    Domain, DomainView,
};
use crate::field::{fnorm, invertible, MODULUS};
use crate::merkle::{
    branch_from, branch_verifies, concat_bytes, copy_bytes, get_branch, hash,
    lemma_branch_of_tree_verifies, merkelize, rows, sha256_hex, tree_of, verify_branch, DIGEST_SIZE,
};
use crate::utils::{
    evens, floor_log2, folded_bit_reversed, folded_reverse_bit_order, is_pow2, is_power_of_two,
    lemma_folded_bit_reversed_len, log2, original_index, rbo_index_to_original, reverse_bits,
};

verus! {

/// The number of values at which folding stops.
pub const BASE_CASE_SIZE: usize = 128;

/// The number of halvings between two commitments.
pub const FOLDS_PER_ROUND: usize = 3;

/// The factor by which a round shrinks the values: 2 to the power
/// `FOLDS_PER_ROUND`, and the number of values in a leaf.
pub const FOLD_SIZE_RATIO: usize = 8;

/// The number of positions at which a proof is queried.
pub const NUM_CHALLENGES: usize = 80;

/// The four bytes of `v`, the lowest first.
pub open spec fn value_bytes(v: u32) -> Seq<u8> {
    seq![
        (v % 256) as u8,
        ((v / 256) % 256) as u8,
        ((v / 65536) % 256) as u8,
        ((v / 16777216) % 256) as u8,
    ]
}

/// The bytes of the values of `s`, one value after the other.
pub open spec fn values_bytes(s: Seq<u32>) -> Seq<u8>
    decreases s.len(),
{
    if s.len() == 0 {
        Seq::empty()
    } else {
        values_bytes(s.drop_last()) + value_bytes(s.last())
    }
}

/// The number that four bytes of `b` from position `at` on stand for, the
/// lowest byte first.
pub open spec fn value_at(b: Seq<u8>, at: int) -> int {
    b[at] + 256 * b[at + 1] + 65536 * b[at + 2] + 16777216 * b[at + 3]
}

/// The byte sequences of `parts`, one after the other.
pub open spec fn join(parts: Seq<Seq<u8>>) -> Seq<u8>
    decreases parts.len(),
{
    if parts.len() == 0 {
        Seq::empty()
    } else {
        join(parts.drop_last()) + parts.last()
    }
}

/// The leaves that commit to `values`: one for each group of
/// `FOLD_SIZE_RATIO` values, the last group being what is left, each
/// holding the bytes of its values.
pub open spec fn chunks(values: Seq<u32>) -> Seq<Seq<u8>> {
    Seq::new(
        ((values.len() + FOLD_SIZE_RATIO - 1) / FOLD_SIZE_RATIO as int) as nat,
        |k: int|
            values_bytes(
                values.subrange(
                    FOLD_SIZE_RATIO * k,
                    if FOLD_SIZE_RATIO * k + FOLD_SIZE_RATIO <= values.len() {
                        FOLD_SIZE_RATIO * k + FOLD_SIZE_RATIO
                    } else {
                        values.len() as int
                    },
                ),
            ),
    )
}

/// The values that the bytes `data` hold, four bytes each; bytes beyond
/// the last full group of four are left out.
pub open spec fn unchunked(data: Seq<u8>) -> Seq<u32> {
    Seq::new(data.len() / 4, |i: int| value_at(data, 4 * i) as u32)
}

/// Block `i` of the bytes that challenges are read from: the digest of
/// the seed followed by the two bytes of `i`, the higher first.
pub open spec fn challenge_block(seed: Seq<u8>, i: nat) -> Seq<u8> {
    sha256_hex(seed + seq![((i / 256) % 256) as u8, (i % 256) as u8])
}

/// The first `blocks` blocks, one after the other.
pub open spec fn challenge_data(seed: Seq<u8>, blocks: nat) -> Seq<u8>
    decreases blocks,
{
    if blocks == 0 {
        Seq::empty()
    } else {
        challenge_data(seed, (blocks - 1) as nat) + challenge_block(seed, (blocks - 1) as nat)
    }
}

/// The `count` challenges below `domain_size` that the seed gives:
/// challenge `i` is the number in the bytes `4 i` to `4 i + 3` of the
/// blocks for the seed, reduced modulo `domain_size`. One block is made for
/// every eight challenges.
pub open spec fn challenges(seed: Seq<u8>, domain_size: u32, count: nat) -> Seq<u32> {
    Seq::new(
        count,
        |i: int|
            (value_at(challenge_data(seed, (count + 7) / 8), 4 * i) % (domain_size as int)) as u32,
    )
}

/// The four bytes of `v`, the lowest first, appended to `out`.
fn push_value_bytes(out: &mut Vec<u8>, v: u32)
    ensures
        final(out)@ == old(out)@ + value_bytes(v),
{
    let ghost before = out@;
    out.push((v % 256) as u8);
    out.push(((v / 256) % 256) as u8);
    out.push(((v / 65536) % 256) as u8);
    out.push(((v / 16777216) % 256) as u8);
    assert(out@ =~= before + value_bytes(v));
}

/// The bytes of `values[from..to]`, one value after the other.
fn range_bytes(values: &Vec<u32>, from: usize, to: usize) -> (r: Vec<u8>)
    requires
        from <= to <= values.len(),
    ensures
        r@ == values_bytes(values@.subrange(from as int, to as int)),
{
    let mut out: Vec<u8> = Vec::new();
    let mut i: usize = from;
    assert(values@.subrange(from as int, from as int) =~= Seq::<u32>::empty());
    while i < to
        invariant
            from <= i <= to <= values.len(),
            out@ == values_bytes(values@.subrange(from as int, i as int)),
        decreases to - i,
    {
        proof {
            let next = values@.subrange(from as int, i + 1);
            assert(next.drop_last() =~= values@.subrange(from as int, i as int));
            assert(next.last() == values[i as int]);
        }
        push_value_bytes(&mut out, values[i]);
        i = i + 1;
    }
    out
}

/// The bytes of `values`, one value after the other.
pub fn values_to_bytes(values: &Vec<u32>) -> (r: Vec<u8>)
    ensures
        r@ == values_bytes(values@),
{
    assert(values@.subrange(0, values.len() as int) =~= values@);
    range_bytes(values, 0, values.len())
}

/// The byte vectors of `parts`, one after the other.
pub fn join_bytes(parts: &Vec<Vec<u8>>) -> (r: Vec<u8>)
    ensures
        r@ == join(rows(parts@)),
{
    let mut out: Vec<u8> = Vec::new();
    let mut i: usize = 0;
    let ghost p = rows(parts@);
    assert(p.take(0) =~= Seq::<Seq<u8>>::empty());
    while i < parts.len()
        invariant
            i <= parts.len(),
            p == rows(parts@),
            out@ == join(p.take(i as int)),
        decreases parts.len() - i,
    {
        proof {
            assert(p.take(i + 1).drop_last() =~= p.take(i as int));
            assert(p.take(i + 1).last() == parts[i as int]@);
        }
        out = concat_bytes(&out, &parts[i]);
        i = i + 1;
    }
    assert(p.take(parts.len() as int) =~= p);
    out
}

/// The leaves that commit to `values`: the bytes of each group of
/// `FOLD_SIZE_RATIO` values, and of what is left after the last full group.
pub fn chunkify(values: &Vec<u32>) -> (r: Vec<Vec<u8>>)
    ensures
        rows(r@) == chunks(values@),
{
    let n = values.len();
    let count: usize = n / FOLD_SIZE_RATIO + if n % FOLD_SIZE_RATIO != 0 {
        1usize
    } else {
        0usize
    };
    let mut out: Vec<Vec<u8>> = Vec::new();
    let mut k: usize = 0;
    while k < count
        invariant
            k <= count,
            n == values.len(),
            count == (n + FOLD_SIZE_RATIO - 1) / FOLD_SIZE_RATIO as int,
            out.len() == k,
            forall|j: int| 0 <= j < k ==> (#[trigger] out[j])@ == chunks(values@)[j],
        decreases count - k,
    {
        let start: usize = FOLD_SIZE_RATIO * k;
        let end: usize = if n - start >= FOLD_SIZE_RATIO {
            start + FOLD_SIZE_RATIO
        } else {
            n
        };
        out.push(range_bytes(values, start, end));
        k = k + 1;
    }
    assert(rows(out@) =~= chunks(values@));
    out
}

/// The number that the four bytes of `data` from `at` on stand for, the
/// lowest byte first.
fn read_value(data: &Vec<u8>, at: usize) -> (r: u32)
    requires
        at + 4 <= data.len(),
    ensures
        r == value_at(data@, at as int),
{
    let b0: u32 = data[at] as u32;
    let b1: u32 = data[at + 1] as u32;
    let b2: u32 = data[at + 2] as u32;
    let b3: u32 = data[at + 3] as u32;
    b0 + 256 * b1 + 65536 * b2 + 16777216 * b3
}

/// The values that the bytes `data` hold, four bytes each, the lowest
/// byte first; bytes beyond the last full group of four are left out.
pub fn unchunkify(data: &Vec<u8>) -> (r: Vec<u32>)
    ensures
        r@ == unchunked(data@),
{
    let count = data.len() / 4;
    let mut out: Vec<u32> = Vec::new();
    let mut i: usize = 0;
    while i < count
        invariant
            i <= count,
            count == data.len() / 4,
            out.len() == i,
            forall|j: int| 0 <= j < i ==> out[j] == value_at(data@, 4 * j) as u32,
        decreases count - i,
    {
        out.push(read_value(data, 4 * i));
        i = i + 1;
    }
    assert(out@ =~= unchunked(data@));
    out
}

/// `num_challenges` numbers below `domain_size`, derived from `root` by
/// hashing: the seed is hashed with a counter once for every eight
/// numbers, and each number is read from four bytes of the digests.
pub fn get_challenges(root: &Vec<u8>, domain_size: u32, num_challenges: usize) -> (r: Vec<u32>)
    requires
        domain_size > 0,
    ensures
        r@ == challenges(root@, domain_size, num_challenges as nat),
{
    let blocks: usize = num_challenges / 8 + if num_challenges % 8 != 0 {
        1usize
    } else {
        0usize
    };
    let mut challenge_data_bytes: Vec<u8> = Vec::new();
    let mut i: usize = 0;
    while i < blocks
        invariant
            i <= blocks,
            challenge_data_bytes@ == challenge_data(root@, i as nat),
            challenge_data_bytes.len() == DIGEST_SIZE * i,
        decreases blocks - i,
    {
        let mut hash_input = copy_bytes(root);
        hash_input.push(((i / 256) % 256) as u8);
        hash_input.push((i % 256) as u8);
        assert(hash_input@ =~= root@ + seq![((i / 256) % 256) as u8, (i % 256) as u8]);
        let hash_output = hash(hash_input);
        challenge_data_bytes = concat_bytes(&challenge_data_bytes, &hash_output);
        i = i + 1;
    }
    let mut out: Vec<u32> = Vec::new();
    let mut k: usize = 0;
    while k < num_challenges
        invariant
            k <= num_challenges,
            domain_size > 0,
            blocks == (num_challenges + 7) / 8,
            challenge_data_bytes@ == challenge_data(root@, blocks as nat),
            challenge_data_bytes.len() == DIGEST_SIZE * blocks,
            out.len() == k,
            forall|j: int|
                0 <= j < k ==> out[j] == (value_at(challenge_data_bytes@, 4 * j) % (
                domain_size as int)) as u32,
        decreases num_challenges - k,
    {
        let value = read_value(&challenge_data_bytes, 4 * k);
        out.push(value % domain_size);
        k = k + 1;
    }
    assert(out@ =~= challenges(root@, domain_size, num_challenges as nat));
    out
}

/// One fold of `v` with the coefficient `coeff` on the domain `d`: for
/// each pair of neighbours `a`, `b` and the coordinate `t` of the first,
/// `(a + b) / 2 + coeff (a - b) / (2 t)`.
pub open spec fn fold_once(v: Seq<u32>, coeff: u32, d: DomainView) -> Seq<u32> {
    Seq::new(
        v.len() / 2,
        |j: int|
            fnorm(
                half_sum(v[2 * j] as int, v[2 * j + 1] as int) + coeff * half_diff(
                    v[2 * j] as int,
                    v[2 * j + 1] as int,
                    evens(d.coords())[j] as int,
                ),
            ) as u32,
    )
}

/// Every coordinate that one fold of `n` values on `d` divides by is
/// invertible.
pub open spec fn fold_once_ok(n: nat, d: DomainView) -> bool {
    forall|j: int| 0 <= j < n / 2 ==> invertible((#[trigger] evens(d.coords())[j]) as int)
}

/// `v` after `k` folds that start on the domain `d`.
pub open spec fn fold_values(v: Seq<u32>, coeff: u32, d: DomainView, k: nat) -> Seq<u32>
    decreases k,
{
    if k == 0 {
        v
    } else {
        fold_values(fold_once(v, coeff, d), coeff, d.folded(), (k - 1) as nat)
    }
}

/// The domain `d` after `k` folds.
pub open spec fn fold_domain(d: DomainView, k: nat) -> DomainView
    decreases k,
{
    if k == 0 {
        d
    } else {
        fold_domain(d.folded(), (k - 1) as nat)
    }
}

/// Every coordinate that `k` folds of `n` values, starting on `d`, divide
/// by is invertible.
pub open spec fn fold_ok(n: nat, d: DomainView, k: nat) -> bool
    decreases k,
{
    k == 0 || (fold_once_ok(n, d) && fold_ok(n / 2, d.folded(), (k - 1) as nat))
}

/// What `fold` returns: the values and the domain after `FOLDS_PER_ROUND`
/// folds, unless the domain has another size than the values or a
/// coordinate to divide by is not invertible.
pub open spec fn fold_result(v: Seq<u32>, coeff: u32, d: DomainView) -> Result<
    (Seq<u32>, DomainView),
    StarkError,
> {
    if d.size() != v.len() {
        Err(StarkError::InvalidLength)
    } else if !fold_ok(v.len(), d, FOLDS_PER_ROUND as nat) {
        Err(StarkError::DivisionByZero)
    } else {
        Ok(
            (
                fold_values(v, coeff, d, FOLDS_PER_ROUND as nat),
                fold_domain(d, FOLDS_PER_ROUND as nat),
            ),
        )
    }
}

/// The coordinate to divide by at entry `i` of `domain`.
fn coord_at(domain: &Domain, i: usize) -> (r: u32)
    requires
        i < domain@.size(),
    ensures
        r == domain@.coords()[i as int],
{
    match domain {
        Domain::Points(p) => p[i].y,
        Domain::Scalars(s) => s[i],
    }
}

/// The entry below entry `i` of `domain`.
fn lowered_at(domain: &Domain, i: usize) -> (r: u32)
    requires
        i < domain@.size(),
    ensures
        r == domain@.lowered()[i as int],
{
    match domain {
        Domain::Points(p) => p[i].x,
        Domain::Scalars(s) => halve_single_scalar(s[i]),
    }
}

/// One fold of `values` on `domain`, and the domain that it leaves.
fn fold_step(values: &Vec<u32>, coeff: u32, domain: &Domain) -> (r: Result<
    (Vec<u32>, Domain),
    StarkError,
>)
    requires
        domain@.size() >= values.len(),
    ensures
        r is Ok <==> fold_once_ok(values.len() as nat, domain@),
        r is Err ==> r == Err::<(Vec<u32>, Domain), StarkError>(StarkError::DivisionByZero),
        r matches Ok(pair) ==> pair.0@ == fold_once(values@, coeff, domain@) && pair.1@
            == domain@.folded() && pair.0.len() == values.len() / 2 && pair.1@.size()
            >= pair.0.len(),
{
    let n = values.len();
    let m = domain.len();
    let h = n / 2;
    let ghost sel = evens(domain@.coords());
    let mut out: Vec<u32> = Vec::new();
    let mut j: usize = 0;
    while j < h
        invariant
            j <= h,
            h == n / 2,
            n == values.len(),
            m == domain@.size(),
            m >= n,
            sel == evens(domain@.coords()),
            out.len() == j,
            forall|i: int| 0 <= i < j ==> invertible((#[trigger] sel[i]) as int),
            forall|i: int| 0 <= i < j ==> out[i] == fold_once(values@, coeff, domain@)[i],
        decreases h - j,
    {
        let l = values[2 * j];
        let r = values[2 * j + 1];
        let t = coord_at(domain, 2 * j);
        assert(sel[j as int] == t);
        let f0 = halved_sum(l, r);
        match divided_difference(l, r, t) {
            Ok(f1) => {
                out.push(combined_sum(f0, coeff, f1));
            },
            Err(e) => {
                return Err(e);
            },
        }
        j = j + 1;
    }
    assert(out@ =~= fold_once(values@, coeff, domain@));
    let count: usize = m / 2 + m % 2;
    let mut next: Vec<u32> = Vec::new();
    let mut k: usize = 0;
    while k < count
        invariant
            k <= count,
            count == (m + 1) / 2,
            m == domain@.size(),
            next.len() == k,
            forall|i: int| 0 <= i < k ==> next[i] == domain@.lowered()[2 * i],
        decreases count - k,
    {
        next.push(lowered_at(domain, 2 * k));
        k = k + 1;
    }
    let d = Domain::Scalars(next);
    assert(d@.coords() =~= evens(domain@.lowered()));
    assert(d@ == domain@.folded());
    Ok((out, d))
}

/// `FOLDS_PER_ROUND` folds of `values` with the coefficient `coeff`, and
/// the domain that they leave.
///
/// Each fold takes the values in pairs of neighbours `a`, `b`, and puts
/// `(a + b) / 2 + coeff (a - b) / (2 t)` in their place, where `t` is the
/// coordinate of the domain at the first of the two: the second coordinate
/// on a domain of points, the scalar on a domain of scalars. The domain
/// keeps its entries at the even positions, lowered: the first coordinates
/// of points, the images of scalars under the doubling map.
///
/// `InvalidLength` unless the domain has as many entries as there are
/// values; `DivisionByZero` where a coordinate to divide by is zero.
pub fn fold(values: &Vec<u32>, coeff: u32, domain: &Domain) -> (r: Result<
    (Vec<u32>, Domain),
    StarkError,
>)
    ensures
        match (r, fold_result(values@, coeff, domain@)) {
            (Ok(pair), Ok(stated)) => pair.0@ == stated.0 && pair.1@ == stated.1,
            (Err(e), Err(f)) => e == f,
            _ => false,
        },
        r matches Ok(pair) ==> pair.0.len() == values.len() / 8 && pair.1@.size() >= pair.0.len()
            && pair.1 is Scalars,
{
    if domain.len() != values.len() {
        return Err(StarkError::InvalidLength);
    }
    proof {
        reveal_with_fuel(fold_values, 4);
        reveal_with_fuel(fold_domain, 4);
        reveal_with_fuel(fold_ok, 4);
    }
    let (v1, d1) = match fold_step(values, coeff, domain) {
        Ok(pair) => pair,
        Err(e) => {
            return Err(e);
        },
    };
    let (v2, d2) = match fold_step(&v1, coeff, &d1) {
        Ok(pair) => pair,
        Err(e) => {
            return Err(e);
        },
    };
    match fold_step(&v2, coeff, &d2) {
        Ok(pair) => Ok(pair),
        Err(e) => Err(e),
    }
}

/// Whether the values `ev`, given in folded reverse bit order on the
/// domain `d` in the same order, have a zero for every coefficient in the
/// upper half; or why their coefficients cannot be had.
pub open spec fn low_degree_result(ev: Seq<u32>, d: DomainView) -> Result<bool, StarkError> {
    match transform_result(
        ints(folded_bit_reversed(ev)),
        d.size(),
        d.reordered().twiddles(),
        d.reordered().halved(),
    ) {
        Ok(c) => Ok(forall|i: int| ev.len() / 2 <= i < c.len() ==> c[i] == 0),
        Err(e) => Err(e),
    }
}

/// Whether `evaluations`, given in folded reverse bit order on `domain` in
/// the same order, are the values of a function of low degree: whether,
/// put back in their natural order, they have a zero for every coefficient
/// in the upper half.
///
/// `InvalidLength` unless the number of values is a power of two and that
/// of the domain's entries; `DivisionByZero` where a coordinate to divide
/// by is zero.
pub fn is_rbo_low_degree(evaluations: &Vec<u32>, domain: &Domain) -> (r: Result<bool, StarkError>)
    ensures
        r == low_degree_result(evaluations@, domain@),
{
    let halflen = evaluations.len() / 2;
    let natural = folded_reverse_bit_order(evaluations);
    let natural_domain = reorder_domain(domain);
    proof {
        lemma_folded_bit_reversed_len(evaluations@);
    }
    let o = match fft_on(&natural, &natural_domain) {
        Ok(o) => o,
        Err(e) => {
            return Err(e);
        },
    };
    let ghost c = ints(o@);
    let ghost stated = transform_result(
        ints(folded_bit_reversed(evaluations@)),
        domain@.size(),
        domain@.reordered().twiddles(),
        domain@.reordered().halved(),
    );
    let mut i: usize = halflen;
    while i < o.len()
        invariant
            halflen <= i <= o.len(),
            halflen == evaluations.len() / 2,
            c == ints(o@),
            stated == Ok::<Seq<int>, StarkError>(c),
            low_degree_result(evaluations@, domain@) == Ok::<bool, StarkError>(
                forall|k: int| evaluations.len() / 2 <= k < c.len() ==> c[k] == 0,
            ),
            forall|k: int| halflen <= k < i ==> c[k] == 0,
        decreases o.len() - i,
    {
        if o[i] != 0 {
            assert(c[i as int] != 0);
            return Ok(false);
        }
        i = i + 1;
    }
    Ok(true)
}

/// A proof that committed values are those of a function of low degree.
#[derive(Debug)]
pub struct Proof {
    /// The root of the commitment of each round.
    pub roots: Vec<Vec<u8>>,
    /// For each round and each query, the branch of the queried leaf.
    pub branches: Vec<Vec<Vec<Vec<u8>>>>,
    /// For each round and each query, the values of the queried leaf.
    pub leaf_values: Vec<Vec<Vec<u32>>>,
    /// The values that the last round leaves.
    pub final_values: Vec<u32>,
    /// The domain that the last round leaves.
    pub final_domain: Domain,
    /// What the prover added to the seed of the queries.
    pub extra_entropy: Vec<u8>,
}

/// What a proof holds, as sequences.
pub struct ProofView {
    pub roots: Seq<Seq<u8>>,
    pub branches: Seq<Seq<Seq<Seq<u8>>>>,
    pub leaf_values: Seq<Seq<Seq<u32>>>,
    pub final_values: Seq<u32>,
    pub final_domain: DomainView,
    pub extra_entropy: Seq<u8>,
}

/// The value sequences held by a vector of value vectors.
pub open spec fn groups(v: Seq<Vec<u32>>) -> Seq<Seq<u32>> {
    v.map_values(|g: Vec<u32>| g@)
}

/// The branches held by a vector of branches.
pub open spec fn branch_rows(v: Seq<Vec<Vec<u8>>>) -> Seq<Seq<Seq<u8>>> {
    v.map_values(|b: Vec<Vec<u8>>| rows(b@))
}

impl View for Proof {
    type V = ProofView;

    open spec fn view(&self) -> ProofView {
        ProofView {
            roots: rows(self.roots@),
            branches: self.branches@.map_values(|r: Vec<Vec<Vec<u8>>>| branch_rows(r@)),
            leaf_values: self.leaf_values@.map_values(|r: Vec<Vec<u32>>| groups(r@)),
            final_values: self.final_values@,
            final_domain: self.final_domain@,
            extra_entropy: self.extra_entropy@,
        }
    }
}

/// The number of rounds for `n` values: as many as bring the values down
/// to the base case size, three halvings at a time.
pub open spec fn rounds_for(n: nat) -> nat {
    floor_log2(n / BASE_CASE_SIZE as nat) / FOLDS_PER_ROUND as nat
}

/// The coefficient of the round that follows the commitments `roots`:
/// the challenge below the modulus that the roots so far give.
pub open spec fn fold_factor(roots: Seq<Seq<u8>>) -> u32 {
    challenges(join(roots), MODULUS, 1)[0]
}

/// The root of the commitment to `values`.
pub open spec fn committed_root(values: Seq<u32>) -> Seq<u8> {
    tree_of(chunks(values))[1]
}

/// What the prover holds between two rounds.
pub struct RoundState {
    /// The values to commit to next.
    pub values: Seq<u32>,
    /// The domain of these values.
    pub domain: DomainView,
    /// The roots of the rounds so far.
    pub roots: Seq<Seq<u8>>,
    /// The values that each round so far has committed to.
    pub leaves: Seq<Seq<u32>>,
}

/// One round: commit to the values, derive the coefficient from all roots
/// so far, fold.
pub open spec fn round_step(s: RoundState) -> Result<RoundState, StarkError> {
    if !is_pow2(chunks(s.values).len()) {
        Err(StarkError::InvalidLeafCount)
    } else {
        let roots = s.roots.push(committed_root(s.values));
        match fold_result(s.values, fold_factor(roots), s.domain) {
            Ok(f) => Ok(
                RoundState { values: f.0, domain: f.1, roots, leaves: s.leaves.push(s.values) },
            ),
            Err(e) => Err(e),
        }
    }
}

/// `k` rounds from the state `s`.
pub open spec fn after_rounds(s: RoundState, k: nat) -> Result<RoundState, StarkError>
    decreases k,
{
    if k == 0 {
        Ok(s)
    } else {
        match after_rounds(s, (k - 1) as nat) {
            Ok(p) => round_step(p),
            Err(e) => Err(e),
        }
    }
}

/// The bytes that the queries are derived from.
pub open spec fn query_seed(
    entropy: Seq<u8>,
    roots: Seq<Seq<u8>>,
    final_values: Seq<u32>,
) -> Seq<u8> {
    entropy + join(roots) + values_bytes(final_values)
}

/// The positions below `size / 8` at which a proof for `size` values is
/// queried.
pub open spec fn query_positions(
    entropy: Seq<u8>,
    roots: Seq<Seq<u8>>,
    final_values: Seq<u32>,
    size: nat,
) -> Seq<u32> {
    challenges(
        query_seed(entropy, roots, final_values),
        (size / FOLD_SIZE_RATIO as nat) as u32,
        NUM_CHALLENGES as nat,
    )
}

/// The positions one round later: each divided by `FOLD_SIZE_RATIO`.
pub open spec fn shrink(positions: Seq<u32>) -> Seq<u32> {
    positions.map_values(|c: u32| c / 8)
}

/// The positions `i` rounds later.
pub open spec fn shrunk(positions: Seq<u32>, i: nat) -> Seq<u32>
    decreases i,
{
    if i == 0 {
        positions
    } else {
        shrink(shrunk(positions, (i - 1) as nat))
    }
}

/// The values of leaf `c` of the commitment to `values`; nothing where
/// there is no such leaf.
pub open spec fn leaf_group(values: Seq<u32>, c: u32) -> Seq<u32> {
    if FOLD_SIZE_RATIO * c + FOLD_SIZE_RATIO <= values.len() {
        values.subrange(FOLD_SIZE_RATIO * c, FOLD_SIZE_RATIO * c + FOLD_SIZE_RATIO)
    } else {
        Seq::empty()
    }
}

/// The branch of leaf `c` of the commitment to `values`; nothing where
/// there is no such leaf.
pub open spec fn leaf_branch(values: Seq<u32>, c: u32) -> Seq<Seq<u8>> {
    if c < chunks(values).len() {
        branch_from(tree_of(chunks(values)), chunks(values).len() + c)
    } else {
        Seq::empty()
    }
}

/// The branches that answer the queries at `positions` in one round.
pub open spec fn round_branches(values: Seq<u32>, positions: Seq<u32>) -> Seq<Seq<Seq<u8>>> {
    Seq::new(positions.len(), |j: int| leaf_branch(values, positions[j]))
}

/// The leaf values that answer the queries at `positions` in one round.
pub open spec fn round_groups(values: Seq<u32>, positions: Seq<u32>) -> Seq<Seq<u32>> {
    Seq::new(positions.len(), |j: int| leaf_group(values, positions[j]))
}

/// The state in which the prover starts on the values `evals` and the
/// points `points` of their domain: both in folded reverse bit order.
pub open spec fn start_state(evals: Seq<u32>, points: Seq<CirclePoint>) -> RoundState {
    RoundState {
        values: folded_bit_reversed(evals),
        domain: DomainView::Points(folded_bit_reversed(points)),
        roots: Seq::empty(),
        leaves: Seq::empty(),
    }
}

/// The proof that the last state `s` of the prover gives for `size`
/// values.
pub open spec fn proof_of(s: RoundState, entropy: Seq<u8>, size: nat) -> ProofView {
    let positions = query_positions(entropy, s.roots, s.values, size);
    ProofView {
        roots: s.roots,
        branches: Seq::new(
            s.leaves.len(),
            |i: int| round_branches(s.leaves[i], shrunk(positions, i as nat)),
        ),
        leaf_values: Seq::new(
            s.leaves.len(),
            |i: int| round_groups(s.leaves[i], shrunk(positions, i as nat)),
        ),
        final_values: s.values,
        final_domain: s.domain,
        extra_entropy: entropy,
    }
}

/// What `prove_low_degree` returns.
pub open spec fn prove_result(evals: Seq<u32>, entropy: Seq<u8>) -> Result<ProofView, StarkError> {
    if !is_pow2(evals.len()) || evals.len() < FOLD_SIZE_RATIO {
        Err(StarkError::InvalidLength)
    } else {
        match initial_domain(MODULUS, evals.len()) {
            Err(e) => Err(e),
            Ok(points) => match after_rounds(
                start_state(evals, points),
                rounds_for(evals.len()),
            ) {
                Err(e) => Err(e),
                Ok(s) => Ok(proof_of(s, entropy, evals.len())),
            },
        }
    }
}

/// A copy of `v`.
pub fn copy_values(v: &Vec<u32>) -> (r: Vec<u32>)
    ensures
        r@ == v@,
{
    let mut out: Vec<u32> = Vec::new();
    let mut i: usize = 0;
    while i < v.len()
        invariant
            i <= v.len(),
            out@ == v@.subrange(0, i as int),
        decreases v.len() - i,
    {
        out.push(v[i]);
        i = i + 1;
        assert(out@ =~= v@.subrange(0, i as int));
    }
    assert(v@.subrange(0, v.len() as int) =~= v@);
    out
}

/// The coefficient of the round that follows the commitments `roots`.
pub fn fold_factor_of(roots: &Vec<Vec<u8>>) -> (r: u32)
    ensures
        r == fold_factor(rows(roots@)),
{
    let seed = join_bytes(roots);
    let c = get_challenges(&seed, MODULUS, 1);
    c[0]
}

/// The positions one round later.
pub fn shrink_positions(positions: &Vec<u32>) -> (r: Vec<u32>)
    ensures
        r@ == shrink(positions@),
{
    let mut out: Vec<u32> = Vec::new();
    let mut i: usize = 0;
    while i < positions.len()
        invariant
            i <= positions.len(),
            out.len() == i,
            forall|j: int| 0 <= j < i ==> out[j] == positions[j] / 8,
        decreases positions.len() - i,
    {
        out.push(positions[i] / 8);
        i = i + 1;
    }
    assert(out@ =~= shrink(positions@));
    out
}

/// The values of leaf `c` of the commitment to `values`.
fn leaf_group_of(values: &Vec<u32>, c: u32) -> (r: Vec<u32>)
    ensures
        r@ == leaf_group(values@, c),
{
    let n = values.len();
    if n < FOLD_SIZE_RATIO || (c as u64) > ((n - FOLD_SIZE_RATIO) / FOLD_SIZE_RATIO) as u64 {
        return Vec::new();
    }
    let start: usize = FOLD_SIZE_RATIO * (c as usize);
    let mut out: Vec<u32> = Vec::new();
    let mut i: usize = 0;
    while i < FOLD_SIZE_RATIO
        invariant
            i <= FOLD_SIZE_RATIO,
            start + FOLD_SIZE_RATIO <= values.len(),
            out.len() == i,
            forall|j: int| 0 <= j < i ==> out[j] == values[start + j],
        decreases FOLD_SIZE_RATIO - i,
    {
        out.push(values[start + i]);
        i = i + 1;
    }
    assert(out@ =~= leaf_group(values@, c));
    out
}

/// The branches and the leaf values that answer the queries at
/// `positions` in the round that committed to `values` with `tree`.
fn answer_queries(values: &Vec<u32>, tree: &Vec<Vec<u8>>, positions: &Vec<u32>) -> (r: (
    Vec<Vec<Vec<u8>>>,
    Vec<Vec<u32>>,
))
    requires
        rows(tree@) == tree_of(chunks(values@)),
    ensures
        branch_rows(r.0@) == round_branches(values@, positions@),
        groups(r.1@) == round_groups(values@, positions@),
{
    let mut round_branch_list: Vec<Vec<Vec<u8>>> = Vec::new();
    let mut round_leaf_values: Vec<Vec<u32>> = Vec::new();
    let ghost leaf_count = chunks(values@).len();
    assert(tree.len() == 2 * leaf_count) by {
        assert(rows(tree@).len() == tree.len());
    }
    let mut j: usize = 0;
    while j < positions.len()
        invariant
            j <= positions.len(),
            rows(tree@) == tree_of(chunks(values@)),
            leaf_count == chunks(values@).len(),
            tree.len() == 2 * leaf_count,
            round_branch_list.len() == j,
            round_leaf_values.len() == j,
            forall|k: int|
                0 <= k < j ==> rows((#[trigger] round_branch_list[k])@) == leaf_branch(
                    values@,
                    positions[k],
                ),
            forall|k: int|
                0 <= k < j ==> (#[trigger] round_leaf_values[k])@ == leaf_group(
                    values@,
                    positions[k],
                ),
        decreases positions.len() - j,
    {
        let c = positions[j];
        if (c as u64) < (tree.len() / 2) as u64 {
            round_branch_list.push(get_branch(tree, c as usize));
        } else {
            let empty: Vec<Vec<u8>> = Vec::new();
            assert(rows(empty@) =~= Seq::<Seq<u8>>::empty());
            round_branch_list.push(empty);
        }
        round_leaf_values.push(leaf_group_of(values, c));
        j = j + 1;
    }
    assert(branch_rows(round_branch_list@) =~= round_branches(values@, positions@));
    assert(groups(round_leaf_values@) =~= round_groups(values@, positions@));
    (round_branch_list, round_leaf_values)
}

/// Once a round has failed, the rounds after it fail in the same way.
proof fn lemma_rounds_stay_failed(s: RoundState, k: nat, later: nat)
    requires
        after_rounds(s, k) is Err,
        k <= later,
    ensures
        after_rounds(s, later) == after_rounds(s, k),
    decreases later,
{
    if later > k {
        lemma_rounds_stay_failed(s, k, (later - 1) as nat);
    }
}

/// A proof that `evaluations`, the values of a function on the domain of
/// as many points, are those of a function of low degree.
///
/// The values and the domain are put in folded reverse bit order. Each
/// round commits to the values, eight to a leaf, derives its coefficient
/// from the roots of all commitments so far, and folds values and domain
/// three times. When as many rounds are done as bring the values down to
/// the base case size, the positions to query are derived from
/// `extra_entropy`, the roots and the values that are left; the proof holds,
/// for each round and each position, the leaf at that position and its
/// branch, the position being divided by eight from one round to the next.
///
/// `InvalidLength` unless the number of values is a power of two, at least
/// 8, for which the circle group has a domain.
#[verifier::rlimit(40)]
pub fn prove_low_degree(evaluations: &Vec<u32>, extra_entropy: &Vec<u8>) -> (r: Result<
    Proof,
    StarkError,
>)
    ensures
        match (r, prove_result(evaluations@, extra_entropy@)) {
            (Ok(p), Ok(stated)) => p@ == stated,
            (Err(e), Err(f)) => e == f,
            _ => false,
        },
{
    let n = evaluations.len();
    if !is_power_of_two(n) || n < FOLD_SIZE_RATIO {
        return Err(StarkError::InvalidLength);
    }
    let points = match get_initial_domain_of_size(MODULUS, n) {
        Ok(points) => points,
        Err(e) => {
            return Err(e);
        },
    };
    let ghost s0 = start_state(evaluations@, points@);
    let mut domain = Domain::Points(folded_reverse_bit_order(&points));
    let mut values = folded_reverse_bit_order(evaluations);
    proof {
        lemma_folded_bit_reversed_len(evaluations@);
    }
    let rounds: usize = log2((n / BASE_CASE_SIZE) as u32) / FOLDS_PER_ROUND;
    let mut leaves: Vec<Vec<u32>> = Vec::new();
    let mut trees: Vec<Vec<Vec<u8>>> = Vec::new();
    let mut roots: Vec<Vec<u8>> = Vec::new();
    assert(rows(roots@) =~= Seq::<Seq<u8>>::empty());
    assert(groups(leaves@) =~= Seq::<Seq<u32>>::empty());
    let mut i: usize = 0;
    while i < rounds
        invariant
            i <= rounds,
            rounds == rounds_for(n as nat),
            n == evaluations.len(),
            n < MODULUS,
            values.len() <= n,
            prove_result(evaluations@, extra_entropy@) == match after_rounds(s0, rounds as nat) {
                Err(e) => Err::<ProofView, StarkError>(e),
                Ok(s) => Ok(proof_of(s, extra_entropy@, n as nat)),
            },
            after_rounds(s0, i as nat) == Ok::<RoundState, StarkError>(
                RoundState {
                    values: values@,
                    domain: domain@,
                    roots: rows(roots@),
                    leaves: groups(leaves@),
                },
            ),
            trees.len() == i,
            leaves.len() == i,
            roots.len() == i,
            forall|q: int|
                0 <= q < i ==> rows((#[trigger] trees[q])@) == tree_of(chunks(leaves[q]@)),
        decreases rounds - i,
    {
        let ghost before = RoundState {
            values: values@,
            domain: domain@,
            roots: rows(roots@),
            leaves: groups(leaves@),
        };
        let chunked = chunkify(&values);
        let tree = match merkelize(&chunked) {
            Ok(tree) => tree,
            Err(e) => {
                proof {
                    assert(round_step(before) == Err::<RoundState, StarkError>(e));
                    lemma_rounds_stay_failed(s0, (i + 1) as nat, rounds as nat);
                }
                return Err(e);
            },
        };
        assert(tree.len() >= 2) by {
            assert(rows(tree@).len() == tree.len());
        }
        let root = copy_bytes(&tree[1]);
        assert(root@ == committed_root(values@)) by {
            assert(rows(tree@)[1] == tree[1]@);
        }
        let ghost old_roots = rows(roots@);
        roots.push(root);
        assert(rows(roots@) =~= old_roots.push(committed_root(values@)));
        let fold_factor_value = fold_factor_of(&roots);
        let (folded_values, folded_domain) = match fold(&values, fold_factor_value, &domain) {
            Ok(pair) => pair,
            Err(e) => {
                proof {
                    assert(round_step(before) == Err::<RoundState, StarkError>(e));
                    lemma_rounds_stay_failed(s0, (i + 1) as nat, rounds as nat);
                }
                return Err(e);
            },
        };
        let ghost old_leaves = groups(leaves@);
        let ghost committed = values@;
        leaves.push(values);
        assert(groups(leaves@) =~= old_leaves.push(committed));
        trees.push(tree);
        values = folded_values;
        domain = folded_domain;
        i = i + 1;
    }
    let ghost last = RoundState {
        values: values@,
        domain: domain@,
        roots: rows(roots@),
        leaves: groups(leaves@),
    };
    let seed = concat_bytes(
        &concat_bytes(extra_entropy, &join_bytes(&roots)),
        &values_to_bytes(&values),
    );
    let positions = get_challenges(&seed, (n / FOLD_SIZE_RATIO) as u32, NUM_CHALLENGES);
    assert(positions@ == query_positions(extra_entropy@, last.roots, last.values, n as nat));
    let mut branches: Vec<Vec<Vec<Vec<u8>>>> = Vec::new();
    let mut leaf_values: Vec<Vec<Vec<u32>>> = Vec::new();
    let mut current = copy_values(&positions);
    let mut k: usize = 0;
    while k < rounds
        invariant
            k <= rounds,
            trees.len() == rounds,
            leaves.len() == rounds,
            forall|q: int|
                0 <= q < rounds ==> rows((#[trigger] trees[q])@) == tree_of(chunks(leaves[q]@)),
            current@ == shrunk(positions@, k as nat),
            branches.len() == k,
            leaf_values.len() == k,
            forall|q: int|
                0 <= q < k ==> branch_rows((#[trigger] branches[q])@) == round_branches(
                    leaves[q]@,
                    shrunk(positions@, q as nat),
                ),
            forall|q: int|
                0 <= q < k ==> groups((#[trigger] leaf_values[q])@) == round_groups(
                    leaves[q]@,
                    shrunk(positions@, q as nat),
                ),
        decreases rounds - k,
    {
        let (round_branch_list, round_leaf_values) = answer_queries(
            &leaves[k],
            &trees[k],
            &current,
        );
        branches.push(round_branch_list);
        leaf_values.push(round_leaf_values);
        current = shrink_positions(&current);
        k = k + 1;
    }
    let proof_made = Proof {
        roots,
        branches,
        leaf_values,
        final_values: values,
        final_domain: domain,
        extra_entropy: copy_bytes(extra_entropy),
    };
    proof {
        let stated = proof_of(last, extra_entropy@, n as nat);
        assert(proof_made@.branches =~= stated.branches);
        assert(proof_made@.leaf_values =~= stated.leaf_values);
    }
    Ok(proof_made)
}

/// The number of values that `rounds` rounds bring down to `len`.
pub open spec fn size_after(len: nat, rounds: nat) -> nat
    decreases rounds,
{
    if rounds == 0 {
        len
    } else {
        FOLD_SIZE_RATIO as nat * size_after(len, (rounds - 1) as nat)
    }
}

/// The number of values that the proof speaks of.
pub open spec fn claimed_size(p: ProofView) -> nat {
    size_after(p.final_values.len(), p.roots.len())
}

/// The proof has the shape of a proof: as many rounds of branches and of
/// leaf values as of roots; for each round one branch and one leaf of
/// `FOLD_SIZE_RATIO` values for each query; a power of two as the number of
/// the final values; and a number of values from 8 to 2^30.
pub open spec fn well_formed(p: ProofView) -> bool {
    &&& p.branches.len() == p.roots.len()
    &&& p.leaf_values.len() == p.roots.len()
    &&& is_pow2(p.final_values.len())
    &&& FOLD_SIZE_RATIO <= claimed_size(p) <= 0x4000_0000
    &&& forall|i: int|
        0 <= i < p.roots.len() ==> (#[trigger] p.branches[i]).len() == NUM_CHALLENGES
    &&& forall|i: int|
        0 <= i < p.roots.len() ==> (#[trigger] p.leaf_values[i]).len() == NUM_CHALLENGES
    &&& forall|i: int, j: int|
        0 <= i < p.roots.len() && 0 <= j < NUM_CHALLENGES ==> (
        #[trigger] p.leaf_values[i][j]).len() == FOLD_SIZE_RATIO
}

/// The position among the values of a round of entry `e` of the values
/// revealed for the queries `cur`: place `e % 8` of leaf `cur[e / 8]`.
pub open spec fn revealed_position(cur: Seq<u32>, e: int) -> nat {
    (FOLD_SIZE_RATIO * cur[e / 8] + e % 8) as nat
}

/// The domain of the values revealed for the queries `cur` in a round on
/// `size` values. In the first round these are the points of the domain of
/// `size` points at the revealed positions, taken back from the folded
/// reverse bit order; later they are the first coordinates of the points
/// of the domain of twice the size at twice the positions.
pub open spec fn round_domain(first: bool, size: nat, cur: Seq<u32>) -> Result<
    DomainView,
    StarkError,
> {
    let count = FOLD_SIZE_RATIO as nat * cur.len();
    if count == 0 {
        Ok(
            if first {
                DomainView::Points(Seq::empty())
            } else {
                DomainView::Scalars(Seq::empty())
            },
        )
    } else if first {
        match domain_generator_result(MODULUS, size) {
            Err(e) => Err(e),
            Ok(g) => Ok(
                DomainView::Points(
                    Seq::new(
                        count,
                        |e: int|
                            scalar_mul(
                                g,
                                2 * original_index(size, revealed_position(cur, e)) + 1,
                            ),
                    ),
                ),
            ),
        }
    } else {
        match domain_generator_result(MODULUS, 2 * size) {
            Err(e) => Err(e),
            Ok(g) => Ok(
                DomainView::Scalars(
                    Seq::new(
                        count,
                        |e: int|
                            scalar_mul(
                                g,
                                2 * original_index(2 * size, 2 * revealed_position(cur, e)) + 1,
                            ).x,
                    ),
                ),
            ),
        }
    }
}

/// The values of leaves of `FOLD_SIZE_RATIO` values, one leaf after the
/// other.
pub open spec fn flat(g: Seq<Seq<u32>>) -> Seq<u32> {
    Seq::new(FOLD_SIZE_RATIO as nat * g.len(), |e: int| g[e / 8][e % 8])
}

/// The value that the fold of the leaf of query `j` in round `i` has to
/// give: the value at the query's position in the next round, which the
/// next round's leaf reveals, or, after the last round, the final value at
/// that position.
pub open spec fn expected_value(p: ProofView, i: int, cur: Seq<u32>, j: int) -> Option<u32> {
    if i + 1 < p.roots.len() {
        Some(p.leaf_values[i + 1][j][(cur[j] % 8) as int])
    } else if cur[j] < p.final_values.len() {
        Some(p.final_values[cur[j] as int])
    } else {
        None
    }
}

/// The folds of the revealed leaves of round `i` give what they have to.
pub open spec fn values_match(p: ProofView, i: int, cur: Seq<u32>, folded: Seq<u32>) -> bool {
    forall|j: int|
        0 <= j < NUM_CHALLENGES ==> #[trigger] expected_value(p, i, cur, j) == Some(folded[j])
}

/// The branch of each revealed leaf of round `i` leads to the round's
/// root.
pub open spec fn branches_verify(p: ProofView, i: int, cur: Seq<u32>) -> bool {
    forall|j: int|
        0 <= j < NUM_CHALLENGES ==> branch_verifies(
            p.roots[i],
            cur[j] as nat,
            values_bytes(#[trigger] p.leaf_values[i][j]),
            p.branches[i][j],
        )
}

/// Whether round `i`, on `size` values and with the queries `cur`, stands
/// the verifier's checks; or why they cannot be made.
pub open spec fn round_check(p: ProofView, i: int, size: nat, cur: Seq<u32>) -> Result<
    bool,
    StarkError,
> {
    match round_domain(i == 0, size, cur) {
        Err(e) => Err(e),
        Ok(d) => match fold_result(flat(p.leaf_values[i]), fold_factor(p.roots.take(i + 1)), d) {
            Err(e) => Err(e),
            Ok(f) => Ok(values_match(p, i, cur, f.0) && branches_verify(p, i, cur)),
        },
    }
}

/// Whether the rounds from `i` on stand the verifier's checks, stopping at
/// the first that does not or cannot be checked.
pub open spec fn rounds_check(p: ProofView, i: int, size: nat, cur: Seq<u32>) -> Result<
    bool,
    StarkError,
>
    decreases p.roots.len() - i,
{
    if i < 0 || i >= p.roots.len() {
        Ok(true)
    } else {
        match round_check(p, i, size, cur) {
            Err(e) => Err(e),
            Ok(passed) => if passed {
                rounds_check(p, i + 1, size / FOLD_SIZE_RATIO as nat, shrink(cur))
            } else {
                Ok(false)
            },
        }
    }
}

/// The domain that `rounds` rounds leave for `len` final values, in
/// folded reverse bit order: without a round the points of the domain of
/// `len` points, and else the first coordinates of the first half of the
/// domain of twice as many points.
pub open spec fn expected_final_domain(rounds: nat, len: nat) -> Result<DomainView, StarkError> {
    if rounds == 0 {
        match initial_domain(MODULUS, len) {
            Err(e) => Err(e),
            Ok(points) => Ok(DomainView::Points(points).reordered()),
        }
    } else {
        match initial_domain(MODULUS, 2 * len) {
            Err(e) => Err(e),
            Ok(points) => Ok(
                DomainView::Scalars(
                    DomainView::Points(points).lowered().take(len as int),
                ).reordered(),
            ),
        }
    }
}

/// Whether the final values stand the verifier's check: the proof names
/// the domain that the rounds leave, and on it the final values are those
/// of a function of low degree.
pub open spec fn final_check(p: ProofView) -> Result<bool, StarkError> {
    match expected_final_domain(p.roots.len(), p.final_values.len()) {
        Err(e) => Err(e),
        Ok(d) => if d != p.final_domain {
            Ok(false)
        } else {
            low_degree_result(p.final_values, d)
        },
    }
}

/// What `verify_low_degree` returns: `MalformedProof` for a proof of the
/// wrong shape; the error of a check that cannot be made; and else whether
/// every round and the final values stand the checks.
pub open spec fn verify_result(p: ProofView) -> Result<bool, StarkError> {
    if !well_formed(p) {
        Err(StarkError::MalformedProof)
    } else {
        match rounds_check(
            p,
            0,
            claimed_size(p),
            query_positions(p.extra_entropy, p.roots, p.final_values, claimed_size(p)),
        ) {
            Err(e) => Err(e),
            Ok(passed) => if passed {
                final_check(p)
            } else {
                Ok(false)
            },
        }
    }
}

proof fn lemma_size_grows(len: nat, a: nat, b: nat)
    requires
        a <= b,
    ensures
        size_after(len, a) <= size_after(len, b),
    decreases b,
{
    if a < b {
        lemma_size_grows(len, a, (b - 1) as nat);
    }
}

/// The number of values that the proof speaks of, if it has the shape of
/// a proof.
#[verifier::rlimit(40)]
fn checked_size(proof: &Proof) -> (r: Option<usize>)
    ensures
        r is Some <==> well_formed(proof@),
        r matches Some(n) ==> n == claimed_size(proof@),
{
    let rounds = proof.roots.len();
    let ghost p = proof@;
    if proof.branches.len() != rounds || proof.leaf_values.len() != rounds {
        return None;
    }
    if !is_power_of_two(proof.final_values.len()) {
        return None;
    }
    let mut size: usize = proof.final_values.len();
    let mut r: usize = 0;
    while r < rounds
        invariant
            r <= rounds,
            rounds == proof.roots.len(),
            p == proof@,
            size == size_after(proof.final_values.len() as nat, r as nat),
            1 <= size,
        decreases rounds - r,
    {
        if size > 0x800_0000 {
            proof {
                lemma_size_grows(proof.final_values.len() as nat, (r + 1) as nat, rounds as nat);
            }
            return None;
        }
        size = FOLD_SIZE_RATIO * size;
        r = r + 1;
    }
    if size < FOLD_SIZE_RATIO || size > 0x4000_0000 {
        return None;
    }
    let mut i: usize = 0;
    while i < rounds
        invariant
            i <= rounds,
            rounds == proof.roots.len(),
            proof.branches.len() == rounds,
            proof.leaf_values.len() == rounds,
            p == proof@,
            forall|q: int| 0 <= q < i ==> (#[trigger] p.branches[q]).len() == NUM_CHALLENGES,
            forall|q: int| 0 <= q < i ==> (#[trigger] p.leaf_values[q]).len() == NUM_CHALLENGES,
            forall|q: int, j: int|
                0 <= q < i && 0 <= j < NUM_CHALLENGES ==> (#[trigger] p.leaf_values[q][j]).len()
                    == FOLD_SIZE_RATIO,
        decreases rounds - i,
    {
        assert(p.branches[i as int].len() == proof.branches[i as int].len());
        assert(p.leaf_values[i as int].len() == proof.leaf_values[i as int].len());
        if proof.branches[i].len() != NUM_CHALLENGES || proof.leaf_values[i].len()
            != NUM_CHALLENGES {
            return None;
        }
        let mut j: usize = 0;
        while j < NUM_CHALLENGES
            invariant
                j <= NUM_CHALLENGES,
                i < rounds,
                proof.leaf_values.len() == rounds,
                rounds == proof.roots.len(),
                proof.leaf_values[i as int].len() == NUM_CHALLENGES,
                p == proof@,
                forall|k: int|
                    0 <= k < j ==> (#[trigger] p.leaf_values[i as int][k]).len()
                        == FOLD_SIZE_RATIO,
            decreases NUM_CHALLENGES - j,
        {
            assert(p.leaf_values[i as int][j as int] == proof.leaf_values[i as int][j as int]@);
            if proof.leaf_values[i][j].len() != FOLD_SIZE_RATIO {
                return None;
            }
            j = j + 1;
        }
        i = i + 1;
    }
    Some(size)
}

/// The domain of the values revealed for the queries `cur` in a round on
/// `size` values.
#[verifier::rlimit(40)]
fn round_domain_of(first: bool, size: usize, cur: &Vec<u32>) -> (r: Result<Domain, StarkError>)
    requires
        size <= 0x4000_0000,
        cur.len() <= NUM_CHALLENGES,
        forall|j: int| 0 <= j < cur.len() ==> cur[j] < 0x800_0000,
    ensures
        match (r, round_domain(first, size as nat, cur@)) {
            (Ok(d), Ok(stated)) => d@ == stated,
            (Err(e), Err(f)) => e == f,
            _ => false,
        },
{
    let count: usize = FOLD_SIZE_RATIO * cur.len();
    let mut points: Vec<CirclePoint> = Vec::new();
    let mut scalars: Vec<u32> = Vec::new();
    let ghost stated = round_domain(first, size as nat, cur@);
    let mut e: usize = 0;
    while e < count
        invariant
            e <= count,
            count == FOLD_SIZE_RATIO * cur.len(),
            size <= 0x4000_0000,
            forall|j: int| 0 <= j < cur.len() ==> cur[j] < 0x800_0000,
            stated == round_domain(first, size as nat, cur@),
            e > 0 ==> stated is Ok,
            first ==> points.len() == e && scalars.len() == 0,
            !first ==> scalars.len() == e && points.len() == 0,
            first && e > 0 ==> forall|q: int|
                0 <= q < e ==> points[q] == (stated->Ok_0)->Points_0[q],
            !first && e > 0 ==> forall|q: int|
                0 <= q < e ==> scalars[q] == (stated->Ok_0)->Scalars_0[q],
        decreases count - e,
    {
        let c = cur[e / 8];
        let position: usize = FOLD_SIZE_RATIO * (c as usize) + e % 8;
        assert(position == revealed_position(cur@, e as int));
        if first {
            let index = rbo_index_to_original(size, position);
            match get_single_domain_value(MODULUS, size, index) {
                Ok(point) => {
                    points.push(point);
                },
                Err(err) => {
                    return Err(err);
                },
            }
        } else {
            let index = rbo_index_to_original(2 * size, 2 * position);
            match get_single_domain_value(MODULUS, 2 * size, index) {
                Ok(point) => {
                    scalars.push(point.x);
                },
                Err(err) => {
                    return Err(err);
                },
            }
        }
        e = e + 1;
    }
    if first {
        let d = Domain::Points(points);
        proof {
            if count == 0 {
                assert(points@ =~= Seq::<CirclePoint>::empty());
            } else {
                assert(points@ =~= (stated->Ok_0)->Points_0);
            }
        }
        Ok(d)
    } else {
        let d = Domain::Scalars(scalars);
        proof {
            if count == 0 {
                assert(scalars@ =~= Seq::<u32>::empty());
            } else {
                assert(scalars@ =~= (stated->Ok_0)->Scalars_0);
            }
        }
        Ok(d)
    }
}

/// The values of the leaves `leaves`, one leaf after the other.
fn flatten(leaves: &Vec<Vec<u32>>) -> (r: Vec<u32>)
    requires
        leaves.len() <= NUM_CHALLENGES,
        forall|j: int| 0 <= j < leaves.len() ==> (#[trigger] leaves[j]).len() == FOLD_SIZE_RATIO,
    ensures
        r@ == flat(groups(leaves@)),
{
    let count: usize = FOLD_SIZE_RATIO * leaves.len();
    let mut out: Vec<u32> = Vec::new();
    let mut e: usize = 0;
    while e < count
        invariant
            e <= count,
            count == FOLD_SIZE_RATIO * leaves.len(),
            forall|j: int|
                0 <= j < leaves.len() ==> (#[trigger] leaves[j]).len() == FOLD_SIZE_RATIO,
            out.len() == e,
            forall|q: int| 0 <= q < e ==> out[q] == leaves[q / 8][q % 8],
        decreases count - e,
    {
        out.push(leaves[e / 8][e % 8]);
        e = e + 1;
    }
    assert(out@ =~= flat(groups(leaves@)));
    out
}

/// Whether the folds of the revealed leaves of round `i` give what they
/// have to.
fn values_match_in(proof: &Proof, i: usize, cur: &Vec<u32>, folded: &Vec<u32>) -> (r: bool)
    requires
        well_formed(proof@),
        i < proof.roots.len(),
        cur.len() == NUM_CHALLENGES,
        folded.len() == NUM_CHALLENGES,
    ensures
        r == values_match(proof@, i as int, cur@, folded@),
{
    let ghost p = proof@;
    let rounds = proof.roots.len();
    let mut j: usize = 0;
    while j < NUM_CHALLENGES
        invariant
            j <= NUM_CHALLENGES,
            p == proof@,
            well_formed(p),
            i < proof.roots.len(),
            rounds == proof.roots.len(),
            cur.len() == NUM_CHALLENGES,
            folded.len() == NUM_CHALLENGES,
            forall|k: int|
                0 <= k < j ==> #[trigger] expected_value(p, i as int, cur@, k) == Some(folded[k]),
        decreases NUM_CHALLENGES - j,
    {
        let c = cur[j];
        let expected: Option<u32> = if i + 1 < rounds {
            assert(p.leaf_values[i + 1].len() == NUM_CHALLENGES);
            assert(p.leaf_values[i + 1][j as int].len() == FOLD_SIZE_RATIO);
            assert(p.leaf_values[i + 1] == groups(proof.leaf_values[i + 1]@));
            assert(p.leaf_values[i + 1][j as int] == proof.leaf_values[i + 1][j as int]@);
            Some(proof.leaf_values[i + 1][j][(c % 8) as usize])
        } else if (c as u64) < proof.final_values.len() as u64 {
            Some(proof.final_values[c as usize])
        } else {
            None
        };
        assert(expected == expected_value(p, i as int, cur@, j as int));
        match expected {
            Some(v) => {
                if v != folded[j] {
                    return false;
                }
            },
            None => {
                return false;
            },
        }
        j = j + 1;
    }
    true
}

/// Whether the branch of each revealed leaf of round `i` leads to the
/// round's root.
fn branches_verify_in(proof: &Proof, i: usize, cur: &Vec<u32>) -> (r: bool)
    requires
        well_formed(proof@),
        i < proof.roots.len(),
        cur.len() == NUM_CHALLENGES,
    ensures
        r == branches_verify(proof@, i as int, cur@),
{
    let ghost p = proof@;
    let mut j: usize = 0;
    while j < NUM_CHALLENGES
        invariant
            j <= NUM_CHALLENGES,
            p == proof@,
            well_formed(p),
            i < proof.roots.len(),
            cur.len() == NUM_CHALLENGES,
            forall|k: int|
                0 <= k < j ==> branch_verifies(
                    p.roots[i as int],
                    cur[k] as nat,
                    values_bytes(#[trigger] p.leaf_values[i as int][k]),
                    p.branches[i as int][k],
                ),
        decreases NUM_CHALLENGES - j,
    {
        assert(p.leaf_values[i as int].len() == NUM_CHALLENGES);
        assert(p.branches[i as int].len() == NUM_CHALLENGES);
        assert(p.leaf_values[i as int] == groups(proof.leaf_values[i as int]@));
        assert(p.branches[i as int] == branch_rows(proof.branches[i as int]@));
        assert(p.leaf_values[i as int][j as int] == proof.leaf_values[i as int][j as int]@);
        assert(p.branches[i as int][j as int] == rows(proof.branches[i as int][j as int]@));
        assert(p.roots[i as int] == proof.roots[i as int]@);
        let leaf = values_to_bytes(&proof.leaf_values[i][j]);
        if !verify_branch(&proof.roots[i], cur[j] as usize, &leaf, &proof.branches[i][j]) {
            return false;
        }
        j = j + 1;
    }
    true
}

/// Whether `p` and `q` hold the same points.
fn points_equal(p: &Vec<CirclePoint>, q: &Vec<CirclePoint>) -> (r: bool)
    ensures
        r == (p@ == q@),
{
    if p.len() != q.len() {
        return false;
    }
    let mut i: usize = 0;
    while i < p.len()
        invariant
            i <= p.len(),
            p.len() == q.len(),
            forall|k: int| 0 <= k < i ==> p[k] == q[k],
        decreases p.len() - i,
    {
        if p[i].x != q[i].x || p[i].y != q[i].y {
            return false;
        }
        i = i + 1;
    }
    assert(p@ =~= q@);
    true
}

/// Whether `p` and `q` hold the same values.
fn values_equal(p: &Vec<u32>, q: &Vec<u32>) -> (r: bool)
    ensures
        r == (p@ == q@),
{
    if p.len() != q.len() {
        return false;
    }
    let mut i: usize = 0;
    while i < p.len()
        invariant
            i <= p.len(),
            p.len() == q.len(),
            forall|k: int| 0 <= k < i ==> p[k] == q[k],
        decreases p.len() - i,
    {
        if p[i] != q[i] {
            return false;
        }
        i = i + 1;
    }
    assert(p@ =~= q@);
    true
}

/// Whether `a` and `b` hold the same entries.
pub fn domains_equal(a: &Domain, b: &Domain) -> (r: bool)
    ensures
        r == (a@ == b@),
{
    match (a, b) {
        (Domain::Points(p), Domain::Points(q)) => points_equal(p, q),
        (Domain::Scalars(p), Domain::Scalars(q)) => values_equal(p, q),
        _ => false,
    }
}

/// The domain that `rounds` rounds leave for `len` final values.
fn final_domain_for(rounds: usize, len: usize) -> (r: Result<Domain, StarkError>)
    requires
        len <= 0x4000_0000,
    ensures
        match (r, expected_final_domain(rounds as nat, len as nat)) {
            (Ok(d), Ok(stated)) => d@ == stated,
            (Err(e), Err(f)) => e == f,
            _ => false,
        },
{
    if rounds == 0 {
        match get_initial_domain_of_size(MODULUS, len) {
            Ok(points) => Ok(reorder_domain(&Domain::Points(points))),
            Err(e) => Err(e),
        }
    } else {
        match get_initial_domain_of_size(MODULUS, 2 * len) {
            Ok(points) => {
                let halved = halve_domain(&Domain::Points(points), false);
                Ok(reorder_domain(&halved))
            },
            Err(e) => Err(e),
        }
    }
}

/// Whether `proof` shows that the values it commits to are those of a
/// function of low degree.
///
/// The verifier derives the coefficient of each round and the positions of
/// the queries as the prover did, from what the proof holds. For each
/// round it folds the revealed leaves on the domain of their positions and
/// checks that the folds are the values at the queried positions of the
/// next round (after the last round: the final values there), and that the
/// branch of each revealed leaf leads to the round's root. At the end it
/// checks that the proof names the domain that the rounds leave, and that
/// the final values are those of a function of low degree on it.
///
/// `Ok(false)` where a check fails. `MalformedProof` for a proof that has
/// not the shape of one; the error of a check that cannot be made: no
/// domain of the size the proof speaks of, or a division by zero.
#[verifier::rlimit(40)]
pub fn verify_low_degree(proof: &Proof) -> (r: Result<bool, StarkError>)
    ensures
        r == verify_result(proof@),
{
    let n = match checked_size(proof) {
        Some(n) => n,
        None => {
            return Err(StarkError::MalformedProof);
        },
    };
    let ghost p = proof@;
    let rounds = proof.roots.len();
    let seed = concat_bytes(
        &concat_bytes(&proof.extra_entropy, &join_bytes(&proof.roots)),
        &values_to_bytes(&proof.final_values),
    );
    let positions = get_challenges(&seed, (n / FOLD_SIZE_RATIO) as u32, NUM_CHALLENGES);
    assert(positions@ == query_positions(p.extra_entropy, p.roots, p.final_values, n as nat));
    let mut cur = copy_values(&positions);
    let mut size: usize = n;
    let mut seen: Vec<Vec<u8>> = Vec::new();
    assert(rows(seen@) =~= p.roots.take(0));
    let mut i: usize = 0;
    while i < rounds
        invariant
            i <= rounds,
            rounds == proof.roots.len(),
            p == proof@,
            well_formed(p),
            size <= 0x4000_0000,
            cur.len() == NUM_CHALLENGES,
            forall|j: int| 0 <= j < cur.len() ==> cur[j] < 0x800_0000,
            rows(seen@) == p.roots.take(i as int),
            rounds_check(p, i as int, size as nat, cur@) == rounds_check(
                p,
                0,
                claimed_size(p),
                query_positions(p.extra_entropy, p.roots, p.final_values, claimed_size(p)),
            ),
        decreases rounds - i,
    {
        let ghost before = rows(seen@);
        seen.push(copy_bytes(&proof.roots[i]));
        assert(rows(seen@) =~= before.push(proof.roots[i as int]@));
        assert(before.push(proof.roots[i as int]@) =~= p.roots.take(i + 1)) by {
            assert(p.roots[i as int] == proof.roots[i as int]@);
        }
        let fold_factor_value = fold_factor_of(&seen);
        let domain = match round_domain_of(i == 0, size, &cur) {
            Ok(d) => d,
            Err(e) => {
                return Err(e);
            },
        };
        assert(p.leaf_values[i as int] == groups(proof.leaf_values[i as int]@));
        assert(p.leaf_values[i as int].len() == NUM_CHALLENGES);
        assert forall|j: int| 0 <= j < proof.leaf_values[i as int].len() implies (
        #[trigger] proof.leaf_values[i as int][j]).len() == FOLD_SIZE_RATIO by {
            assert(p.leaf_values[i as int][j] == proof.leaf_values[i as int][j]@);
        }
        let flattened_values = flatten(&proof.leaf_values[i]);
        let folded_values = match fold(&flattened_values, fold_factor_value, &domain) {
            Ok(pair) => pair.0,
            Err(e) => {
                return Err(e);
            },
        };
        if !values_match_in(proof, i, &cur, &folded_values) {
            return Ok(false);
        }
        if !branches_verify_in(proof, i, &cur) {
            return Ok(false);
        }
        cur = shrink_positions(&cur);
        size = size / FOLD_SIZE_RATIO;
        i = i + 1;
    }
    proof {
        lemma_size_grows(proof.final_values.len() as nat, 0, rounds as nat);
    }
    let expected = match final_domain_for(rounds, proof.final_values.len()) {
        Ok(d) => d,
        Err(e) => {
            return Err(e);
        },
    };
    if !domains_equal(&expected, &proof.final_domain) {
        return Ok(false);
    }
    is_rbo_low_degree(&proof.final_values, &expected)
}

/// What `extend_trace` returns: the values on the domain of twice as many
/// points of the function whose coefficients are those of `trace` on the
/// domain of as many points as `trace` has values, followed by as many
/// zeros.
pub open spec fn extend_result(field: u32, trace: Seq<u32>) -> Result<Seq<int>, StarkError> {
    match initial_domain(field, trace.len()) {
        Err(e) => Err(e),
        Ok(small) => match transform_result(
            ints(trace),
            small.len(),
            DomainView::Points(small).twiddles(),
            DomainView::Points(small).halved(),
        ) {
            Err(e) => Err(e),
            Ok(c) => match initial_domain(field, 2 * trace.len()) {
                Err(e) => Err(e),
                Ok(big) => inverse_transform_result(
                    c + Seq::new(trace.len(), |i: int| 0int),
                    big.len(),
                    DomainView::Points(big).twiddles(),
                    DomainView::Points(big).halved(),
                ),
            },
        },
    }
}

/// The values of the function given by `trace` on the domain of twice as
/// many points: the coefficients of `trace` are taken on the domain of as
/// many points as it has values, and the function with these coefficients,
/// and zero for the others, is evaluated on the larger domain.
///
/// `InvalidLength` unless the number of values is a power of two for
/// which the group has both domains.
pub fn extend_trace(field: u32, trace: &Vec<u32>) -> (r: Result<Vec<u32>, StarkError>)
    ensures
        match (r, extend_result(field, trace@)) {
            (Ok(v), Ok(stated)) => ints(v@) == stated,
            (Err(e), Err(f)) => e == f,
            _ => false,
        },
{
    let n = trace.len();
    let small_domain = match get_initial_domain_of_size(field, n) {
        Ok(points) => Domain::Points(points),
        Err(e) => {
            return Err(e);
        },
    };
    let mut coeffs = match fft_on(trace, &small_domain) {
        Ok(c) => c,
        Err(e) => {
            return Err(e);
        },
    };
    if n > usize::MAX / 2 {
        return Err(StarkError::InvalidLength);
    }
    let big_domain = match get_initial_domain_of_size(field, 2 * n) {
        Ok(points) => Domain::Points(points),
        Err(e) => {
            return Err(e);
        },
    };
    let ghost c = ints(coeffs@);
    assert(ints(coeffs@) =~= c + Seq::new(0, |k: int| 0int));
    let mut i: usize = 0;
    while i < n
        invariant
            i <= n,
            coeffs.len() == n + i,
            c.len() == n,
            ints(coeffs@) == c + Seq::new(i as nat, |k: int| 0int),
        decreases n - i,
    {
        let ghost before = ints(coeffs@);
        coeffs.push(0);
        i = i + 1;
        assert(ints(coeffs@) =~= before.push(0int));
        assert(before.push(0int) =~= c + Seq::new(i as nat, |k: int| 0int));
    }
    inv_fft_on(&coeffs, &big_domain)
}

/// The four bytes of a value stand for the value.
pub proof fn lemma_value_bytes_round_trip(v: u32)
    ensures
        value_bytes(v).len() == 4,
        value_at(value_bytes(v), 0) == v,
{
}

/// The bytes of values are four for each value, and hold the values.
pub proof fn lemma_unchunked_values_bytes(s: Seq<u32>)
    ensures
        values_bytes(s).len() == 4 * s.len(),
        unchunked(values_bytes(s)) == s,
    decreases s.len(),
{
    if s.len() > 0 {
        let front = s.drop_last();
        lemma_unchunked_values_bytes(front);
        lemma_value_bytes_round_trip(s.last());
        let b = values_bytes(s);
        assert(b == values_bytes(front) + value_bytes(s.last()));
        assert forall|i: int| 0 <= i < s.len() implies value_at(b, 4 * i) as u32 == s[i] by {
            if i < s.len() - 1 {
                assert(unchunked(values_bytes(front))[i] == front[i]);
                assert(value_at(b, 4 * i) == value_at(values_bytes(front), 4 * i));
            } else {
                let tail = value_bytes(s.last());
                assert(b[4 * i] == tail[0] && b[4 * i + 1] == tail[1] && b[4 * i + 2] == tail[2]
                    && b[4 * i + 3] == tail[3]);
            }
        }
        assert(unchunked(b) =~= s);
    } else {
        assert(unchunked(values_bytes(s)) =~= s);
    }
}

/// What the prover reveals for a query verifies: the branch of leaf `c` of
/// the commitment to `values` leads from the bytes of the leaf's values to
/// the root of the commitment.
pub proof fn lemma_revealed_leaf_verifies(values: Seq<u32>, c: u32)
    requires
        is_pow2(chunks(values).len()),
        FOLD_SIZE_RATIO * c + FOLD_SIZE_RATIO <= values.len(),
    ensures
        c < chunks(values).len(),
        branch_verifies(
            committed_root(values),
            c as nat,
            values_bytes(leaf_group(values, c)),
            leaf_branch(values, c),
        ),
{
    lemma_branch_of_tree_verifies(chunks(values), c as nat);
}

/// The domain of values at the positions `positions` among `size` values
/// in folded reverse bit order, read from the table of domains `table`: in
/// the first round the points of the domain of `size` points at these
/// positions, and later the first coordinates of the points of the domain
/// of twice the size at twice the positions.
pub open spec fn positions_domain(
    table: Seq<CirclePoint>,
    size: nat,
    positions: Seq<u32>,
    first_round: bool,
) -> DomainView {
    if first_round {
        DomainView::Points(
            Seq::new(
                positions.len(),
                |e: int| table[(size + original_index(size, positions[e] as nat)) as int],
            ),
        )
    } else {
        DomainView::Scalars(
            Seq::new(
                positions.len(),
                |e: int|
                    table[(2 * size + original_index(
                        2 * size,
                        (2 * positions[e]) as nat,
                    )) as int].x,
            ),
        )
    }
}

/// What `fold_with_positions` returns: the fold of the values on the
/// domain of their positions, unless the table does not hold the domain
/// that the positions are taken in.
pub open spec fn fold_with_positions_result(
    values: Seq<u32>,
    size: nat,
    positions: Seq<u32>,
    coeff: u32,
    first_round: bool,
    table: Seq<CirclePoint>,
) -> Result<Seq<u32>, StarkError> {
    if size == 0 || size > 0x4000_0000 || (first_round && table.len() < 2 * size) || (!first_round
        && table.len() < 4 * size) {
        Err(StarkError::InvalidLength)
    } else {
        match fold_result(values, coeff, positions_domain(table, size, positions, first_round)) {
            Ok(f) => Ok(f.0),
            Err(e) => Err(e),
        }
    }
}

/// `FOLDS_PER_ROUND` folds of the values `values`, which stand at the
/// positions `positions` among `domain_size` values in folded reverse bit
/// order, on the domain that the table of domains `sub_domains` holds for
/// these positions.
///
/// `InvalidLength` where the table does not hold the domain, or there are
/// not as many positions as values; `DivisionByZero` where a coordinate to
/// divide by is zero.
pub fn fold_with_positions(
    values: &Vec<u32>,
    domain_size: usize,
    positions: &Vec<u32>,
    coeff: u32,
    first_round: bool,
    sub_domains: &Vec<CirclePoint>,
) -> (r: Result<Vec<u32>, StarkError>)
    ensures
        match (
            r,
            fold_with_positions_result(
                values@,
                domain_size as nat,
                positions@,
                coeff,
                first_round,
                sub_domains@,
            ),
        ) {
            (Ok(v), Ok(stated)) => v@ == stated,
            (Err(e), Err(f)) => e == f,
            _ => false,
        },
{
    if domain_size == 0 || domain_size > 0x4000_0000 {
        return Err(StarkError::InvalidLength);
    }
    let count = positions.len();
    if first_round {
        if sub_domains.len() / 2 < domain_size {
            return Err(StarkError::InvalidLength);
        }
        let mut points: Vec<CirclePoint> = Vec::new();
        let mut e: usize = 0;
        while e < count
            invariant
                e <= count,
                count == positions.len(),
                1 <= domain_size <= 0x4000_0000,
                2 * domain_size <= sub_domains.len(),
                points.len() == e,
                forall|k: int|
                    0 <= k < e ==> points[k] == sub_domains[domain_size + original_index(
                        domain_size as nat,
                        positions[k] as nat,
                    )],
            decreases count - e,
        {
            let index = rbo_index_to_original(domain_size, positions[e] as usize);
            points.push(sub_domains[domain_size + index]);
            e = e + 1;
        }
        let domain = Domain::Points(points);
        assert(domain@ =~= positions_domain(
            sub_domains@,
            domain_size as nat,
            positions@,
            first_round,
        )) by {
            assert(points@ =~= positions_domain(
                sub_domains@,
                domain_size as nat,
                positions@,
                first_round,
            )->Points_0);
        }
        match fold(values, coeff, &domain) {
            Ok(pair) => Ok(pair.0),
            Err(err) => Err(err),
        }
    } else {
        if sub_domains.len() / 4 < domain_size {
            return Err(StarkError::InvalidLength);
        }
        let mut scalars: Vec<u32> = Vec::new();
        let mut e: usize = 0;
        while e < count
            invariant
                e <= count,
                count == positions.len(),
                1 <= domain_size <= 0x4000_0000,
                4 * domain_size <= sub_domains.len(),
                scalars.len() == e,
                forall|k: int|
                    0 <= k < e ==> scalars[k] == sub_domains[2 * domain_size + original_index(
                        2 * domain_size as nat,
                        (2 * positions[k]) as nat,
                    )].x,
            decreases count - e,
        {
            // twice the position is even, so it comes from twice the reversed bits
            let index = 2 * reverse_bits(domain_size, positions[e] as usize);
            scalars.push(sub_domains[2 * domain_size + index].x);
            e = e + 1;
        }
        let domain = Domain::Scalars(scalars);
        assert(domain@ =~= positions_domain(
            sub_domains@,
            domain_size as nat,
            positions@,
            first_round,
        )) by {
            assert(scalars@ =~= positions_domain(
                sub_domains@,
                domain_size as nat,
                positions@,
                first_round,
            )->Scalars_0);
        }
        match fold(values, coeff, &domain) {
            Ok(pair) => Ok(pair.0),
            Err(err) => Err(err),
        }
    }
}

} // verus!
