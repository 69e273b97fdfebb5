use vstd::prelude::*;

verus! {

/// `n` is a power of two: 1, 2, 4, ...
pub open spec fn is_pow2(n: nat) -> bool
    decreases n,
{
    n == 1 || (n >= 2 && n % 2 == 0 && is_pow2(n / 2))
}

/// The position of the highest set bit of `n`, and 0 for `n = 0`.
pub open spec fn floor_log2(n: nat) -> nat
    decreases n,
{
    if n <= 1 {
        0
    } else {
        1 + floor_log2(n / 2)
    }
}

/// 2 to the power `e`.
pub open spec fn pow2(e: nat) -> nat
    decreases e,
{
    if e == 0 {
        1
    } else {
        2 * pow2((e - 1) as nat)
    }
}

/// A power of two is 2 to the power of its logarithm.
pub proof fn lemma_pow2_log2(n: nat)
    requires
        is_pow2(n),
    ensures
        pow2(floor_log2(n)) == n,
    decreases n,
{
    if n >= 2 {
        lemma_pow2_log2(n / 2);
    }
}

/// The integer logarithm brackets its argument.
pub proof fn lemma_log2_bounds(n: nat)
    requires
        n >= 1,
    ensures
        pow2(floor_log2(n)) <= n < 2 * pow2(floor_log2(n)),
    decreases n,
{
    if n >= 2 {
        lemma_log2_bounds(n / 2);
    }
}

/// 2 to the power `e` is a power of two, with the logarithm `e`.
pub proof fn lemma_pow2_is_pow2(e: nat)
    ensures
        is_pow2(pow2(e)),
        floor_log2(pow2(e)) == e,
        pow2(e) >= 1,
    decreases e,
{
    if e > 0 {
        lemma_pow2_is_pow2((e - 1) as nat);
    }
}

/// Below 2 to the power `k`, the logarithm is below `k`.
pub proof fn lemma_log2_below(n: nat, k: nat)
    requires
        n < pow2(k),
        k >= 1,
    ensures
        floor_log2(n) < k,
    decreases n,
{
    if n >= 2 {
        if k == 1 {
            assert(pow2(1) == 2) by {
                reveal_with_fuel(pow2, 2);
            }
        } else {
            lemma_log2_below(n / 2, (k - 1) as nat);
        }
    }
}

/// The value of 2 to the power 32.
pub proof fn lemma_pow2_32()
    ensures
        pow2(32) == 0x1_0000_0000,
{
    reveal_with_fuel(pow2, 33);
}

/// The entries of `s` at even positions.
pub open spec fn evens<T>(s: Seq<T>) -> Seq<T> {
    Seq::new(((s.len() + 1) / 2) as nat, |i: int| s[2 * i])
}

/// The entries of `s` at odd positions.
pub open spec fn odds<T>(s: Seq<T>) -> Seq<T> {
    Seq::new((s.len() / 2) as nat, |i: int| s[2 * i + 1])
}

/// The entries of `a` at the even positions and those of `b` at the odd
/// ones.
pub open spec fn interleave<T>(a: Seq<T>, b: Seq<T>) -> Seq<T> {
    Seq::new(
        a.len() + b.len(),
        |i: int|
            if i % 2 == 0 {
                a[i / 2]
            } else {
                b[i / 2]
            },
    )
}

/// `s` in reverse bit order: the entries at even positions, reordered in the
/// same way, followed by those at odd positions, reordered in the same way.
pub open spec fn bit_reversed<T>(s: Seq<T>) -> Seq<T>
    decreases s.len(),
{
    if s.len() <= 1 {
        s
    } else {
        bit_reversed(evens(s)) + bit_reversed(odds(s))
    }
}

/// `s` in folded reverse bit order: the even positions hold the entries at
/// even positions in reverse bit order, the odd positions hold the entries
/// at odd positions, taken from the last to the first, in reverse bit order.
pub open spec fn folded_bit_reversed<T>(s: Seq<T>) -> Seq<T> {
    interleave(bit_reversed(evens(s)), bit_reversed(odds(s).reverse()))
}

/// The numbers `0, 1, ..., n - 1`.
pub open spec fn iota(n: nat) -> Seq<u32> {
    Seq::new(n, |i: int| i as u32)
}

/// `index` with its bits reversed, as a number below `length`.
pub open spec fn reversed_bits(length: nat, index: nat) -> nat
    decreases length,
{
    if length <= 1 {
        0
    } else {
        reversed_bits(length / 2, index / 2) + (index % 2) * (length / 2)
    }
}

/// The position in the natural order of what the folded reverse bit order
/// of a sequence of `length` entries has at position `index`.
pub open spec fn original_index(length: nat, index: nat) -> nat {
    if length <= 1 {
        0
    } else if index % 2 == 0 {
        2 * reversed_bits(length / 2, index / 2)
    } else {
        (length - 1 - 2 * reversed_bits(length / 2, index / 2)) as nat
    }
}

/// The reverse bit order keeps the length.
pub proof fn lemma_bit_reversed_len<T>(s: Seq<T>)
    ensures
        bit_reversed(s).len() == s.len(),
    decreases s.len(),
{
    if s.len() > 1 {
        lemma_bit_reversed_len(evens(s));
        lemma_bit_reversed_len(odds(s));
    }
}

proof fn lemma_interleave_concat<T>(x1: Seq<T>, x2: Seq<T>, y1: Seq<T>, y2: Seq<T>)
    requires
        x1.len() == y1.len(),
        x2.len() == y2.len(),
    ensures
        interleave(x1 + x2, y1 + y2) == interleave(x1, y1) + interleave(x2, y2),
{
    assert(interleave(x1 + x2, y1 + y2) =~= interleave(x1, y1) + interleave(x2, y2));
}

/// The reverse bit order of two halves, one after the other, interleaves
/// the reverse bit orders of the halves.
proof fn lemma_bit_reversed_concat<T>(a: Seq<T>, b: Seq<T>)
    requires
        a.len() == b.len(),
        is_pow2(a.len()),
    ensures
        bit_reversed(a + b) == interleave(bit_reversed(a), bit_reversed(b)),
    decreases a.len(),
{
    let m = a.len();
    let s = a + b;
    if m == 1 {
        assert(evens(s) =~= a);
        assert(odds(s) =~= b);
        assert(bit_reversed(evens(s)) == a);
        assert(bit_reversed(odds(s)) == b);
        assert(a + b =~= interleave(a, b));
    } else {
        assert(evens(s) =~= evens(a) + evens(b));
        assert(odds(s) =~= odds(a) + odds(b));
        lemma_bit_reversed_concat(evens(a), evens(b));
        lemma_bit_reversed_concat(odds(a), odds(b));
        lemma_bit_reversed_len(evens(a));
        lemma_bit_reversed_len(evens(b));
        lemma_bit_reversed_len(odds(a));
        lemma_bit_reversed_len(odds(b));
        lemma_interleave_concat(
            bit_reversed(evens(a)),
            bit_reversed(odds(a)),
            bit_reversed(evens(b)),
            bit_reversed(odds(b)),
        );
    }
}

/// On a sequence whose length is a power of two, the reverse bit order
/// applied twice gives the sequence back.
pub proof fn lemma_bit_reversed_twice<T>(s: Seq<T>)
    requires
        is_pow2(s.len()),
    ensures
        bit_reversed(bit_reversed(s)) == s,
    decreases s.len(),
{
    if s.len() > 1 {
        let e = evens(s);
        let o = odds(s);
        lemma_bit_reversed_len(e);
        lemma_bit_reversed_len(o);
        lemma_bit_reversed_concat(bit_reversed(e), bit_reversed(o));
        lemma_bit_reversed_twice(e);
        lemma_bit_reversed_twice(o);
        assert(interleave(e, o) =~= s);
    }
}

/// Reordering a sequence and mapping its entries can be done in either
/// order.
pub proof fn lemma_bit_reversed_map<T, U>(s: Seq<T>, f: spec_fn(T) -> U)
    ensures
        bit_reversed(s.map_values(f)) == bit_reversed(s).map_values(f),
    decreases s.len(),
{
    let m = s.map_values(f);
    if s.len() > 1 {
        assert(evens(m) =~= evens(s).map_values(f));
        assert(odds(m) =~= odds(s).map_values(f));
        lemma_bit_reversed_map(evens(s), f);
        lemma_bit_reversed_map(odds(s), f);
        lemma_bit_reversed_len(evens(s));
        lemma_bit_reversed_len(odds(s));
        assert(bit_reversed(evens(s)).map_values(f) + bit_reversed(odds(s)).map_values(f)
            =~= (bit_reversed(evens(s)) + bit_reversed(odds(s))).map_values(f));
    } else {
        assert(bit_reversed(m) =~= bit_reversed(s).map_values(f));
    }
}

/// What holds of every entry of a sequence holds of every entry of its
/// reverse bit order.
pub proof fn lemma_bit_reversed_all<T>(s: Seq<T>, p: spec_fn(T) -> bool)
    requires
        forall|i: int| 0 <= i < s.len() ==> p(#[trigger] s[i]),
    ensures
        forall|i: int| 0 <= i < s.len() ==> p(#[trigger] bit_reversed(s)[i]),
    decreases s.len(),
{
    if s.len() > 1 {
        let e = evens(s);
        let o = odds(s);
        assert forall|i: int| 0 <= i < e.len() implies p(#[trigger] e[i]) by {
            assert(e[i] == s[2 * i]);
        }
        assert forall|i: int| 0 <= i < o.len() implies p(#[trigger] o[i]) by {
            assert(o[i] == s[2 * i + 1]);
        }
        lemma_bit_reversed_all(e, p);
        lemma_bit_reversed_all(o, p);
        lemma_bit_reversed_len(e);
        lemma_bit_reversed_len(o);
    }
}

/// The reverse bit order of a sequence takes its entry `i` from the
/// position that the table for the sequence's length has at `i`.
pub proof fn lemma_bit_reversed_by_table<T>(s: Seq<T>, i: int)
    requires
        0 <= i < s.len(),
        s.len() <= 0x1_0000_0000,
    ensures
        bit_reversed(iota(s.len()))[i] < s.len(),
        bit_reversed(s)[i] == s[bit_reversed(iota(s.len()))[i] as int],
{
    let n = s.len();
    let f = |k: u32| s[k as int];
    let below = |k: u32| k < n;
    assert(iota(n).map_values(f) =~= s);
    lemma_bit_reversed_map(iota(n), f);
    lemma_bit_reversed_all(iota(n), below);
    lemma_bit_reversed_len(iota(n));
    assert(below(bit_reversed(iota(n))[i]));
}

/// The table of the reverse bit order for a power of two is a permutation
/// of the numbers below it that undoes itself: applied twice, the reverse
/// bit order is the identity.
pub proof fn lemma_reverse_bit_order_twice(n: nat)
    requires
        is_pow2(n),
        n <= 0x1_0000_0000,
    ensures
        bit_reversed(bit_reversed(iota(n))) == iota(n),
        forall|i: int|
            0 <= i < n ==> (#[trigger] bit_reversed(iota(n))[i]) < n && bit_reversed(
                iota(n),
            )[bit_reversed(iota(n))[i] as int] == i,
{
    let t = bit_reversed(iota(n));
    lemma_bit_reversed_twice(iota(n));
    lemma_bit_reversed_len(iota(n));
    assert forall|i: int| 0 <= i < n implies (#[trigger] t[i]) < n && t[t[i] as int] == i by {
        lemma_bit_reversed_by_table(iota(n), i);
        lemma_bit_reversed_by_table(t, i);
    }
}

/// The value of 2 to the power 31.
pub proof fn lemma_pow2_31()
    ensures
        pow2(31) == 0x8000_0000,
{
    reveal_with_fuel(pow2, 32);
}

/// Of two powers of two, the smaller one is at most half the larger one.
pub proof fn lemma_pow2_order(a: nat, b: nat)
    requires
        is_pow2(a),
        is_pow2(b),
        a < b,
    ensures
        2 * a <= b,
    decreases a,
{
    if a >= 2 {
        lemma_pow2_order(a / 2, b / 2);
    }
}

/// The folded reverse bit order keeps the length.
pub proof fn lemma_folded_bit_reversed_len<T>(s: Seq<T>)
    ensures
        folded_bit_reversed(s).len() == s.len(),
{
    lemma_bit_reversed_len(evens(s));
    lemma_bit_reversed_len(odds(s).reverse());
}

/// The table of the reverse bit order holds the positions with their bits
/// reversed.
pub proof fn lemma_table_is_reversed_bits(m: nat, j: nat)
    requires
        is_pow2(m),
        m <= 0x1_0000_0000,
        j < m,
    ensures
        bit_reversed(iota(m))[j as int] == reversed_bits(m, j),
        reversed_bits(m, j) < m,
    decreases m,
{
    if m >= 2 {
        let h = (m / 2) as nat;
        let low = iota(h);
        let shift = |k: u32| (k + h) as u32;
        let high = low.map_values(shift);
        assert(iota(m) =~= low + high);
        lemma_bit_reversed_concat(low, high);
        lemma_bit_reversed_map(low, shift);
        lemma_bit_reversed_len(low);
        lemma_table_is_reversed_bits(h, j / 2);
        let t = bit_reversed(low);
        if j % 2 == 0 {
            assert((j % 2) * h == 0) by (nonlinear_arith)
                requires
                    j % 2 == 0,
            ;
        } else {
            assert((j % 2) * h == h) by (nonlinear_arith)
                requires
                    j % 2 == 1,
            ;
            assert(bit_reversed(high)[(j / 2) as int] == shift(t[(j / 2) as int]));
        }
    }
}

/// Reversing the bits twice gives the position back.
pub proof fn lemma_reversed_bits_twice(m: nat, j: nat)
    requires
        is_pow2(m),
        m <= 0x1_0000_0000,
        j < m,
    ensures
        reversed_bits(m, j) < m,
        reversed_bits(m, reversed_bits(m, j)) == j,
{
    lemma_reverse_bit_order_twice(m);
    lemma_table_is_reversed_bits(m, j);
    lemma_table_is_reversed_bits(m, reversed_bits(m, j));
}

/// Reversing the bits of the complement of a position gives the
/// complement of its reversed bits.
pub proof fn lemma_reversed_bits_complement(m: nat, b: nat)
    requires
        is_pow2(m),
        b < m,
    ensures
        reversed_bits(m, b) < m,
        reversed_bits(m, (m - 1 - b) as nat) == m - 1 - reversed_bits(m, b),
    decreases m,
{
    if m >= 2 {
        let h = (m / 2) as nat;
        lemma_reversed_bits_complement(h, b / 2);
        let c = (m - 1 - b) as nat;
        assert(c / 2 == h - 1 - b / 2);
        if b % 2 == 0 {
            assert((b % 2) * h == 0) by (nonlinear_arith)
                requires
                    b % 2 == 0,
            ;
            assert((c % 2) * h == h) by (nonlinear_arith)
                requires
                    c % 2 == 1,
            ;
        } else {
            assert((b % 2) * h == h) by (nonlinear_arith)
                requires
                    b % 2 == 1,
            ;
            assert((c % 2) * h == 0) by (nonlinear_arith)
                requires
                    c % 2 == 0,
            ;
        }
    }
}

/// The folded reverse bit order of a sequence whose length is a power of
/// two takes its entry `i` from the position `original_index` names.
pub proof fn lemma_folded_bit_reversed_index<T>(s: Seq<T>, i: int)
    requires
        is_pow2(s.len()),
        s.len() <= 0x1_0000_0000,
        0 <= i < s.len(),
    ensures
        original_index(s.len(), i as nat) < s.len(),
        folded_bit_reversed(s)[i] == s[original_index(s.len(), i as nat) as int],
{
    let n = s.len();
    if n >= 2 {
        let h = (n / 2) as nat;
        let e = evens(s);
        let o = odds(s).reverse();
        lemma_bit_reversed_len(e);
        lemma_bit_reversed_len(o);
        lemma_table_is_reversed_bits(h, (i / 2) as nat);
        let t = reversed_bits(h, (i / 2) as nat);
        if i % 2 == 0 {
            lemma_bit_reversed_by_table(e, i / 2);
            assert(e[t as int] == s[2 * (t as int)]);
        } else {
            lemma_bit_reversed_by_table(o, i / 2);
            assert(o[t as int] == odds(s)[h - 1 - t]);
            assert(odds(s)[h - 1 - t] == s[2 * (h - 1 - t) + 1]);
        }
    } else {
        assert(folded_bit_reversed(s)[i] == bit_reversed(evens(s))[0]);
        assert(evens(s) =~= s);
    }
}

/// The positions that the folded reverse bit order takes its entries from
/// undo themselves.
pub proof fn lemma_original_index_twice(n: nat, i: nat)
    requires
        is_pow2(n),
        n <= 0x1_0000_0000,
        i < n,
    ensures
        original_index(n, i) < n,
        original_index(n, original_index(n, i)) == i,
{
    if n >= 2 {
        let h = (n / 2) as nat;
        let t = reversed_bits(h, i / 2);
        lemma_reversed_bits_twice(h, i / 2);
        if i % 2 == 0 {
            assert((2 * t) / 2 == t && (2 * t) % 2 == 0);
        } else {
            let p = (n - 1 - 2 * t) as nat;
            assert(p % 2 == 1 && p / 2 == h - 1 - t);
            lemma_reversed_bits_complement(h, t);
        }
    }
}

/// On a sequence whose length is a power of two, the folded reverse bit
/// order applied twice gives the sequence back.
pub proof fn lemma_folded_bit_reversed_twice<T>(s: Seq<T>)
    requires
        is_pow2(s.len()),
        s.len() <= 0x1_0000_0000,
    ensures
        folded_bit_reversed(folded_bit_reversed(s)) == s,
{
    let once = folded_bit_reversed(s);
    lemma_folded_bit_reversed_len(s);
    lemma_folded_bit_reversed_len(once);
    assert forall|i: int| 0 <= i < s.len() implies folded_bit_reversed(once)[i] == s[i] by {
        lemma_folded_bit_reversed_index(once, i);
        lemma_original_index_twice(s.len(), i as nat);
        lemma_folded_bit_reversed_index(s, original_index(s.len(), i as nat) as int);
    }
    assert(folded_bit_reversed(once) =~= s);
}

/// Between a power of two and its double, the logarithm is that of the
/// power of two.
pub proof fn lemma_log2_of_range(k: nat, idx: nat)
    requires
        is_pow2(k),
        k <= idx < 2 * k,
    ensures
        floor_log2(idx) == floor_log2(k),
    decreases k,
{
    if k >= 2 {
        lemma_log2_of_range(k / 2, idx / 2);
    }
}

/// Whether `n` is a power of two.
pub fn is_power_of_two(n: usize) -> (r: bool)
    ensures
        r == is_pow2(n as nat),
{
    if n == 0 {
        return false;
    }
    let mut m: usize = n;
    while m % 2 == 0
        invariant
            m >= 1,
            is_pow2(m as nat) == is_pow2(n as nat),
        decreases m,
    {
        m = m / 2;
    }
    m == 1
}

/// The integer part of the binary logarithm of `x`; 0 for `x = 0`.
pub fn log2(x: u32) -> (r: usize)
    ensures
        r == floor_log2(x as nat),
        r <= 31,
{
    let mut m: u32 = x;
    let mut r: usize = 0;
    proof {
        lemma_pow2_32();
        lemma_log2_below(x as nat, 32);
    }
    while m > 1
        invariant
            floor_log2(x as nat) == r + floor_log2(m as nat),
            r + floor_log2(m as nat) <= 31,
        decreases m,
    {
        m = m / 2;
        r = r + 1;
    }
    r
}

/// The entries of `values` at even positions.
pub fn even_entries<T: Copy>(values: &Vec<T>) -> (r: Vec<T>)
    ensures
        r@ == evens(values@),
{
    let count: usize = values.len() / 2 + values.len() % 2;
    let mut out: Vec<T> = Vec::new();
    let mut k: usize = 0;
    while k < count
        invariant
            k <= count,
            count == (values.len() + 1) / 2,
            out.len() == k,
            forall|j: int| 0 <= j < k ==> out[j] == values[2 * j],
        decreases count - k,
    {
        out.push(values[2 * k]);
        k = k + 1;
    }
    assert(out@ =~= evens(values@));
    out
}

/// The entries of `values` at odd positions.
pub fn odd_entries<T: Copy>(values: &Vec<T>) -> (r: Vec<T>)
    ensures
        r@ == odds(values@),
{
    let count: usize = values.len() / 2;
    let mut out: Vec<T> = Vec::new();
    let mut k: usize = 0;
    while k < count
        invariant
            k <= count,
            count == values.len() / 2,
            out.len() == k,
            forall|j: int| 0 <= j < k ==> out[j] == values[2 * j + 1],
        decreases count - k,
    {
        out.push(values[2 * k + 1]);
        k = k + 1;
    }
    assert(out@ =~= odds(values@));
    out
}

/// The entries of `values` from the last to the first.
pub fn reversed<T: Copy>(values: &Vec<T>) -> (r: Vec<T>)
    ensures
        r@ == values@.reverse(),
{
    let n = values.len();
    let mut out: Vec<T> = Vec::new();
    let mut i: usize = 0;
    while i < n
        invariant
            i <= n,
            n == values.len(),
            out.len() == i,
            forall|j: int| 0 <= j < i ==> out[j] == values[n - 1 - j],
        decreases n - i,
    {
        out.push(values[n - 1 - i]);
        i = i + 1;
    }
    assert(out@ =~= values@.reverse());
    out
}

/// `values` in reverse bit order.
pub fn rbo<T: Copy>(values: &Vec<T>) -> (r: Vec<T>)
    ensures
        r@ == bit_reversed(values@),
    decreases values.len(),
{
    if values.len() <= 1 {
        let mut out: Vec<T> = Vec::new();
        if values.len() == 1 {
            out.push(values[0]);
        }
        assert(out@ =~= values@);
        return out;
    }
    let x = even_entries(values);
    let y = odd_entries(values);
    let mut left = rbo(&x);
    let right = rbo(&y);
    let ghost l0 = left@;
    let mut i: usize = 0;
    while i < right.len()
        invariant
            i <= right.len(),
            left@ == l0 + right@.subrange(0, i as int),
        decreases right.len() - i,
    {
        left.push(right[i]);
        i = i + 1;
        assert(left@ =~= l0 + right@.subrange(0, i as int));
    }
    assert(right@.subrange(0, right.len() as int) =~= right@);
    left
}

/// `values` in folded reverse bit order.
pub fn folded_reverse_bit_order<T: Copy>(values: &Vec<T>) -> (r: Vec<T>)
    ensures
        r@ == folded_bit_reversed(values@),
{
    let l = even_entries(values);
    let r = reversed(&odd_entries(values));
    let left = rbo(&l);
    let right = rbo(&r);
    proof {
        lemma_bit_reversed_len(l@);
        lemma_bit_reversed_len(r@);
    }
    let n = values.len();
    let mut out: Vec<T> = Vec::new();
    let mut i: usize = 0;
    while i < n
        invariant
            i <= n,
            n == values.len(),
            left.len() == (n + 1) / 2,
            right.len() == n / 2,
            out.len() == i,
            forall|j: int|
                0 <= j < i ==> out[j] == if j % 2 == 0 {
                    left[j / 2]
                } else {
                    right[j / 2]
                },
        decreases n - i,
    {
        if i % 2 == 0 {
            out.push(left[i / 2]);
        } else {
            out.push(right[i / 2]);
        }
        i = i + 1;
    }
    assert(out@ =~= folded_bit_reversed(values@));
    out
}

/// The numbers below `n` in increasing order.
pub fn index_range(n: u32) -> (r: Vec<u32>)
    ensures
        r@ == iota(n as nat),
{
    let mut out: Vec<u32> = Vec::new();
    let mut i: u32 = 0;
    while i < n
        invariant
            i <= n,
            out.len() == i,
            forall|j: int| 0 <= j < i ==> out[j] == j as u32,
        decreases n - i,
    {
        out.push(i);
        i = i + 1;
    }
    assert(out@ =~= iota(n as nat));
    out
}

/// The reverse bit order as a table: entry `i` is the position from which
/// the reverse bit order of `n` entries takes its entry `i`.
pub fn reverse_bit_order(n: u32) -> (r: Vec<u32>)
    ensures
        r@ == bit_reversed(iota(n as nat)),
{
    rbo(&index_range(n))
}

proof fn lemma_reversed_bits_bound(length: nat, index: nat)
    requires
        length >= 1,
    ensures
        reversed_bits(length, index) < length,
    decreases length,
{
    if length >= 2 {
        lemma_reversed_bits_bound(length / 2, index / 2);
        assert((index % 2) * (length / 2) <= length / 2) by (nonlinear_arith)
            requires
                index % 2 <= 1,
        ;
    }
}

/// `index` with its bits reversed, as a number below `length`.
pub fn reverse_bits(length: usize, index: usize) -> (r: usize)
    ensures
        r == reversed_bits(length as nat, index as nat),
        length >= 1 ==> r < length,
    decreases length,
{
    if length <= 1 {
        0
    } else {
        let sub = reverse_bits(length / 2, index / 2);
        proof {
            lemma_reversed_bits_bound(length as nat, index as nat);
        }
        if index % 2 == 0 {
            assert((index % 2) * (length / 2) == 0) by (nonlinear_arith)
                requires
                    index % 2 == 0,
            ;
            sub
        } else {
            assert((index % 2) * (length / 2) == length / 2) by (nonlinear_arith)
                requires
                    index % 2 == 1,
            ;
            sub + length / 2
        }
    }
}

/// The position in the natural order of the entry that the folded reverse
/// bit order of `length` entries has at position `index`.
pub fn rbo_index_to_original(length: usize, index: usize) -> (r: usize)
    ensures
        r == original_index(length as nat, index as nat),
        length >= 1 ==> r < length,
{
    if length <= 1 {
        return 0;
    }
    let sub = reverse_bits(length / 2, index / 2);
    if index % 2 == 0 {
        sub * 2
    } else {
        length - 1 - sub * 2
    }
}

} // verus!
