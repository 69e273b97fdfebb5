use vstd::prelude::*;
use crate::error::StarkError;
use crate::utils::{floor_log2, is_pow2, is_power_of_two, lemma_log2_of_range};

verus! {

/// The number of bytes of a digest.
pub const DIGEST_SIZE: usize = 64;

/// What `sha256::digest` returns for the bytes `data`: the SHA-256 digest
/// in lower-case hexadecimal, as the bytes of that text.
pub uninterp spec fn sha256_hex(data: Seq<u8>) -> Seq<u8>;

/// The byte sequences held by a vector of byte vectors.
pub open spec fn rows(v: Seq<Vec<u8>>) -> Seq<Seq<u8>> {
    v.map_values(|x: Vec<u8>| x@)
}

/// Two different inputs with the same digest.
pub open spec fn is_collision(a: Seq<u8>, b: Seq<u8>) -> bool {
    a != b && sha256_hex(a) == sha256_hex(b)
}

/// The hash has a collision.
pub open spec fn collision_exists() -> bool {
    exists|a: Seq<u8>, b: Seq<u8>| is_collision(a, b)
}

/// Node `i` of the tree over `leaves`: leaf `k` sits at `leaves.len() + k`
/// and holds the digest of the leaf's bytes; node `i` below that holds the
/// digest of its children `2 i` and `2 i + 1`, the left one first.
pub open spec fn node(leaves: Seq<Seq<u8>>, i: int) -> Seq<u8>
    decreases 2 * leaves.len() - i,
{
    if i < 1 || i >= 2 * leaves.len() {
        Seq::empty()
    } else if i >= leaves.len() {
        sha256_hex(leaves[i - leaves.len()])
    } else {
        sha256_hex(node(leaves, 2 * i) + node(leaves, 2 * i + 1))
    }
}

/// The array-backed tree over `leaves`: entry 0 is unused and empty, entry 1
/// is the root.
pub open spec fn tree_of(leaves: Seq<Seq<u8>>) -> Seq<Seq<u8>> {
    Seq::new(2 * leaves.len(), |i: int| node(leaves, i))
}

/// The index of the other child of the parent of `i`.
pub open spec fn sibling(i: int) -> int {
    if i % 2 == 0 {
        i + 1
    } else {
        i - 1
    }
}

/// The siblings on the way from node `i` up to the root, the lowest first.
pub open spec fn branch_from(tree: Seq<Seq<u8>>, i: int) -> Seq<Seq<u8>>
    decreases i,
{
    if i <= 1 {
        Seq::empty()
    } else {
        seq![tree[sibling(i)]] + branch_from(tree, i / 2)
    }
}

/// The digest that a path ends in: starting from `digest` at position `pos`,
/// each branch entry is joined on the left where the position is odd and on
/// the right where it is even, and the position is halved.
pub open spec fn branch_root(digest: Seq<u8>, pos: nat, branch: Seq<Seq<u8>>) -> Seq<u8>
    decreases branch.len(),
{
    if branch.len() == 0 {
        digest
    } else {
        let next = if pos % 2 == 1 {
            sha256_hex(branch[0] + digest)
        } else {
            sha256_hex(digest + branch[0])
        };
        branch_root(next, pos / 2, branch.drop_first())
    }
}

/// Whether `branch` leads from the leaf `val` at `pos` to `root`.
pub open spec fn branch_verifies(
    root: Seq<u8>,
    pos: nat,
    val: Seq<u8>,
    branch: Seq<Seq<u8>>,
) -> bool {
    branch_root(sha256_hex(val), pos, branch) == root
}

/// Every node of the tree over `leaves` has the size of a digest.
pub open spec fn digests_sized(leaves: Seq<Seq<u8>>) -> bool {
    forall|i: int| 1 <= i < 2 * leaves.len() ==> (#[trigger] node(leaves, i)).len() == DIGEST_SIZE
}

proof fn lemma_path_reaches_root(leaves: Seq<Seq<u8>>, idx: int, width: nat, pos: nat)
    requires
        is_pow2(width),
        width <= leaves.len(),
        pos < width,
        idx == width + pos,
    ensures
        branch_root(node(leaves, idx), pos, branch_from(tree_of(leaves), idx)) == node(leaves, 1),
    decreases width,
{
    let t = tree_of(leaves);
    if width >= 2 {
        let branch = branch_from(t, idx);
        let parent = idx / 2;
        assert(branch[0] == node(leaves, sibling(idx)));
        assert(branch.drop_first() =~= branch_from(t, parent));
        if pos % 2 == 1 {
            assert(sibling(idx) == 2 * parent && idx == 2 * parent + 1);
        } else {
            assert(idx == 2 * parent && sibling(idx) == 2 * parent + 1);
        }
        lemma_path_reaches_root(leaves, parent, width / 2, pos / 2);
    }
}

/// The branch that the tree over `leaves` gives for a position verifies the
/// leaf at that position against the tree's root.
pub proof fn lemma_branch_of_tree_verifies(leaves: Seq<Seq<u8>>, pos: nat)
    requires
        is_pow2(leaves.len()),
        pos < leaves.len(),
    ensures
        branch_verifies(
            tree_of(leaves)[1],
            pos,
            leaves[pos as int],
            branch_from(tree_of(leaves), (leaves.len() + pos) as int),
        ),
{
    lemma_path_reaches_root(leaves, (leaves.len() + pos) as int, leaves.len(), pos);
}

proof fn lemma_joined_differ(a1: Seq<u8>, b1: Seq<u8>, a2: Seq<u8>, b2: Seq<u8>)
    requires
        a1.len() == a2.len(),
        a1 != a2 || b1 != b2,
    ensures
        a1 + b1 != a2 + b2,
{
    if a1 + b1 == a2 + b2 {
        assert((a1 + b1).subrange(0, a1.len() as int) =~= a1);
        assert((a2 + b2).subrange(0, a2.len() as int) =~= a2);
        assert((a1 + b1).skip(a1.len() as int) =~= b1);
        assert((a2 + b2).skip(a2.len() as int) =~= b2);
    }
}

proof fn lemma_suffix_differ(a1: Seq<u8>, b1: Seq<u8>, a2: Seq<u8>, b2: Seq<u8>)
    requires
        b1 == b2,
        a1 != a2,
    ensures
        a1 + b1 != a2 + b2,
{
    if a1 + b1 == a2 + b2 {
        assert((a1 + b1).len() == (a2 + b2).len());
        lemma_joined_differ(a1, b1, a2, b2);
    }
}

proof fn lemma_paths_merge(d1: Seq<u8>, d2: Seq<u8>, pos: nat, branch: Seq<Seq<u8>>)
    requires
        d1 != d2,
        branch_root(d1, pos, branch) == branch_root(d2, pos, branch),
    ensures
        collision_exists(),
    decreases branch.len(),
{
    if branch.len() > 0 {
        let in1 = if pos % 2 == 1 {
            branch[0] + d1
        } else {
            d1 + branch[0]
        };
        let in2 = if pos % 2 == 1 {
            branch[0] + d2
        } else {
            d2 + branch[0]
        };
        if pos % 2 == 1 {
            lemma_joined_differ(branch[0], d1, branch[0], d2);
        } else {
            lemma_suffix_differ(d1, branch[0], d2, branch[0]);
        }
        if sha256_hex(in1) == sha256_hex(in2) {
            assert(is_collision(in1, in2));
        } else {
            lemma_paths_merge(sha256_hex(in1), sha256_hex(in2), pos / 2, branch.drop_first());
        }
    }
}

/// If a branch verifies two different leaves against one root at one
/// position, two different inputs of the hash have the same digest: short of
/// such a collision, a changed leaf no longer verifies.
pub proof fn lemma_changed_leaf_collides(
    root: Seq<u8>,
    pos: nat,
    val1: Seq<u8>,
    val2: Seq<u8>,
    branch: Seq<Seq<u8>>,
)
    requires
        val1 != val2,
        branch_verifies(root, pos, val1, branch),
        branch_verifies(root, pos, val2, branch),
    ensures
        collision_exists(),
{
    if sha256_hex(val1) == sha256_hex(val2) {
        assert(is_collision(val1, val2));
    } else {
        lemma_paths_merge(sha256_hex(val1), sha256_hex(val2), pos, branch);
    }
}

proof fn lemma_branches_merge(
    digest: Seq<u8>,
    pos: nat,
    branch1: Seq<Seq<u8>>,
    branch2: Seq<Seq<u8>>,
    k: int,
)
    requires
        branch1.len() == branch2.len(),
        0 <= k < branch1.len(),
        branch1[k] != branch2[k],
        forall|j: int| 0 <= j < branch1.len() && j != k ==> branch1[j] == branch2[j],
        branch_root(digest, pos, branch1) == branch_root(digest, pos, branch2),
    ensures
        collision_exists(),
    decreases k,
{
    let rest1 = branch1.drop_first();
    let rest2 = branch2.drop_first();
    if k == 0 {
        let in1 = if pos % 2 == 1 {
            branch1[0] + digest
        } else {
            digest + branch1[0]
        };
        let in2 = if pos % 2 == 1 {
            branch2[0] + digest
        } else {
            digest + branch2[0]
        };
        if pos % 2 == 1 {
            lemma_suffix_differ(branch1[0], digest, branch2[0], digest);
        } else {
            lemma_joined_differ(digest, branch1[0], digest, branch2[0]);
        }
        assert(rest1 =~= rest2);
        if sha256_hex(in1) == sha256_hex(in2) {
            assert(is_collision(in1, in2));
        } else {
            lemma_paths_merge(sha256_hex(in1), sha256_hex(in2), pos / 2, rest1);
        }
    } else {
        let next = if pos % 2 == 1 {
            sha256_hex(branch1[0] + digest)
        } else {
            sha256_hex(digest + branch1[0])
        };
        assert(rest1[k - 1] == branch1[k]);
        assert(rest2[k - 1] == branch2[k]);
        assert forall|j: int| 0 <= j < rest1.len() && j != k - 1 implies rest1[j] == rest2[j] by {
            assert(rest1[j] == branch1[j + 1]);
            assert(rest2[j] == branch2[j + 1]);
        }
        lemma_branches_merge(next, pos / 2, rest1, rest2, k - 1);
    }
}

/// If two branches that differ in exactly one entry verify one leaf against
/// one root at one position, two different inputs of the hash have the same
/// digest: short of such a collision, a changed branch entry no longer
/// verifies.
pub proof fn lemma_changed_branch_collides(
    root: Seq<u8>,
    pos: nat,
    val: Seq<u8>,
    branch1: Seq<Seq<u8>>,
    branch2: Seq<Seq<u8>>,
    k: int,
)
    requires
        branch1.len() == branch2.len(),
        0 <= k < branch1.len(),
        branch1[k] != branch2[k],
        forall|j: int| 0 <= j < branch1.len() && j != k ==> branch1[j] == branch2[j],
        branch_verifies(root, pos, val, branch1),
        branch_verifies(root, pos, val, branch2),
    ensures
        collision_exists(),
{
    lemma_branches_merge(sha256_hex(val), pos, branch1, branch2, k);
}

/// Trees over the same leaves have the same root.
pub proof fn lemma_same_leaves_same_root(leaves1: Seq<Seq<u8>>, leaves2: Seq<Seq<u8>>)
    requires
        leaves1 =~~= leaves2,
    ensures
        tree_of(leaves1)[1] == tree_of(leaves2)[1],
{
}

proof fn lemma_difference_rises(leaves1: Seq<Seq<u8>>, leaves2: Seq<Seq<u8>>, idx: int)
    requires
        leaves1.len() == leaves2.len(),
        digests_sized(leaves1),
        digests_sized(leaves2),
        1 <= idx < 2 * leaves1.len(),
        node(leaves1, idx) != node(leaves2, idx),
        node(leaves1, 1) == node(leaves2, 1),
    ensures
        collision_exists(),
    decreases idx,
{
    if idx > 1 {
        let parent = idx / 2;
        let in1 = node(leaves1, 2 * parent) + node(leaves1, 2 * parent + 1);
        let in2 = node(leaves2, 2 * parent) + node(leaves2, 2 * parent + 1);
        assert(node(leaves1, 2 * parent).len() == DIGEST_SIZE);
        assert(node(leaves2, 2 * parent).len() == DIGEST_SIZE);
        lemma_joined_differ(
            node(leaves1, 2 * parent),
            node(leaves1, 2 * parent + 1),
            node(leaves2, 2 * parent),
            node(leaves2, 2 * parent + 1),
        );
        if node(leaves1, parent) == node(leaves2, parent) {
            assert(is_collision(in1, in2));
        } else {
            lemma_difference_rises(leaves1, leaves2, parent);
        }
    }
}

/// If the trees over two leaf sequences that differ in a leaf have the same
/// root, two different inputs of the hash have the same digest: short of
/// such a collision, different leaves give different roots.
pub proof fn lemma_different_leaves_collide(
    leaves1: Seq<Seq<u8>>,
    leaves2: Seq<Seq<u8>>,
    k: int,
)
    requires
        leaves1.len() == leaves2.len(),
        digests_sized(leaves1),
        digests_sized(leaves2),
        0 <= k < leaves1.len(),
        leaves1[k] != leaves2[k],
        tree_of(leaves1)[1] == tree_of(leaves2)[1],
    ensures
        collision_exists(),
{
    let idx = leaves1.len() + k;
    if node(leaves1, idx) == node(leaves2, idx) {
        assert(is_collision(leaves1[k], leaves2[k]));
    } else {
        lemma_difference_rises(leaves1, leaves2, idx);
    }
}

/// `sha256::digest` on a byte vector, its text returned as bytes.
///
/// Trusted: the call is a function of the bytes alone, and its result is the
/// hexadecimal form of a 32-byte digest, so 64 bytes long.
#[verifier::external_body]
pub fn hash(x: Vec<u8>) -> (r: Vec<u8>)
    ensures
        r@ == sha256_hex(x@),
        r@.len() == DIGEST_SIZE,
{
    sha256::digest(x).into_bytes()
}

/// A copy of `v`.
pub fn copy_bytes(v: &Vec<u8>) -> (r: Vec<u8>)
    ensures
        r@ == v@,
{
    let mut out: Vec<u8> = Vec::new();
    let mut i: usize = 0;
    while i < v.len()
        invariant
            i <= v.len(),
            out@ == v@.subrange(0, i as int),
        decreases v.len() - i,
    {
        out.push(v[i]);
        i = i + 1;
        assert(out@ =~= v@.subrange(0, i as int));
    }
    assert(v@.subrange(0, v.len() as int) =~= v@);
    out
}

/// The bytes of `a` followed by those of `b`.
pub fn concat_bytes(a: &Vec<u8>, b: &Vec<u8>) -> (r: Vec<u8>)
    ensures
        r@ == a@ + b@,
{
    let mut out: Vec<u8> = copy_bytes(a);
    let mut i: usize = 0;
    while i < b.len()
        invariant
            i <= b.len(),
            out@ == a@ + b@.subrange(0, i as int),
        decreases b.len() - i,
    {
        out.push(b[i]);
        i = i + 1;
        assert(out@ =~= a@ + b@.subrange(0, i as int));
    }
    assert(b@.subrange(0, b.len() as int) =~= b@);
    out
}

/// The Merkle tree over `vals`, which must be a power of two in number.
///
/// `InvalidLeafCount` for any other number of leaves, and for one whose
/// tree would have more entries than a vector can hold.
pub fn merkelize(vals: &Vec<Vec<u8>>) -> (r: Result<Vec<Vec<u8>>, StarkError>)
    ensures
        r is Ok <==> is_pow2(vals.len() as nat) && 2 * vals.len() <= usize::MAX,
        r is Err ==> r == Err::<Vec<Vec<u8>>, StarkError>(StarkError::InvalidLeafCount),
        r matches Ok(tree) ==> rows(tree@) == tree_of(rows(vals@)) && digests_sized(rows(vals@)),
{
    let n = vals.len();
    if !is_power_of_two(n) || n > usize::MAX / 2 {
        return Err(StarkError::InvalidLeafCount);
    }
    let ghost leaves = rows(vals@);
    // the entries of the tree from the last one down to the first
    let mut rev: Vec<Vec<u8>> = Vec::new();
    let mut k: usize = 0;
    while k < n
        invariant
            k <= n,
            n == vals.len(),
            2 * n <= usize::MAX,
            leaves == rows(vals@),
            rev.len() == k,
            forall|j: int| 0 <= j < k ==> (#[trigger] rev[j])@ == node(leaves, 2 * n - 1 - j),
            forall|j: int| 0 <= j < k ==> (#[trigger] rev[j]).len() == DIGEST_SIZE,
        decreases n - k,
    {
        let leaf = copy_bytes(&vals[n - 1 - k]);
        let digest = hash(leaf);
        rev.push(digest);
        k = k + 1;
    }
    while k < 2 * n - 1
        invariant
            n <= k <= 2 * n - 1,
            n == vals.len(),
            2 * n <= usize::MAX,
            leaves == rows(vals@),
            rev.len() == k,
            forall|j: int| 0 <= j < k ==> (#[trigger] rev[j])@ == node(leaves, 2 * n - 1 - j),
            forall|j: int| 0 <= j < k ==> (#[trigger] rev[j]).len() == DIGEST_SIZE,
        decreases 2 * n - 1 - k,
    {
        // entry k holds node i = 2n - 1 - k, whose children are 2i and 2i + 1
        let i: usize = 2 * n - 1 - k;
        let left: usize = 2 * n - 1 - 2 * i;
        let right: usize = left - 1;
        let joined = concat_bytes(&rev[left], &rev[right]);
        let digest = hash(joined);
        rev.push(digest);
        k = k + 1;
    }
    let mut tree: Vec<Vec<u8>> = Vec::new();
    tree.push(Vec::new());
    let mut i: usize = 1;
    while i < 2 * n
        invariant
            1 <= i <= 2 * n,
            n == vals.len(),
            n >= 1,
            2 * n <= usize::MAX,
            leaves == rows(vals@),
            rev.len() == 2 * n - 1,
            forall|j: int|
                0 <= j < 2 * n - 1 ==> (#[trigger] rev[j])@ == node(leaves, 2 * n - 1 - j),
            forall|j: int| 0 <= j < 2 * n - 1 ==> (#[trigger] rev[j]).len() == DIGEST_SIZE,
            tree.len() == i,
            tree[0]@ == Seq::<u8>::empty(),
            forall|j: int| 1 <= j < i ==> (#[trigger] tree[j])@ == node(leaves, j),
            forall|j: int| 1 <= j < i ==> (#[trigger] tree[j]).len() == DIGEST_SIZE,
        decreases 2 * n - i,
    {
        tree.push(copy_bytes(&rev[2 * n - 1 - i]));
        i = i + 1;
    }
    assert(rows(tree@) =~= tree_of(leaves));
    assert forall|j: int| 1 <= j < 2 * leaves.len() implies (#[trigger] node(leaves, j)).len()
        == DIGEST_SIZE by {
        assert(tree[j]@ == node(leaves, j));
    }
    Ok(tree)
}

/// The root of `tree`, which is its entry 1; `None` for a tree without one.
pub fn get_root(tree: &Vec<Vec<u8>>) -> (r: Option<Vec<u8>>)
    ensures
        r is Some <==> tree.len() >= 2,
        r matches Some(root) ==> root@ == tree[1]@,
{
    if tree.len() >= 2 {
        Some(copy_bytes(&tree[1]))
    } else {
        None
    }
}

/// The authentication branch of leaf `pos`: the sibling at each level on
/// the way from the leaf to the root, the leaf's own sibling first.
pub fn get_branch(tree: &Vec<Vec<u8>>, pos: usize) -> (r: Vec<Vec<u8>>)
    requires
        tree.len() % 2 == 0,
        pos < tree.len() / 2,
    ensures
        rows(r@) == branch_from(rows(tree@), tree.len() / 2 + pos),
        r.len() == floor_log2((tree.len() / 2 + pos) as nat),
        is_pow2((tree.len() / 2) as nat) ==> r.len() == floor_log2((tree.len() / 2) as nat),
{
    let mut out: Vec<Vec<u8>> = Vec::new();
    let start: usize = tree.len() / 2 + pos;
    let mut idx: usize = start;
    let ghost t = rows(tree@);
    while idx > 1
        invariant
            idx <= start,
            start < tree.len(),
            tree.len() % 2 == 0,
            t == rows(tree@),
            rows(out@) + branch_from(t, idx as int) == branch_from(t, start as int),
            out.len() + floor_log2(idx as nat) == floor_log2(start as nat),
        decreases idx,
    {
        let sib: usize = if idx % 2 == 0 {
            idx + 1
        } else {
            idx - 1
        };
        let entry = copy_bytes(&tree[sib]);
        let ghost before = rows(out@);
        out.push(entry);
        proof {
            assert(rows(out@) =~= before + seq![t[sibling(idx as int)]]);
            assert(before + (seq![t[sibling(idx as int)]] + branch_from(t, idx as int / 2))
                =~= (before + seq![t[sibling(idx as int)]]) + branch_from(t, idx as int / 2));
        }
        idx = idx / 2;
    }
    assert(rows(out@) + Seq::<Seq<u8>>::empty() =~= rows(out@));
    proof {
        if is_pow2((tree.len() / 2) as nat) {
            lemma_log2_of_range((tree.len() / 2) as nat, start as nat);
        }
    }
    out
}

/// Whether `branch` authenticates the leaf `val` at position `pos` against
/// `root`. A mismatch is the answer `false`, not an error.
pub fn verify_branch(root: &Vec<u8>, pos: usize, val: &Vec<u8>, branch: &Vec<Vec<u8>>) -> (r:
    bool)
    ensures
        r == branch_verifies(root@, pos as nat, val@, rows(branch@)),
{
    let mut x: Vec<u8> = hash(copy_bytes(val));
    let mut p: usize = pos;
    let mut i: usize = 0;
    let ghost b = rows(branch@);
    assert(b.skip(0) =~= b);
    while i < branch.len()
        invariant
            i <= branch.len(),
            b == rows(branch@),
            branch_root(x@, p as nat, b.skip(i as int)) == branch_root(
                sha256_hex(val@),
                pos as nat,
                b,
            ),
        decreases branch.len() - i,
    {
        let joined = if p % 2 == 1 {
            concat_bytes(&branch[i], &x)
        } else {
            concat_bytes(&x, &branch[i])
        };
        proof {
            assert(b.skip(i as int)[0] == branch[i as int]@);
            assert(b.skip(i as int).drop_first() =~= b.skip(i as int + 1));
        }
        x = hash(joined);
        p = p / 2;
        i = i + 1;
    }
    bytes_equal(&x, root)
}

/// Whether `a` and `b` hold the same bytes.
pub fn bytes_equal(a: &Vec<u8>, b: &Vec<u8>) -> (r: bool)
    ensures
        r == (a@ == b@),
{
    if a.len() != b.len() {
        return false;
    }
    let mut i: usize = 0;
    while i < a.len()
        invariant
            i <= a.len(),
            a.len() == b.len(),
            a@.subrange(0, i as int) == b@.subrange(0, i as int),
        decreases a.len() - i,
    {
        if a[i] != b[i] {
            return false;
        }
        i = i + 1;
        assert(a@.subrange(0, i as int) =~= a@.subrange(0, i - 1).push(a[i - 1]));
        assert(b@.subrange(0, i as int) =~= b@.subrange(0, i - 1).push(b[i - 1]));
    }
    assert(a@.subrange(0, a.len() as int) =~= a@);
    assert(b@.subrange(0, b.len() as int) =~= b@);
    true
}

} // verus!
