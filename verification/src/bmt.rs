//! The Bloom-Merkle tree: a binary hash tree whose inner nodes carry the
//! union of the Bloom filters of their descendants' leaf hashes, so a walk
//! can refuse a subtree and leave a short non-membership witness.

use vstd::prelude::*;
use crate::bloom::{BloomFilter, SeededBloomFilter, bloom_config_ok, spec_hasher_count,
    spec_bits_per_hasher};
use crate::digest::{HashAlgo, copy_bytes, compare_bytes, hash_bytes, hash_empty, hash_leaf,
    hash_nodes, spec_hash_empty, spec_hash_leaf, spec_hash_nodes, algo_hash, algo_out_len};
use crate::errors::ChainError;

verus! {

/// Capacity of every Bloom filter built inside a tree.
pub const BMT_BLOOM_CAPACITY: usize = 10000;

/// Numerator of the false-positive rate of tree filters.
pub const BMT_BLOOM_FP_NUM: u64 = 1;

/// Denominator of the false-positive rate of tree filters: the rate is
/// one in ten thousand.
pub const BMT_BLOOM_FP_DEN: u64 = 10000;

/// The hasher count every tree filter has.
pub open spec fn bmt_bloom_k() -> nat {
    spec_hasher_count(BMT_BLOOM_CAPACITY as nat, BMT_BLOOM_FP_NUM as nat, BMT_BLOOM_FP_DEN as nat)
}

/// The per-hasher bit count every tree filter has.
pub open spec fn bmt_bloom_m() -> nat {
    spec_bits_per_hasher(
        BMT_BLOOM_CAPACITY as nat,
        BMT_BLOOM_FP_NUM as nat,
        BMT_BLOOM_FP_DEN as nat,
    )
}

/// Whether the fixed tree filter configuration is realizable; it always
/// is, but the derivation is only evaluated at run time.
pub open spec fn bmt_bloom_ok() -> bool {
    bloom_config_ok(BMT_BLOOM_CAPACITY as nat, BMT_BLOOM_FP_NUM as nat, BMT_BLOOM_FP_DEN as nat)
}

/// A fresh, empty filter in the fixed tree configuration.
fn new_bmt_bloom() -> (r: Result<SeededBloomFilter, ChainError>)
    ensures
        r is Ok <==> bmt_bloom_ok(),
        match r {
            Ok(f) => {
                &&& f.wf()
                &&& f.k() == bmt_bloom_k()
                &&& f.m() == bmt_bloom_m()
                &&& forall|j: nat| j < f.k() * f.m() ==> !#[trigger] f.bit(j)
            },
            Err(e) => e == ChainError::InvalidParameter,
        },
{
    SeededBloomFilter::new(BMT_BLOOM_CAPACITY, BMT_BLOOM_FP_NUM, BMT_BLOOM_FP_DEN)
}

/// One node of the inner binary tree.
pub enum Tree {
    Empty { hash: Vec<u8> },
    Leaf { hash: Vec<u8>, value: Vec<u8> },
    Node { hash: Vec<u8>, left: Box<Tree>, right: Box<Tree>, bloom_filter: SeededBloomFilter },
}

/// The recorded hash of a node.
pub open spec fn tree_hash(t: Tree) -> Seq<u8> {
    match t {
        Tree::Empty { hash } => hash@,
        Tree::Leaf { hash, .. } => hash@,
        Tree::Node { hash, .. } => hash@,
    }
}

/// The leaf values of a subtree, left to right.
pub open spec fn tree_leaf_values(t: Tree) -> Seq<Seq<u8>>
    decreases t,
{
    match t {
        Tree::Empty { .. } => Seq::empty(),
        Tree::Leaf { value, .. } => seq![value@],
        Tree::Node { left, right, .. } => tree_leaf_values(*left) + tree_leaf_values(*right),
    }
}

/// The leaf hashes of a subtree, left to right.
pub open spec fn tree_leaf_hashes(t: Tree) -> Seq<Seq<u8>>
    decreases t,
{
    match t {
        Tree::Empty { .. } => Seq::empty(),
        Tree::Leaf { hash, .. } => seq![hash@],
        Tree::Node { left, right, .. } => tree_leaf_hashes(*left) + tree_leaf_hashes(*right),
    }
}

/// Structural soundness of a subtree: recorded hashes are the canonical
/// digests, inner filters are in the fixed configuration and report every
/// descendant leaf hash present, and no inner child is empty.
pub open spec fn tree_wf(t: Tree, algo: HashAlgo) -> bool
    decreases t,
{
    match t {
        Tree::Empty { hash } => hash@ == spec_hash_empty(algo),
        Tree::Leaf { hash, value } => hash@ == spec_hash_leaf(algo, value@),
        Tree::Node { hash, left, right, bloom_filter } => {
            &&& tree_wf(*left, algo)
            &&& tree_wf(*right, algo)
            &&& !(*left is Empty)
            &&& !(*right is Empty)
            &&& bloom_filter.wf()
            &&& bloom_filter.k() == bmt_bloom_k()
            &&& bloom_filter.m() == bmt_bloom_m()
            &&& forall|h: Seq<u8>| (tree_leaf_hashes(*left) + tree_leaf_hashes(*right)).contains(h)
                ==> #[trigger] bloom_filter.has(h)
            &&& hash@ == spec_hash_nodes(
                algo,
                tree_hash(*left),
                tree_hash(*right),
                crate::bitset::bytes_of_words(bloom_filter.words()),
            )
        },
    }
}

/// The recorded hash, as an executable borrow.
fn tree_hash_ref(t: &Tree) -> (r: &Vec<u8>)
    ensures r@ == tree_hash(*t),
{
    match t {
        Tree::Empty { hash } => hash,
        Tree::Leaf { hash, .. } => hash,
        Tree::Node { hash, .. } => hash,
    }
}

/// The Bloom filter summarizing a non-empty subtree: an inner node's own
/// filter, or a singleton filter holding a leaf's hash.
fn subtree_bloom(t: &Tree, Ghost(algo): Ghost<HashAlgo>) -> (r: Result<
    SeededBloomFilter,
    ChainError,
>)
    requires
        tree_wf(*t, algo),
        !(*t is Empty),
    ensures
        r is Err ==> !bmt_bloom_ok() && r == Err::<SeededBloomFilter, ChainError>(
            ChainError::InvalidParameter,
        ),
        match r {
            Ok(f) => {
                &&& f.wf()
                &&& f.k() == bmt_bloom_k()
                &&& f.m() == bmt_bloom_m()
                &&& forall|h: Seq<u8>| tree_leaf_hashes(*t).contains(h) ==> #[trigger] f.has(h)
            },
            Err(_) => true,
        },
{
    match t {
        Tree::Empty { .. } => {
            proof {
                assert(false);
            }
            Err(ChainError::InvalidParameter)
        },
        Tree::Leaf { hash, .. } => {
            let mut f = new_bmt_bloom()?;
            f.insert(hash);
            proof {
                assert forall|h: Seq<u8>| tree_leaf_hashes(*t).contains(h)
                    implies #[trigger] f.has(h) by {
                    assert(tree_leaf_hashes(*t)[0] == h);
                }
            }
            Ok(f)
        },
        Tree::Node { bloom_filter, .. } => {
            let f = bloom_filter.duplicate();
            proof {
                assert forall|h: Seq<u8>| tree_leaf_hashes(*t).contains(h)
                    implies #[trigger] f.has(h) by {
                    assert(bloom_filter.has(h));
                }
            }
            Ok(f)
        },
    }
}

/// Join two non-empty subtrees into a node carrying the union of their
/// filters and the canonical node hash.
fn join(algo: HashAlgo, left: Tree, right: Tree) -> (r: Result<Tree, ChainError>)
    requires
        tree_wf(left, algo),
        tree_wf(right, algo),
        !(left is Empty),
        !(right is Empty),
    ensures
        r is Err ==> !bmt_bloom_ok(),
        match r {
            Ok(t) => {
                &&& tree_wf(t, algo)
                &&& t is Node
                &&& tree_leaf_values(t) == tree_leaf_values(left) + tree_leaf_values(right)
                &&& tree_leaf_hashes(t) == tree_leaf_hashes(left) + tree_leaf_hashes(right)
            },
            Err(e) => e == ChainError::InvalidParameter,
        },
{
    let lb = match subtree_bloom(&left, Ghost(algo)) {
        Ok(f) => f,
        Err(e) => {
            return Err(e);
        },
    };
    let rb = match subtree_bloom(&right, Ghost(algo)) {
        Ok(f) => f,
        Err(e) => {
            return Err(e);
        },
    };
    let bloom_filter = match lb.union(&rb) {
        Ok(f) => f,
        Err(_) => {
            proof {
                assert(false);
            }
            return Err(ChainError::InvalidParameter);
        },
    };
    let bloom_bytes = bloom_filter.to_bytes();
    let hash = hash_nodes(algo, tree_hash_ref(&left), tree_hash_ref(&right), &bloom_bytes);
    let t = Tree::Node {
        hash,
        left: Box::new(left),
        right: Box::new(right),
        bloom_filter,
    };
    proof {
        let lh = tree_leaf_hashes(left);
        let rh = tree_leaf_hashes(right);
        assert forall|h: Seq<u8>| (lh + rh).contains(h) implies #[trigger] bloom_filter.has(
            h,
        ) by {
            let i = choose|i: int| 0 <= i < (lh + rh).len() && (lh + rh)[i] == h;
            if i < lh.len() {
                assert(lh[i] == h);
                assert(lh.contains(h));
                assert(lb.has(h));
            } else {
                assert(rh[i - lh.len()] == h);
                assert(rh.contains(h));
                assert(rb.has(h));
            }
        }
        assert(tree_leaf_values(t) =~= tree_leaf_values(left) + tree_leaf_values(right));
        assert(tree_leaf_hashes(t) =~= lh + rh);
    }
    Ok(t)
}

/// The leaf values of a forest, forest order.
pub open spec fn forest_values(s: Seq<Tree>) -> Seq<Seq<u8>>
    decreases s.len(),
{
    if s.len() == 0 {
        Seq::empty()
    } else {
        tree_leaf_values(s.first()) + forest_values(s.drop_first())
    }
}

/// Appending a tree to a forest appends its leaves.
proof fn lemma_forest_values_snoc(s: Seq<Tree>, t: Tree)
    ensures forest_values(s.push(t)) == forest_values(s) + tree_leaf_values(t),
    decreases s.len(),
{
    if s.len() == 0 {
        assert(s.push(t).first() == t);
        assert(s.push(t).drop_first() =~= Seq::<Tree>::empty());
        assert(forest_values(s.push(t)) == tree_leaf_values(t) + forest_values(
            s.push(t).drop_first(),
        ));
        assert(forest_values(s.push(t)) =~= tree_leaf_values(t));
        assert(forest_values(s) + tree_leaf_values(t) =~= tree_leaf_values(t));
    } else {
        assert(s.push(t).first() == s.first());
        assert(s.push(t).drop_first() =~= s.drop_first().push(t));
        lemma_forest_values_snoc(s.drop_first(), t);
        assert(forest_values(s.push(t)) =~= forest_values(s) + tree_leaf_values(t));
    }
}

/// The number of pairing layers over `n` leaves: the ceiling of the
/// base-two logarithm.
pub open spec fn ceil_log2(n: nat) -> nat
    decreases n,
{
    if n <= 1 {
        0
    } else {
        1 + ceil_log2(((n + 1) / 2) as nat)
    }
}

/// A Bloom-Merkle tree: the root of the inner tree, the hashing
/// algorithm it was built with, its height, and its leaf count.
pub struct BloomMerkleTree {
    algorithm: HashAlgo,
    root: Tree,
    height: usize,
    count: usize,
}

impl BloomMerkleTree {
    /// Structural soundness: the inner tree is sound under the recorded
    /// algorithm and the leaf count is accurate.
    pub closed spec fn wf(&self) -> bool {
        &&& tree_wf(self.root, self.algorithm)
        &&& self.count == tree_leaf_values(self.root).len()
        &&& (self.count == 0 <==> self.root is Empty)
    }

    /// The algorithm the tree hashes with.
    pub closed spec fn spec_algo(&self) -> HashAlgo {
        self.algorithm
    }

    /// The leaf values, left to right.
    pub closed spec fn spec_leaves(&self) -> Seq<Seq<u8>> {
        tree_leaf_values(self.root)
    }

    /// The leaf hashes, left to right.
    pub closed spec fn spec_leaf_hashes(&self) -> Seq<Seq<u8>> {
        tree_leaf_hashes(self.root)
    }

    /// The root hash.
    pub closed spec fn spec_root_hash(&self) -> Seq<u8> {
        tree_hash(self.root)
    }

    /// What the root filter reports for a probe, where there is one.
    pub closed spec fn spec_root_bloom_has(&self, probe: Seq<u8>) -> bool {
        match self.root {
            Tree::Node { bloom_filter, .. } => bloom_filter.has(probe),
            _ => false,
        }
    }

    /// The inner tree.
    pub closed spec fn spec_root(&self) -> Tree {
        self.root
    }

    /// A sound tree is sound node by node: every internal node's
    /// filter holds both subtrees' leaf hashes and its hash is the
    /// digest of left hash, right hash and the filter's bytes, as
    /// `tree_wf` spells out over the root.
    pub proof fn lemma_structure(&self)
        requires self.wf(),
        ensures
            tree_wf(self.spec_root(), self.spec_algo()),
            self.spec_root_hash() == tree_hash(self.spec_root()),
            self.spec_leaves() == tree_leaf_values(self.spec_root()),
            self.spec_leaf_hashes() == tree_leaf_hashes(self.spec_root()),
            self.spec_leaves().len() == 0 <==> self.spec_root() is Empty,
    {
    }

    /// Every leaf hash is the canonical digest of the leaf value there.
    pub proof fn lemma_leaf_hashes(&self)
        requires self.wf(),
        ensures
            self.spec_leaf_hashes().len() == self.spec_leaves().len(),
            forall|i: int| 0 <= i < self.spec_leaves().len()
                ==> #[trigger] self.spec_leaf_hashes()[i] == spec_hash_leaf(
                    self.spec_algo(),
                    self.spec_leaves()[i],
                ),
    {
        lemma_tree_leaf_hashes(self.root, self.algorithm);
    }

    /// Build a tree from leaf values: hash each value into a leaf, then
    /// repeatedly join pairs, promoting a trailing single node unchanged.
    /// An empty input gives the empty tree.
    #[verifier::rlimit(100)]
    #[verifier::spinoff_prover]
    pub fn from_vec(algorithm: HashAlgo, values: Vec<Vec<u8>>) -> (r: Result<
        BloomMerkleTree,
        ChainError,
    >)
        ensures
            r is Err ==> !bmt_bloom_ok(),
            match r {
                Ok(t) => {
                    &&& t.wf()
                    &&& t.spec_algo() == algorithm
                    &&& t.spec_leaves() == values@.map_values(|v: Vec<u8>| v@)
                    &&& t.spec_leaves().len() == values@.len()
                    &&& t.spec_height() == ceil_log2(values@.len() as nat)
                    &&& (values@.len() == 0 ==> t.spec_root_hash() == spec_hash_empty(
                        algorithm,
                    ))
                    &&& (values@.len() >= 2 ==> (forall|h: Seq<u8>|
                        #[trigger] t.spec_leaf_hashes().contains(h)
                            ==> t.spec_root_bloom_has(h)))
                },
                Err(e) => e == ChainError::InvalidParameter,
            },
    {
        let ghost all_values = values@.map_values(|v: Vec<u8>| v@);
        if values.len() == 0 {
            let root = Tree::Empty { hash: hash_empty(algorithm) };
            let t = BloomMerkleTree { algorithm, root, height: 0, count: 0 };
            proof {
                assert(tree_leaf_values(t.root) =~= all_values);
            }
            return Ok(t);
        }
        let count = values.len();
        let mut cur: Vec<Tree> = Vec::new();
        let mut i: usize = 0;
        while i < values.len()
            invariant
                i <= values@.len(),
                all_values == values@.map_values(|v: Vec<u8>| v@),
                cur@.len() == i,
                forest_values(cur@) == all_values.subrange(0, i as int),
                forall|j: int| 0 <= j < cur@.len() ==> tree_wf(#[trigger] cur@[j], algorithm)
                    && !(cur@[j] is Empty),
            decreases values@.len() - i,
        {
            let value = copy_bytes(&values[i]);
            let hash = hash_leaf(algorithm, &value);
            let leaf = Tree::Leaf { hash, value };
            proof {
                lemma_forest_values_snoc(cur@, leaf);
            }
            cur.push(leaf);
            i += 1;
            proof {
                assert(tree_leaf_values(cur@[cur@.len() - 1]) =~= seq![all_values[i - 1]]);
                assert(forest_values(cur@) =~= all_values.subrange(0, i as int));
            }
        }
        proof {
            assert(all_values.subrange(0, all_values.len() as int) =~= all_values);
        }
        let mut height: usize = 0;
        while cur.len() > 1
            invariant
                1 <= cur@.len(),
                values@.len() <= usize::MAX,
                all_values == values@.map_values(|v: Vec<u8>| v@),
                all_values.len() == values@.len(),
                height + cur@.len() <= values@.len(),
                ceil_log2(values@.len() as nat) == height + ceil_log2(cur@.len() as nat),
                values@.len() >= 2 && cur@.len() == 1 ==> cur@[0] is Node,
                forest_values(cur@) == all_values,
                forall|j: int| 0 <= j < cur@.len() ==> tree_wf(#[trigger] cur@[j], algorithm)
                    && !(cur@[j] is Empty),
            decreases cur@.len(),
        {
            let ghost n_start = cur@.len();
            proof {
                assert(height + n_start <= values@.len());
            }
            let mut next: Vec<Tree> = Vec::new();
            while cur.len() > 0
                invariant
                    2 <= n_start,
                    cur@.len() >= 1 ==> cur@.len() + 2 * next@.len() == n_start,
                    cur@.len() == 0 ==> (2 * next@.len() == n_start || 2 * next@.len()
                        == n_start + 1),
                    cur@.len() == 0 && next@.len() == 1 ==> next@[0] is Node,
                    cur@.len() == 0 ==> next@.len() >= 1,
                    forest_values(next@) + forest_values(cur@) == all_values,
                    forall|j: int| 0 <= j < cur@.len() ==> tree_wf(#[trigger] cur@[j], algorithm)
                        && !(cur@[j] is Empty),
                    forall|j: int| 0 <= j < next@.len() ==> tree_wf(#[trigger] next@[j], algorithm)
                        && !(next@[j] is Empty),
                decreases cur@.len(),
            {
                if cur.len() == 1 {
                    let ghost cur0 = cur@;
                    let t = cur.remove(0);
                    proof {
                        assert(cur@ =~= cur0.drop_first());
                        assert(cur0.first() == t);
                    }
                    let ghost tv = tree_leaf_values(t);
                    let ghost next0 = next@;
                    proof {
                        lemma_forest_values_snoc(next@, t);
                    }
                    next.push(t);
                    proof {
                        assert(forest_values(cur0) == tv + forest_values(cur@));
                        assert(forest_values(cur@) =~= Seq::<Seq<u8>>::empty());
                        assert(forest_values(next@) =~= forest_values(next0) + tv);
                        assert(forest_values(next@) + forest_values(cur@) =~= all_values);
                    }
                } else {
                    let ghost cur0 = cur@;
                    let left = cur.remove(0);
                    proof {
                        assert(cur@ =~= cur0.drop_first());
                        assert(cur0.first() == left);
                    }
                    let ghost cur1 = cur@;
                    let right = cur.remove(0);
                    proof {
                        assert(cur@ =~= cur1.drop_first());
                        assert(cur1.first() == right);
                    }
                    let ghost lv = tree_leaf_values(left);
                    let ghost rv = tree_leaf_values(right);
                    let node = match join(algorithm, left, right) {
                        Ok(n) => n,
                        Err(e) => {
                            return Err(e);
                        },
                    };
                    let ghost next0 = next@;
                    proof {
                        lemma_forest_values_snoc(next@, node);
                    }
                    next.push(node);
                    proof {
                        assert(forest_values(cur0) == lv + forest_values(cur1));
                        assert(forest_values(cur1) == rv + forest_values(cur@));
                        assert(forest_values(next@) =~= forest_values(next0) + (lv + rv));
                        assert(forest_values(next@) + forest_values(cur@) =~= forest_values(
                            next0,
                        ) + forest_values(cur0));
                        assert(forest_values(next@) + forest_values(cur@) =~= all_values);
                    }
                }
            }
            proof {
                assert(forest_values(cur@) =~= Seq::<Seq<u8>>::empty());
                assert(forest_values(next@) =~= all_values);
                assert(next@.len() >= 1);
                assert(next@.len() == (n_start + 1) / 2);
                assert(ceil_log2(n_start as nat) == 1 + ceil_log2(((n_start + 1) / 2) as nat));
            }
            height = height + 1;
            cur = next;
        }
        let ghost curf = cur@;
        let root = cur.remove(0);
        proof {
            assert(curf.drop_first() =~= Seq::<Tree>::empty());
            assert(forest_values(curf) == tree_leaf_values(root) + forest_values(
                curf.drop_first(),
            ));
            assert(tree_leaf_values(root) =~= all_values);
            assert(all_values.len() == values@.len());
        }
        let t = BloomMerkleTree { algorithm, root, height, count };
        proof {
            if values@.len() >= 2 {
                assert(t.root is Node);
                assert forall|h: Seq<u8>| #[trigger] t.spec_leaf_hashes().contains(h)
                    implies t.spec_root_bloom_has(h) by {
                    match t.root {
                        Tree::Node { left, right, bloom_filter, .. } => {
                            assert(tree_leaf_hashes(t.root) == tree_leaf_hashes(*left)
                                + tree_leaf_hashes(*right));
                            assert(bloom_filter.has(h));
                        },
                        _ => {},
                    }
                }
            }
        }
        Ok(t)
    }

    /// The root hash of the tree.
    pub fn root_hash(&self) -> (r: &Vec<u8>)
        ensures r@ == self.spec_root_hash(),
    {
        tree_hash_ref(&self.root)
    }

    /// The height recorded while building: the number of join layers.
    pub fn height(&self) -> (r: usize)
        ensures r == self.spec_height(),
    {
        self.height
    }

    /// The recorded height, for specification purposes.
    pub closed spec fn spec_height(&self) -> usize {
        self.height
    }

    /// How many leaves the tree holds.
    pub fn count(&self) -> (r: usize)
        requires self.wf(),
        ensures r == self.spec_leaves().len(),
    {
        self.count
    }

    /// Whether the tree holds no leaves.
    pub fn is_empty(&self) -> (r: bool)
        requires self.wf(),
        ensures r == (self.spec_leaves().len() == 0),
    {
        self.count == 0
    }

    /// Ask the root filter whether a leaf hash may be present.  True for
    /// every inserted leaf hash; false whenever the walk could prove
    /// absence outright (an empty or single-leaf tree).
    pub fn contains(&self, value: Vec<u8>) -> (r: bool)
        requires self.wf(),
        ensures r == self.spec_root_bloom_has(value@),
    {
        match &self.root {
            Tree::Empty { .. } => false,
            Tree::Leaf { .. } => false,
            Tree::Node { bloom_filter, .. } => bloom_filter.contains(&value),
        }
    }

    /// The leaf values, left to right.
    pub fn iter(&self) -> (r: Vec<Vec<u8>>)
        ensures r@.map_values(|v: Vec<u8>| v@) == self.spec_leaves(),
    {
        let mut out: Vec<Vec<u8>> = Vec::new();
        collect_leaves(&self.root, &mut out);
        proof {
            assert(Seq::<Vec<u8>>::empty().map_values(|v: Vec<u8>| v@) =~= Seq::<
                Seq<u8>,
            >::empty());
            assert(out@.map_values(|v: Vec<u8>| v@) =~= self.spec_leaves());
        }
        out
    }
}

/// Push the leaf values of a subtree, left to right.
fn collect_leaves(t: &Tree, out: &mut Vec<Vec<u8>>)
    ensures
        final(out)@.map_values(|v: Vec<u8>| v@) == old(out)@.map_values(|v: Vec<u8>| v@)
            + tree_leaf_values(*t),
    decreases *t,
{
    match t {
        Tree::Empty { .. } => {
            proof {
                assert(final(out)@.map_values(|v: Vec<u8>| v@) =~= old(out)@.map_values(
                    |v: Vec<u8>| v@,
                ) + tree_leaf_values(*t));
            }
        },
        Tree::Leaf { value, .. } => {
            let v = copy_bytes(value);
            out.push(v);
            proof {
                assert(final(out)@.map_values(|v: Vec<u8>| v@) =~= old(out)@.map_values(
                    |v: Vec<u8>| v@,
                ) + tree_leaf_values(*t));
            }
        },
        Tree::Node { left, right, .. } => {
            collect_leaves(left, out);
            collect_leaves(right, out);
            proof {
                assert(final(out)@.map_values(|v: Vec<u8>| v@) =~= old(out)@.map_values(
                    |v: Vec<u8>| v@,
                ) + tree_leaf_values(*t));
            }
        },
    }
}

/// In a sound subtree the leaf hashes are the canonical digests of the
/// leaf values, position by position.
proof fn lemma_tree_leaf_hashes(t: Tree, algo: HashAlgo)
    requires tree_wf(t, algo),
    ensures
        tree_leaf_hashes(t).len() == tree_leaf_values(t).len(),
        forall|i: int| 0 <= i < tree_leaf_values(t).len()
            ==> #[trigger] tree_leaf_hashes(t)[i] == spec_hash_leaf(algo, tree_leaf_values(t)[i]),
    decreases t,
{
    match t {
        Tree::Empty { .. } => {},
        Tree::Leaf { .. } => {},
        Tree::Node { left, right, .. } => {
            lemma_tree_leaf_hashes(*left, algo);
            lemma_tree_leaf_hashes(*right, algo);
        },
    }
}

/// Tags a recorded lemma with the kind of tree node it came from.
pub enum Positioned<T> {
    Leaf(T),
    Node(T),
}

/// One step of a walk: the hash recorded at a node, the recorded steps
/// into its children where the walk descended, and the node's Bloom
/// filter where there was one.  A leaf record carries neither children
/// nor filter; a frontier record carries only the filter.
pub struct Lemma {
    pub node_hash: Vec<u8>,
    pub left_lemma: Option<Box<Positioned<Lemma>>>,
    pub right_lemma: Option<Box<Positioned<Lemma>>>,
    pub bloom_filter: Option<SeededBloomFilter>,
}

/// The lemma under either tag.
pub open spec fn pos_lemma(p: Positioned<Lemma>) -> Lemma {
    match p {
        Positioned::Leaf(l) => l,
        Positioned::Node(l) => l,
    }
}

/// Structural validity of a recorded walk: every inner record's hash
/// recomputes from its children and filter, a leaf record is bare, and
/// no frontier filter reports the target present.
pub open spec fn lemma_ok(l: Lemma, algo: HashAlgo, target: Seq<u8>) -> bool
    decreases l,
{
    match (l.left_lemma, l.right_lemma, l.bloom_filter) {
        (Some(lp), Some(rp), Some(bf)) => {
            &&& l.node_hash@ == spec_hash_nodes(
                algo,
                pos_lemma(*lp).node_hash@,
                pos_lemma(*rp).node_hash@,
                crate::bitset::bytes_of_words(bf.words()),
            )
            &&& pos_ok(*lp, algo, target)
            &&& pos_ok(*rp, algo, target)
        },
        (None, None, Some(bf)) => bf.wf() && !bf.has(target),
        (None, None, None) => true,
        _ => false,
    }
}

/// Validity of a child record: a leaf record must be bare, a node record
/// must itself be valid and carry a filter.
pub open spec fn pos_ok(p: Positioned<Lemma>, algo: HashAlgo, target: Seq<u8>) -> bool
    decreases p,
{
    match p {
        Positioned::Leaf(l) => l.left_lemma is None && l.right_lemma is None && l.bloom_filter
            is None,
        Positioned::Node(l) => lemma_ok(l, algo, target) && l.bloom_filter is Some,
    }
}

/// Whether the recorded walk reaches a leaf record holding the target.
pub open spec fn lemma_finds(l: Lemma, target: Seq<u8>) -> bool
    decreases l,
{
    match (l.left_lemma, l.right_lemma, l.bloom_filter) {
        (Some(lp), Some(rp), _) => pos_finds(*lp, target) || pos_finds(*rp, target),
        (None, None, None) => l.node_hash@ == target,
        _ => false,
    }
}

/// Whether a child record reaches the target.
pub open spec fn pos_finds(p: Positioned<Lemma>, target: Seq<u8>) -> bool
    decreases p,
{
    match p {
        Positioned::Leaf(l) => l.node_hash@ == target,
        Positioned::Node(l) => lemma_finds(l, target),
    }
}

/// The shape a recorded walk has against its tree: at a node whose
/// filter reports the needle the walk descends into both children; at
/// a node whose filter refuses it the walk stops in a bare frontier
/// carrying only the filter; at a leaf it records just the hash.
pub open spec fn lemma_shape(l: Lemma, t: Tree, needle: Seq<u8>) -> bool
    decreases t,
{
    match t {
        Tree::Empty { .. } => true,
        Tree::Leaf { .. } => l.left_lemma is None && l.right_lemma is None && l.bloom_filter
            is None,
        Tree::Node { left, right, bloom_filter, .. } => {
            if bloom_filter.has(needle) {
                &&& l.left_lemma is Some
                &&& l.right_lemma is Some
                &&& l.bloom_filter is Some
                &&& lemma_shape(pos_lemma(*(l.left_lemma->0)), *left, needle)
                &&& lemma_shape(pos_lemma(*(l.right_lemma->0)), *right, needle)
            } else {
                l.left_lemma is None && l.right_lemma is None && l.bloom_filter is Some
            }
        },
    }
}

impl Lemma {
    /// Record the walk for `needle` from the root of `tree`: descend into
    /// a node only where its filter reports the needle, record a bare
    /// frontier otherwise.  An empty tree records nothing.
    pub fn new(tree: &Tree, needle: &Vec<u8>, Ghost(algo): Ghost<HashAlgo>) -> (r: Option<
        Positioned<Lemma>,
    >)
        requires tree_wf(*tree, algo),
        ensures
            r is Some <==> !(*tree is Empty),
            match r {
                Some(p) => {
                    &&& pos_lemma(p).node_hash@ == tree_hash(*tree)
                    &&& pos_ok(p, algo, needle@)
                    &&& (p is Leaf <==> *tree is Leaf)
                    &&& (pos_finds(p, needle@) <==> tree_leaf_hashes(*tree).contains(needle@))
                    &&& lemma_shape(pos_lemma(p), *tree, needle@)
                },
                None => true,
            },
        decreases *tree, 1nat,
    {
        match tree {
            Tree::Empty { .. } => None,
            Tree::Leaf { hash, .. } => {
                let l = Lemma {
                    node_hash: copy_bytes(hash),
                    left_lemma: None,
                    right_lemma: None,
                    bloom_filter: None,
                };
                proof {
                    if tree_leaf_hashes(*tree).contains(needle@) {
                        assert(tree_leaf_hashes(*tree)[0] == needle@);
                    }
                    if hash@ == needle@ {
                        assert(tree_leaf_hashes(*tree)[0] == hash@);
                    }
                }
                Some(Positioned::Leaf(l))
            },
            Tree::Node { hash, left, right, bloom_filter } => Some(
                Self::new_tree_proof(hash, needle, left, right, bloom_filter, Ghost(algo), Ghost(
                    tree,
                )),
            ),
        }
    }

    /// The node case of the walk: descend when the filter reports the
    /// needle, record a frontier otherwise.
    fn new_tree_proof(
        hash: &Vec<u8>,
        needle: &Vec<u8>,
        left: &Tree,
        right: &Tree,
        bloom_filter: &SeededBloomFilter,
        Ghost(algo): Ghost<HashAlgo>,
        Ghost(tree): Ghost<&Tree>,
    ) -> (r: Positioned<Lemma>)
        requires
            tree_wf(*tree, algo),
            *tree == (Tree::Node {
                hash: *hash,
                left: Box::new(*left),
                right: Box::new(*right),
                bloom_filter: *bloom_filter,
            }),
        ensures
            pos_lemma(r).node_hash@ == tree_hash(*tree),
            pos_ok(r, algo, needle@),
            r is Node,
            pos_finds(r, needle@) <==> tree_leaf_hashes(*tree).contains(needle@),
            lemma_shape(pos_lemma(r), *tree, needle@),
        decreases *tree, 0nat,
    {
        let ghost lh = tree_leaf_hashes(*left);
        let ghost rh = tree_leaf_hashes(*right);
        proof {
            assert(tree_leaf_hashes(*tree) == lh + rh);
        }
        if bloom_filter.contains(needle) {
            let left_rec = Self::new(left, needle, Ghost(algo));
            let right_rec = Self::new(right, needle, Ghost(algo));
            let (lp, rp) = match (left_rec, right_rec) {
                (Some(lp), Some(rp)) => (lp, rp),
                _ => {
                    proof {
                        assert(false);
                    }
                    return Positioned::Node(Lemma {
                        node_hash: copy_bytes(hash),
                        left_lemma: None,
                        right_lemma: None,
                        bloom_filter: None,
                    });
                },
            };
            let l = Lemma {
                node_hash: copy_bytes(hash),
                left_lemma: Some(Box::new(lp)),
                right_lemma: Some(Box::new(rp)),
                bloom_filter: Some(bloom_filter.duplicate()),
            };
            proof {
                if pos_finds(Positioned::Node(l), needle@) {
                    assert(lh.contains(needle@) || rh.contains(needle@));
                    lemma_concat_contains(lh, rh, needle@);
                }
                if tree_leaf_hashes(*tree).contains(needle@) {
                    lemma_concat_contains(lh, rh, needle@);
                }
            }
            Positioned::Node(l)
        } else {
            let l = Lemma {
                node_hash: copy_bytes(hash),
                left_lemma: None,
                right_lemma: None,
                bloom_filter: Some(bloom_filter.duplicate()),
            };
            proof {
                if tree_leaf_hashes(*tree).contains(needle@) {
                    assert(bloom_filter.has(needle@));
                }
            }
            Positioned::Node(l)
        }
    }

    /// Check the recorded walk: recompute every inner hash, demand bare
    /// leaf records, and reject any frontier whose filter reports the
    /// target.
    pub fn validate(&self, algo: HashAlgo, target: &Vec<u8>) -> (r: bool)
        ensures r == lemma_ok(*self, algo, target@),
        decreases *self,
    {
        match (&self.left_lemma, &self.right_lemma, &self.bloom_filter) {
            (Some(lp), Some(rp), Some(bf)) => {
                let lhash = pos_hash_ref(lp);
                let rhash = pos_hash_ref(rp);
                let bytes = bf.to_bytes();
                let combined = hash_nodes(algo, lhash, rhash, &bytes);
                let structural = compare_bytes(&self.node_hash, &combined);
                structural && pos_validate(lp, algo, target) && pos_validate(rp, algo, target)
            },
            (None, None, Some(bf)) => {
                if bf.check_wf() {
                    !bf.contains(target)
                } else {
                    false
                }
            },
            (None, None, None) => true,
            _ => false,
        }
    }

    /// Whether the recorded walk reaches a leaf record holding the
    /// target.
    pub fn finds(&self, target: &Vec<u8>) -> (r: bool)
        ensures r == lemma_finds(*self, target@),
        decreases *self,
    {
        match (&self.left_lemma, &self.right_lemma, &self.bloom_filter) {
            (Some(lp), Some(rp), _) => pos_finds_exec(lp, target) || pos_finds_exec(rp, target),
            (None, None, None) => compare_bytes(&self.node_hash, target),
            _ => false,
        }
    }
}

/// The hash recorded in a child record.
fn pos_hash_ref(p: &Positioned<Lemma>) -> (r: &Vec<u8>)
    ensures r@ == pos_lemma(*p).node_hash@,
{
    match p {
        Positioned::Leaf(l) => &l.node_hash,
        Positioned::Node(l) => &l.node_hash,
    }
}

/// Check a child record.
fn pos_validate(p: &Positioned<Lemma>, algo: HashAlgo, target: &Vec<u8>) -> (r: bool)
    ensures r == pos_ok(*p, algo, target@),
    decreases *p,
{
    match p {
        Positioned::Leaf(l) => l.left_lemma.is_none() && l.right_lemma.is_none()
            && l.bloom_filter.is_none(),
        Positioned::Node(l) => {
            let ok = l.validate(algo, target);
            ok && l.bloom_filter.is_some()
        },
    }
}

/// Whether a child record reaches the target.
fn pos_finds_exec(p: &Positioned<Lemma>, target: &Vec<u8>) -> (r: bool)
    ensures r == pos_finds(*p, target@),
    decreases *p,
{
    match p {
        Positioned::Leaf(l) => compare_bytes(&l.node_hash, target),
        Positioned::Node(l) => l.finds(target),
    }
}

/// An element of a concatenation lies in one of the parts, and the other
/// way round.
proof fn lemma_concat_contains(a: Seq<Seq<u8>>, b: Seq<Seq<u8>>, x: Seq<u8>)
    ensures (a + b).contains(x) <==> (a.contains(x) || b.contains(x)),
{
    if (a + b).contains(x) {
        let i = choose|i: int| 0 <= i < (a + b).len() && (a + b)[i] == x;
        if i < a.len() {
            assert(a[i] == x);
        } else {
            assert(b[i - a.len()] == x);
        }
    }
    if a.contains(x) {
        let i = choose|i: int| 0 <= i < a.len() && a[i] == x;
        assert((a + b)[i] == x);
    }
    if b.contains(x) {
        let i = choose|i: int| 0 <= i < b.len() && b[i] == x;
        assert((a + b)[a.len() + i] == x);
    }
}

/// An inclusion proof: the claim that `value` is a leaf of the tree with
/// root hash `root_hash` under `algorithm`, witnessed by a recorded walk.
pub struct Proof {
    pub algorithm: HashAlgo,
    pub root_hash: Vec<u8>,
    pub lemma: Lemma,
    pub value: Vec<u8>,
}

/// When a proof is accepted against a root hash: its recorded root
/// matches, the walk is structurally valid for the claimed value's leaf
/// digest, and the walk reaches that digest.
pub open spec fn proof_valid(p: Proof, root: Seq<u8>) -> bool {
    let target = spec_hash_leaf(p.algorithm, p.value@);
    &&& p.root_hash@ == root
    &&& p.lemma.node_hash@ == root
    &&& lemma_ok(p.lemma, p.algorithm, target)
    &&& lemma_finds(p.lemma, target)
}

impl Proof {
    /// Assemble a proof from its parts.
    pub fn new(algorithm: HashAlgo, root_hash: Vec<u8>, lemma: Lemma, value: Vec<u8>) -> (r:
        Proof)
        ensures
            r.algorithm == algorithm,
            r.root_hash == root_hash,
            r.lemma == lemma,
            r.value == value,
    {
        Proof { algorithm, root_hash, lemma, value }
    }

    /// Accept or reject the proof against a claimed root hash.
    pub fn validate(&self, root_hash: &Vec<u8>) -> (r: bool)
        ensures r == proof_valid(*self, root_hash@),
    {
        if !compare_bytes(&self.root_hash, root_hash) {
            return false;
        }
        if !compare_bytes(&self.lemma.node_hash, root_hash) {
            return false;
        }
        let target = hash_leaf(self.algorithm, &self.value);
        self.lemma.validate(self.algorithm, &target) && self.lemma.finds(&target)
    }
}

/// A value the tree does not hold is never shown present.  Take any
/// proof whose validity is equivalent to the tree holding the value's
/// leaf digest (what `gen_proof` hands back); where the digests of the
/// stored leaves do not collide with the value's, the proof fails
/// validation.  A root-filter false positive may let `gen_proof`
/// descend, but the proof it returns still does not validate.
pub proof fn lemma_nonmember_claim_fails(t: BloomMerkleTree, p: Proof, value: Seq<u8>)
    requires
        t.wf(),
        !t.spec_leaves().contains(value),
        p.value@ == value,
        proof_valid(p, t.spec_root_hash()) <==> t.spec_leaf_hashes().contains(
            spec_hash_leaf(t.spec_algo(), value),
        ),
        forall|i: int| 0 <= i < t.spec_leaves().len() ==> (spec_hash_leaf(
            t.spec_algo(),
            #[trigger] t.spec_leaves()[i],
        ) == spec_hash_leaf(t.spec_algo(), value) ==> t.spec_leaves()[i] == value),
    ensures !proof_valid(p, t.spec_root_hash()),
{
    if proof_valid(p, t.spec_root_hash()) {
        let hs = t.spec_leaf_hashes();
        let i = choose|i: int| 0 <= i < hs.len() && hs[i] == spec_hash_leaf(
            t.spec_algo(),
            value,
        );
        t.lemma_leaf_hashes();
        assert(t.spec_leaves()[i] == value);
        assert(t.spec_leaves().contains(value));
    }
}

impl BloomMerkleTree {
    /// Record an inclusion proof for `value`.  A proof comes back for
    /// every value whose leaf digest the tree holds, and such a proof
    /// validates against this root; a proof for an absent digest, if one
    /// comes back at all, never validates.
    pub fn gen_proof(&self, value: Vec<u8>) -> (r: Option<Proof>)
        requires self.wf(),
        ensures
            self.spec_leaf_hashes().contains(
                spec_hash_leaf(self.spec_algo(), value@),
            ) ==> r is Some,
            match r {
                Some(p) => {
                    &&& p.value@ == value@
                    &&& p.algorithm == self.spec_algo()
                    &&& p.root_hash@ == self.spec_root_hash()
                    &&& (proof_valid(p, self.spec_root_hash()) <==> self.spec_leaf_hashes()
                        .contains(spec_hash_leaf(self.spec_algo(), value@)))
                },
                None => !self.spec_leaf_hashes().contains(
                    spec_hash_leaf(self.spec_algo(), value@),
                ),
            },
    {
        let target = hash_leaf(self.algorithm, &value);
        match &self.root {
            Tree::Empty { .. } => None,
            Tree::Leaf { hash, .. } => {
                if compare_bytes(hash, &target) {
                    let l = Lemma {
                        node_hash: copy_bytes(hash),
                        left_lemma: None,
                        right_lemma: None,
                        bloom_filter: None,
                    };
                    let root_hash = copy_bytes(hash);
                    let p = Proof::new(self.algorithm, root_hash, l, value);
                    proof {
                        assert(tree_leaf_hashes(self.root)[0] == hash@);
                    }
                    Some(p)
                } else {
                    proof {
                        if tree_leaf_hashes(self.root).contains(target@) {
                            assert(tree_leaf_hashes(self.root)[0] == target@);
                        }
                    }
                    None
                }
            },
            Tree::Node { .. } => {
                let rec = Lemma::new(&self.root, &target, Ghost(self.algorithm));
                match rec {
                    Some(pos) => {
                        let l = pos_into_lemma(pos);
                        let root_hash = copy_bytes(tree_hash_ref(&self.root));
                        let p = Proof::new(self.algorithm, root_hash, l, value);
                        Some(p)
                    },
                    None => {
                        proof {
                            assert(false);
                        }
                        None
                    },
                }
            },
        }
    }
}

/// Unwrap a child record.
fn pos_into_lemma(p: Positioned<Lemma>) -> (r: Lemma)
    ensures r == pos_lemma(p),
{
    match p {
        Positioned::Leaf(l) => l,
        Positioned::Node(l) => l,
    }
}

} // verus!
