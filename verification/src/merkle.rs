//! The Merkle tree over dependency records: deterministic construction from
//! an ordered sequence of leaf digests, root-digest computation, and
//! generation and verification of inclusion proofs.

use crate::dependency::Dependency;
use crate::dependency::FIELD_SEPARATOR;
use crate::dependency::canonical_bytes;
use crate::dependency::leaf_hash_of;
use crate::hashing::bytes_eq;
use crate::hashing::combine;
use crate::hashing::fits_sha256_input;
use crate::hashing::hex_of;
use crate::hashing::sha256;
use crate::hashing::sha256_of;
use crate::hashing::to_hex;
use vstd::prelude::*;
use vstd::slice::slice_to_vec;
use vstd::string::StrSliceExecFns;

verus! {

/// Which operand the sibling digest is when a proof step is folded.
#[derive(Debug, Clone, Copy, PartialEq, Eq, Structural)]
pub enum Side {
    Left,
    Right,
}

/// One step of an inclusion proof: the digest of the sibling subtree and the
/// side on which that sibling stands.
#[derive(Debug, Clone)]
pub struct ProofStep {
    pub sibling: Vec<u8>,
    pub side: Side,
}

/// Node of the Merkle tree: a digest together with owned child nodes. A node
/// has either two children or none.
#[derive(Debug)]
pub struct MerkleNode {
    hash: Vec<u8>,
    left: Option<Box<MerkleNode>>,
    right: Option<Box<MerkleNode>>,
}

/// Merkle tree for dependency verification: the ordered leaf digests the tree
/// was built from, and the root node over them.
#[derive(Debug)]
pub struct MerkleTree {
    root: Option<MerkleNode>,
    leaves: Vec<Vec<u8>>,
}

/// The midpoint of the bisection rule: the ceiling of half of `n`.
pub open spec fn ceil_half(n: int) -> int {
    (n + 1) / 2
}

/// Root digest of a non-empty ordered sequence of leaf digests. A single leaf
/// stands unchanged; a longer range splits at the ceiling of its half, and
/// the digests of the two sides are combined.
pub open spec fn root_of(leaves: Seq<Seq<u8>>) -> Seq<u8>
    recommends
        leaves.len() >= 1,
    decreases leaves.len(),
{
    if leaves.len() <= 1 {
        leaves.first()
    } else {
        combine(
            root_of(leaves.take(ceil_half(leaves.len() as int))),
            root_of(leaves.skip(ceil_half(leaves.len() as int))),
        )
    }
}

/// Depth of the leaf at `index` in the bisection tree over `n` leaves: the
/// number of internal nodes between the leaf and the root, inclusive.
pub open spec fn leaf_depth(n: int, index: int) -> int
    recommends
        1 <= n,
        0 <= index < n,
    decreases n,
{
    if n <= 1 {
        0
    } else if index < ceil_half(n) {
        1 + leaf_depth(ceil_half(n), index)
    } else {
        1 + leaf_depth(n - ceil_half(n), index - ceil_half(n))
    }
}

/// The digest a node carries.
pub closed spec fn node_digest(node: MerkleNode) -> Seq<u8> {
    node.hash@
}

/// The ordered leaf digests below a node, left to right.
pub closed spec fn node_leaves(node: MerkleNode) -> Seq<Seq<u8>>
    decreases node,
{
    match node.left {
        Option::Some(left) => match node.right {
            Option::Some(right) => node_leaves(*left) + node_leaves(*right),
            Option::None => seq![node.hash@],
        },
        Option::None => seq![node.hash@],
    }
}

/// Well-formed node: 32-byte digests throughout, children in pairs, the left
/// child covering the ceiling half of the leaves below, and each internal
/// digest combining its children's digests.
pub closed spec fn node_wf(node: MerkleNode) -> bool
    decreases node,
{
    match node.left {
        Option::Some(left) => match node.right {
            Option::Some(right) => {
                &&& node.hash@.len() == 32
                &&& node_wf(*left)
                &&& node_wf(*right)
                &&& node_leaves(*left).len() == ceil_half(
                    (node_leaves(*left).len() + node_leaves(*right).len()) as int,
                )
                &&& node.hash@ == combine(left.hash@, right.hash@)
            },
            Option::None => false,
        },
        Option::None => node.right is None && node.hash@.len() == 32,
    }
}

/// Every node covers at least one leaf digest.
pub proof fn lemma_node_leaves_nonempty(node: MerkleNode)
    ensures
        node_leaves(node).len() >= 1,
    decreases node,
{
    match node.left {
        Option::Some(left) => match node.right {
            Option::Some(right) => {
                lemma_node_leaves_nonempty(*left);
                lemma_node_leaves_nonempty(*right);
            },
            Option::None => {},
        },
        Option::None => {},
    }
}

/// The digest of a well-formed node is 32 bytes wide.
pub proof fn lemma_node_digest_len(node: MerkleNode)
    requires
        node_wf(node),
    ensures
        node_digest(node).len() == 32,
{
    match node.left {
        Option::Some(left) => {},
        Option::None => {},
    }
}

/// The digest of a well-formed node is the root digest of the leaves below
/// it, under the bisection rule.
pub proof fn lemma_node_digest(node: MerkleNode)
    requires
        node_wf(node),
    ensures
        node_digest(node) == root_of(node_leaves(node)),
    decreases node,
{
    match node.left {
        Option::Some(left) => match node.right {
            Option::Some(right) => {
                lemma_node_leaves_nonempty(*left);
                lemma_node_leaves_nonempty(*right);
                lemma_node_digest(*left);
                lemma_node_digest(*right);
                let all = node_leaves(node);
                let mid = ceil_half(all.len() as int);
                assert(all.take(mid) =~= node_leaves(*left));
                assert(all.skip(mid) =~= node_leaves(*right));
            },
            Option::None => {},
        },
        Option::None => {},
    }
}

/// The digest obtained by folding the proof steps over a leaf digest: each
/// step hashes the running digest with the sibling digest, the sibling taken
/// as the operand on its recorded side.
pub open spec fn fold_proof(leaf: Seq<u8>, steps: Seq<ProofStep>) -> Seq<u8>
    decreases steps.len(),
{
    if steps.len() == 0 {
        leaf
    } else {
        let step = steps.last();
        let below = fold_proof(leaf, steps.drop_last());
        match step.side {
            Side::Right => combine(below, step.sibling@),
            Side::Left => combine(step.sibling@, below),
        }
    }
}

/// Every sibling digest in the steps is 32 bytes wide.
pub open spec fn proof_steps_wf(steps: Seq<ProofStep>) -> bool {
    forall|i: int| 0 <= i < steps.len() ==> (#[trigger] steps[i]).sibling@.len() == 32
}

/// Position of the first vector holding the target bytes, if any.
fn find_digest(leaves: &Vec<Vec<u8>>, target: &Vec<u8>) -> (position: Option<usize>)
    ensures
        (match position {
            Option::Some(index) => index < leaves@.len() && leaves.deep_view()[index as int]
                == target@,
            Option::None => !leaves.deep_view().contains(target@),
        }),
{
    let mut i: usize = 0;
    while i < leaves.len()
        invariant
            i <= leaves@.len(),
            forall|j: int| 0 <= j < i ==> leaves.deep_view()[j] != target@,
        decreases leaves@.len() - i,
    {
        if bytes_eq(&leaves[i], target) {
            proof {
                assert(leaves.deep_view()[i as int] =~= leaves@[i as int]@);
            }
            return Some(i);
        }
        proof {
            assert(leaves.deep_view()[i as int] =~= leaves@[i as int]@);
        }
        i += 1;
    }
    proof {
        assert(forall|j: int|
            0 <= j < leaves.deep_view().len() ==> leaves.deep_view()[j] != target@);
    }
    None
}

impl MerkleTree {
    /// The ordered leaf digests the tree was built from.
    pub closed spec fn spec_leaves(&self) -> Seq<Seq<u8>> {
        self.leaves.deep_view()
    }

    /// The root digest, when the tree is non-empty.
    pub closed spec fn spec_root(&self) -> Option<Seq<u8>> {
        match self.root {
            Option::Some(node) => Option::Some(node.hash@),
            Option::None => Option::None,
        }
    }

    /// Well-formed tree: the root node exists exactly when there are leaves,
    /// it is well formed and covers exactly the stored leaf digests, and each
    /// stored leaf digest is 32 bytes.
    pub closed spec fn wf(&self) -> bool {
        &&& match self.root {
            Option::Some(node) => node_wf(node) && node_leaves(node) == self.spec_leaves(),
            Option::None => self.spec_leaves().len() == 0,
        }
        &&& forall|i: int|
            0 <= i < self.spec_leaves().len() ==> (#[trigger] self.spec_leaves()[i]).len() == 32
    }

    /// Creates a new empty Merkle tree.
    pub fn new() -> (tree: Self)
        ensures
            tree.wf(),
            tree.spec_leaves() == Seq::<Seq<u8>>::empty(),
            tree.spec_root() is None,
    {
        let tree = Self { root: None, leaves: Vec::new() };
        proof {
            assert(tree.spec_leaves() =~= Seq::<Seq<u8>>::empty());
        }
        tree
    }

    /// Builds the Merkle tree from a list of dependencies: the leaf digests
    /// are the records' canonical digests in the given order, and the root
    /// commits to all of them under the bisection rule. An empty list is
    /// rejected and leaves the tree empty; it never stands for a valid
    /// commitment.
    pub fn build_from_dependencies(&mut self, dependencies: Vec<Dependency>) -> (result: Result<
        (),
        String,
    >)
        requires
            forall|i: int|
                0 <= i < dependencies@.len() ==> fits_sha256_input(
                    canonical_bytes(#[trigger] dependencies@[i]).len() as int,
                ),
        ensures
            final(self).wf(),
            final(self).spec_leaves() == dependencies@.map_values(
                |dep: Dependency| leaf_hash_of(dep),
            ),
            result is Ok <==> dependencies@.len() >= 1,
            result is Ok ==> final(self).spec_root() == Some(
                root_of(final(self).spec_leaves()),
            ),
            result is Ok ==> final(self).spec_root()->Some_0.len() == 32,
            result is Err ==> final(self).spec_root() is None,
            result is Err ==> result->Err_0@ == "Cannot build tree from empty dependency list"@,
    {
        let ghost digests = dependencies@.map_values(|dep: Dependency| leaf_hash_of(dep));
        let mut leaves: Vec<Vec<u8>> = Vec::new();
        let mut i: usize = 0;
        while i < dependencies.len()
            invariant
                i <= dependencies@.len(),
                digests == dependencies@.map_values(|dep: Dependency| leaf_hash_of(dep)),
                leaves.deep_view() == digests.take(i as int),
                forall|j: int|
                    0 <= j < dependencies@.len() ==> fits_sha256_input(
                        canonical_bytes(#[trigger] dependencies@[j]).len() as int,
                    ),
                forall|j: int| 0 <= j < i ==> (#[trigger] leaves.deep_view()[j]).len() == 32,
            decreases dependencies@.len() - i,
        {
            let digest = self.hash_dependency(&dependencies[i]);
            let ghost pre = leaves@;
            let ghost previous = leaves.deep_view();
            leaves.push(digest);
            proof {
                assert(leaves@ == pre.push(digest));
                assert(previous.len() == i);
                assert(pre.len() == previous.len());
                assert(leaves@.len() == pre.len() + 1);
                assert(leaves.deep_view().len() == i + 1);
                assert forall|k: int| 0 <= k < i + 1 implies leaves.deep_view()[k] == digests.take(
                    i + 1,
                )[k] by {
                    if k < i {
                        assert(leaves@[k] == pre[k]);
                        assert(leaves.deep_view()[k] == previous[k]);
                    } else {
                        assert(leaves.deep_view()[k] =~= digest@);
                        assert(digests[k] == leaf_hash_of(dependencies@[k]));
                    }
                }
                assert(leaves.deep_view() =~= digests.take(i + 1));
            }
            i += 1;
        }
        proof {
            assert(digests.take(dependencies@.len() as int) =~= digests);
        }
        if leaves.is_empty() {
            self.leaves = leaves;
            self.root = None;
            return Err("Cannot build tree from empty dependency list".to_owned());
        }
        let root = self.build_tree_recursive(&leaves, 0, leaves.len());
        proof {
            assert(leaves.deep_view().subrange(0, leaves@.len() as int) =~= leaves.deep_view());
            lemma_node_digest_len(root);
        }
        self.root = Some(root);
        self.leaves = leaves;
        Ok(())
    }

    /// Canonical digest of one dependency record: the record's canonical byte
    /// encoding hashed with SHA-256. The digest is a function of the record's
    /// fields alone, so equal records give equal digests on every call.
    pub fn hash_dependency(&self, dependency: &Dependency) -> (digest: Vec<u8>)
        requires
            fits_sha256_input(canonical_bytes(*dependency).len() as int),
        ensures
            digest@ == leaf_hash_of(*dependency),
            digest@.len() == 32,
    {
        let mut bytes: Vec<u8> = Vec::new();
        let mut name_bytes = dependency.name.as_str().as_bytes_vec();
        bytes.append(&mut name_bytes);
        bytes.push(FIELD_SEPARATOR);
        let mut version_bytes = dependency.version.as_str().as_bytes_vec();
        bytes.append(&mut version_bytes);
        match &dependency.integrity {
            Some(integrity) => {
                bytes.push(FIELD_SEPARATOR);
                let mut integrity_bytes = integrity.as_str().as_bytes_vec();
                bytes.append(&mut integrity_bytes);
            },
            None => {},
        }
        match &dependency.resolved {
            Some(resolved) => {
                bytes.push(FIELD_SEPARATOR);
                let mut resolved_bytes = resolved.as_str().as_bytes_vec();
                bytes.append(&mut resolved_bytes);
            },
            None => {},
        }
        proof {
            assert(bytes@ =~= canonical_bytes(*dependency));
        }
        sha256(&bytes)
    }

    /// Digest of an internal node: the hash of the two child digests, left
    /// operand first.
    pub fn hash_combine(&self, left: &Vec<u8>, right: &Vec<u8>) -> (digest: Vec<u8>)
        requires
            fits_sha256_input((left@.len() + right@.len()) as int),
        ensures
            digest@ == combine(left@, right@),
            digest@.len() == 32,
    {
        let mut data = slice_to_vec(left.as_slice());
        let mut tail = slice_to_vec(right.as_slice());
        data.append(&mut tail);
        sha256(&data)
    }

    /// Builds the subtree over the leaf digests in `hashes[lo..hi]`: a range
    /// of one digest is a leaf node holding it unchanged, and a longer range
    /// splits at the ceiling of its half.
    pub fn build_tree_recursive(&self, hashes: &Vec<Vec<u8>>, lo: usize, hi: usize) -> (node:
        MerkleNode)
        requires
            lo < hi <= hashes@.len(),
            forall|i: int| lo <= i < hi ==> (#[trigger] hashes.deep_view()[i]).len() == 32,
        ensures
            node_wf(node),
            node_leaves(node) == hashes.deep_view().subrange(lo as int, hi as int),
            node_digest(node) == root_of(hashes.deep_view().subrange(lo as int, hi as int)),
        decreases hi - lo,
    {
        let span = hi - lo;
        if span == 1 {
            let node = MerkleNode {
                hash: slice_to_vec(hashes[lo].as_slice()),
                left: None,
                right: None,
            };
            proof {
                assert(hashes@[lo as int]@ == hashes.deep_view()[lo as int]);
                assert(node_leaves(node) =~= hashes.deep_view().subrange(lo as int, hi as int));
            }
            node
        } else {
            let mid = lo + span / 2 + span % 2;
            let left = self.build_tree_recursive(hashes, lo, mid);
            let right = self.build_tree_recursive(hashes, mid, hi);
            let digest = self.hash_combine(&left.hash, &right.hash);
            let node = MerkleNode {
                hash: digest,
                left: Some(Box::new(left)),
                right: Some(Box::new(right)),
            };
            proof {
                let all = hashes.deep_view().subrange(lo as int, hi as int);
                assert(node_leaves(node) =~= all);
                lemma_node_digest(node);
            }
            node
        }
    }

    /// Calculates the root hash of the Merkle tree.
    pub fn root_hash(&self) -> (digest: Option<Vec<u8>>)
        ensures
            match digest {
                Option::Some(d) => self.spec_root() == Some(d@),
                Option::None => self.spec_root() is None,
            },
    {
        match &self.root {
            Some(node) => Some(slice_to_vec(node.hash.as_slice())),
            None => None,
        }
    }

    /// Returns the root hash as a lowercase hexadecimal string.
    pub fn root_hash_hex(&self) -> (text: Option<String>)
        ensures
            match text {
                Option::Some(t) => self.spec_root() is Some && t@ == hex_of(
                    self.spec_root()->Some_0,
                ),
                Option::None => self.spec_root() is None,
            },
    {
        match self.root_hash() {
            Some(digest) => Some(to_hex(&digest)),
            None => None,
        }
    }

    /// Verifies a Merkle proof: folds the sibling digests over the leaf
    /// digest, each on its recorded side, and compares the result with the
    /// claimed root. Returns true exactly when the fold reaches the claim.
    pub fn verify_proof(&self, leaf_hash: &Vec<u8>, steps: &Vec<ProofStep>, root_hash: &Vec<u8>)
        -> (valid: bool)
        requires
            leaf_hash@.len() == 32,
            proof_steps_wf(steps@),
        ensures
            valid == (fold_proof(leaf_hash@, steps@) == root_hash@),
    {
        let mut current = slice_to_vec(leaf_hash.as_slice());
        let mut i: usize = 0;
        while i < steps.len()
            invariant
                i <= steps@.len(),
                proof_steps_wf(steps@),
                current@.len() == 32,
                current@ == fold_proof(leaf_hash@, steps@.take(i as int)),
            decreases steps@.len() - i,
        {
            let step = &steps[i];
            current = match step.side {
                Side::Right => self.hash_combine(&current, &step.sibling),
                Side::Left => self.hash_combine(&step.sibling, &current),
            };
            proof {
                assert(steps@.take(i + 1).drop_last() =~= steps@.take(i as int));
                assert(steps@.take(i + 1).last() == steps@[i as int]);
            }
            i += 1;
        }
        proof {
            assert(steps@.take(steps@.len() as int) =~= steps@);
        }
        bytes_eq(&current, root_hash)
    }

    /// Generates a proof of inclusion for a given dependency: the sibling
    /// digests along the path from the record's leaf up to the root, each with
    /// its side. Returns a proof exactly when the record's canonical digest is
    /// among the tree's leaves, and that proof folds the digest back up to
    /// this tree's root, which is the root digest of the stored leaves.
    pub fn generate_proof(&self, dependency: &Dependency) -> (result: Option<Vec<ProofStep>>)
        requires
            self.wf(),
            fits_sha256_input(canonical_bytes(*dependency).len() as int),
        ensures
            result is Some <==> self.spec_leaves().contains(leaf_hash_of(*dependency)),
            (match result {
                Option::Some(steps) => {
                    &&& proof_steps_wf(steps@)
                    &&& fold_proof(leaf_hash_of(*dependency), steps@) == root_of(
                        self.spec_leaves(),
                    )
                    &&& self.spec_root() == Some(root_of(self.spec_leaves()))
                    &&& exists|j: int|
                        {
                            &&& 0 <= j < self.spec_leaves().len()
                            &&& #[trigger] self.spec_leaves()[j] == leaf_hash_of(*dependency)
                            &&& steps@.len() == leaf_depth(self.spec_leaves().len() as int, j)
                        }
                },
                Option::None => true,
            }),
    {
        let leaf_hash = self.hash_dependency(dependency);
        match find_digest(&self.leaves, &leaf_hash) {
            Some(index) => {
                proof {
                    assert(self.spec_leaves()[index as int] == leaf_hash@);
                }
                match &self.root {
                    Some(node) => {
                        let steps = self.generate_proof_recursive(node, index, self.leaves.len());
                        proof {
                            lemma_wf_root_commits_to_leaves(*self);
                        }
                        Some(steps)
                    },
                    None => unreached(),
                }
            },
            None => None,
        }
    }

    /// Walks the bisection of a well-formed node down to the leaf at
    /// `leaf_index`, collecting the digest and side of the sibling subtree at
    /// each level, ordered from the leaf's immediate sibling up to the digest
    /// combined directly under this node. Folding the steps over that leaf
    /// digest yields this node's digest.
    pub fn generate_proof_recursive(
        &self,
        node: &MerkleNode,
        leaf_index: usize,
        total_leaves: usize,
    ) -> (steps: Vec<ProofStep>)
        requires
            node_wf(*node),
            total_leaves == node_leaves(*node).len(),
            leaf_index < total_leaves,
        ensures
            proof_steps_wf(steps@),
            fold_proof(node_leaves(*node)[leaf_index as int], steps@) == node_digest(*node),
            steps@.len() == leaf_depth(total_leaves as int, leaf_index as int),
        decreases total_leaves,
    {
        match (&node.left, &node.right) {
            (Some(left), Some(right)) => {
                proof {
                    lemma_node_leaves_nonempty(**left);
                    lemma_node_leaves_nonempty(**right);
                }
                let mid = total_leaves / 2 + total_leaves % 2;
                proof {
                    assert(node_leaves(**left).len() == mid);
                }
                if leaf_index < mid {
                    let mut steps = self.generate_proof_recursive(left, leaf_index, mid);
                    let ghost below = steps@;
                    let step = ProofStep {
                        sibling: slice_to_vec(right.hash.as_slice()),
                        side: Side::Right,
                    };
                    steps.push(step);
                    proof {
                        lemma_node_digest_len(**right);
                        assert(steps@.drop_last() =~= below);
                        assert(steps@.last() == step);
                        assert forall|k: int| 0 <= k < steps@.len() implies (#[trigger] steps@[k])
                            .sibling@.len() == 32 by {
                            if k < below.len() {
                                assert(steps@[k] == below[k]);
                            }
                        }
                        assert(node_leaves(*node)[leaf_index as int] == node_leaves(
                            **left,
                        )[leaf_index as int]);
                    }
                    steps
                } else {
                    let mut steps = self.generate_proof_recursive(
                        right,
                        leaf_index - mid,
                        total_leaves - mid,
                    );
                    let ghost below = steps@;
                    let step = ProofStep {
                        sibling: slice_to_vec(left.hash.as_slice()),
                        side: Side::Left,
                    };
                    steps.push(step);
                    proof {
                        lemma_node_digest_len(**left);
                        assert(steps@.drop_last() =~= below);
                        assert(steps@.last() == step);
                        assert forall|k: int| 0 <= k < steps@.len() implies (#[trigger] steps@[k])
                            .sibling@.len() == 32 by {
                            if k < below.len() {
                                assert(steps@[k] == below[k]);
                            }
                        }
                        assert(node_leaves(*node)[leaf_index as int] == node_leaves(**right)[
                        leaf_index - mid]);
                    }
                    steps
                }
            },
            _ => {
                proof {
                    assert(node_leaves(*node) =~= seq![node.hash@]);
                }
                Vec::new()
            },
        }
    }

    /// Verifies that a dependency is included in the tree: true exactly when
    /// the proof folds the dependency's canonical digest up to this tree's
    /// root. An empty tree includes nothing.
    pub fn verify_inclusion(&self, dependency: &Dependency, steps: &Vec<ProofStep>) -> (valid:
        bool)
        requires
            fits_sha256_input(canonical_bytes(*dependency).len() as int),
            proof_steps_wf(steps@),
        ensures
            valid == (match self.spec_root() {
                Option::Some(root) => fold_proof(leaf_hash_of(*dependency), steps@) == root,
                Option::None => false,
            }),
    {
        match &self.root {
            Some(root) => {
                let leaf_hash = self.hash_dependency(dependency);
                self.verify_proof(&leaf_hash, steps, &root.hash)
            },
            None => false,
        }
    }
}

/// A well-formed tree has a root exactly when it has leaves, and the root
/// digest, when present, is 32 bytes wide.
pub proof fn lemma_wf_root_width(tree: MerkleTree)
    requires
        tree.wf(),
    ensures
        tree.spec_root() is Some <==> tree.spec_leaves().len() >= 1,
        tree.spec_root() is Some ==> tree.spec_root()->Some_0.len() == 32,
{
    match tree.root {
        Option::Some(node) => {
            lemma_node_digest_len(node);
            lemma_node_leaves_nonempty(node);
        },
        Option::None => {},
    }
}

/// The root digest of a non-empty well-formed tree is the root digest of its
/// ordered leaf digests: the tree structure adds nothing beyond the leaves
/// and their order.
pub proof fn lemma_wf_root_commits_to_leaves(tree: MerkleTree)
    requires
        tree.wf(),
        tree.spec_leaves().len() >= 1,
    ensures
        tree.spec_root() == Some(root_of(tree.spec_leaves())),
{
    match tree.root {
        Option::Some(node) => lemma_node_digest(node),
        Option::None => assert(false),
    }
}

/// A tree built from a single leaf digest has that digest as its root,
/// unchanged: no hashing is applied at the leaf level.
pub proof fn lemma_single_leaf_root(digest: Seq<u8>)
    ensures
        root_of(seq![digest]) == digest,
{
    assert(seq![digest].first() == digest);
}

/// Swapping two distinct digests of equal width changes the bytes the root is
/// computed from: the root over `[a, b]` hashes `a ++ b`, the root over
/// `[b, a]` hashes `b ++ a`, and those two byte sequences differ. That the
/// two roots themselves differ then rests on the hash function being free of
/// collisions.
pub proof fn lemma_order_changes_root_preimage(a: Seq<u8>, b: Seq<u8>)
    requires
        a.len() == b.len(),
        a != b,
    ensures
        root_of(seq![a, b]) == sha256_of(a + b),
        root_of(seq![b, a]) == sha256_of(b + a),
        a + b != b + a,
{
    let pair = seq![a, b];
    assert(pair.take(1) =~= seq![a]);
    assert(pair.skip(1) =~= seq![b]);
    lemma_single_leaf_root(a);
    lemma_single_leaf_root(b);
    let swapped = seq![b, a];
    assert(swapped.take(1) =~= seq![b]);
    assert(swapped.skip(1) =~= seq![a]);
    if a + b == b + a {
        assert forall|k: int| 0 <= k < a.len() implies a[k] == b[k] by {
            assert((a + b)[k] == a[k]);
            assert((b + a)[k] == b[k]);
        }
        assert(a =~= b);
    }
}

impl Default for MerkleTree {
    /// An empty tree.
    fn default() -> (tree: Self)
        ensures
            tree.wf(),
            tree.spec_leaves() == Seq::<Seq<u8>>::empty(),
            tree.spec_root() is None,
    {
        Self::new()
    }
}

} // verus!
