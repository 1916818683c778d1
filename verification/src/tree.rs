//! A binary Merkle tree over a padded word list, with inclusion proofs.
//!
//! The tree is an arena of levels: level 1 holds one leaf node per padded
//! word (the word's Keccak-256 hash in hex), and every higher level pairs
//! the nodes of the level below, left then right, until a single root
//! remains. An inclusion proof records the sibling hash at every level on
//! the way up from a leaf; validation recomputes the root from a claimed
//! leaf hash and those siblings and compares it to the stored root.

use vstd::prelude::*;

use vstd::arithmetic::div_mod::{
    lemma_div_denominator, lemma_div_pos_is_pos, lemma_fundamental_div_mod,
    lemma_multiply_divide_lt,
};
use vstd::arithmetic::power2::{
    lemma2_to64, lemma_pow2_adds, lemma_pow2_pos, lemma_pow2_strictly_increases,
    lemma_pow2_unfold, pow2,
};

use crate::hasher::{combined_hash, hash_combination, hash_words, keccak_256, word_hash};

verus! {

/// One node of the tree: its hex hash, the 1-based level it sits on, the
/// indices of its two children on the level below (for leaves, `(0, 0)`),
/// and its 0-based position within its level.
#[derive(Debug)]
pub struct Node {
    pub hash: String,
    pub level: u32,
    pub parent_index: (u32, u32),
    pub index: usize,
}

impl Clone for Node {
    fn clone(&self) -> (r: Self)
        ensures
            r == *self,
    {
        Node {
            hash: self.hash.clone(),
            level: self.level,
            parent_index: self.parent_index,
            index: self.index,
        }
    }
}

/// One step of an inclusion proof: the sibling node's level, its index
/// within that level, and its hash.
#[derive(Debug)]
pub struct ProofEntry {
    pub level: u32,
    pub index: usize,
    pub hash: String,
}

impl Clone for ProofEntry {
    fn clone(&self) -> (r: Self)
        ensures
            r == *self,
    {
        ProofEntry { level: self.level, index: self.index, hash: self.hash.clone() }
    }
}

/// An inclusion proof: the sibling entries from the leaf level up to one
/// below the root, and the result of checking them against the stored root.
#[derive(Debug)]
pub struct InclusionProof {
    pub proof: Vec<ProofEntry>,
    pub is_valid: bool,
}

impl Clone for InclusionProof {
    fn clone(&self) -> (r: Self)
        ensures
            r.proof@ == self.proof@,
            r.is_valid == self.is_valid,
    {
        let mut entries: Vec<ProofEntry> = Vec::new();
        let mut i: usize = 0;
        while i < self.proof.len()
            invariant
                i <= self.proof@.len(),
                entries@.len() == i,
                forall|j: int| 0 <= j < i ==> entries@[j] == self.proof@[j],
            decreases self.proof@.len() - i,
        {
            entries.push(self.proof[i].clone());
            i = i + 1;
        }
        proof {
            assert(entries@ =~= self.proof@);
        }
        InclusionProof { proof: entries, is_valid: self.is_valid }
    }
}

/// A candidate replacement word for one leaf, held beside the tree while
/// the caller checks whether it would belong to the existing commitment.
#[derive(Debug)]
pub struct WordToProve {
    pub word: String,
    pub index: usize,
    pub hash: String,
    pub display_hash: String,
}

/// The tree itself: the levels of nodes (position `k` holds level `k + 1`),
/// the padded word list aligned with the leaves, the level count, the root
/// node once built, and at most one proof and one pending word at a time.
#[derive(Debug)]
pub struct MerkleTree {
    pub root: Option<Node>,
    pub nodes: Vec<Vec<Node>>,
    pub words: Vec<String>,
    pub levels: u32,
    pub proof: Option<InclusionProof>,
    pub word_to_prove: Option<WordToProve>,
}

/// The views of a list of owned words.
pub open spec fn words_view(words: Seq<String>) -> Seq<Seq<char>> {
    words.map_values(|w: String| w@)
}

/// The views of a list of borrowed words.
pub open spec fn strs_view(words: Seq<&str>) -> Seq<Seq<char>> {
    words.map_values(|w: &str| w@)
}

/// The leaf hash of each word, in order.
pub open spec fn leaf_hashes(words: Seq<Seq<char>>) -> Seq<Seq<char>> {
    words.map_values(|w: Seq<char>| word_hash(w))
}

/// One pairing step: entry `i` combines the hashes at `2i` and `2i + 1`,
/// left then right.
pub open spec fn combine_level(hashes: Seq<Seq<char>>) -> Seq<Seq<char>> {
    Seq::new(hashes.len() / 2, |i: int| combined_hash(hashes[2 * i], hashes[2 * i + 1]))
}

/// The hashes at height `k` above the leaves: `k` pairing steps applied to
/// the leaf hashes.
pub open spec fn level_hashes(leaves: Seq<Seq<char>>, k: nat) -> Seq<Seq<char>>
    decreases k,
{
    if k == 0 {
        leaves
    } else {
        combine_level(level_hashes(leaves, (k - 1) as nat))
    }
}

/// The sentinel word appended to bring a word list up to a supported size.
pub open spec fn pad_token() -> Seq<char> {
    "<pad>"@
}

/// The leaf count a word list of length `n` is padded to: strictly between
/// 4 and 8 pads to 8, strictly between 8 and 16 pads to 16, anything else
/// is left as it is.
pub open spec fn padded_len(n: int) -> int {
    if 4 < n < 8 {
        8
    } else if 8 < n < 16 {
        16
    } else {
        n
    }
}

/// A word list extended with pad tokens up to its padded length. Existing
/// entries keep their place; padding only appends.
pub open spec fn padded_words(words: Seq<Seq<char>>) -> Seq<Seq<char>> {
    words + Seq::new((padded_len(words.len() as int) - words.len()) as nat, |i: int| pad_token())
}

/// Applying `k` pairing steps to `pow2(n)` leaves gives `pow2(n - k)`
/// hashes: each step exactly halves an even level.
pub proof fn lemma_level_hashes_len(leaves: Seq<Seq<char>>, n: nat, k: nat)
    requires
        leaves.len() == pow2(n),
        k <= n,
    ensures
        level_hashes(leaves, k).len() == pow2((n - k) as nat),
    decreases k,
{
    if k == 0 {
    } else {
        lemma_level_hashes_len(leaves, n, (k - 1) as nat);
        lemma_pow2_unfold((n - k + 1) as nat);
        lemma_pow2_pos((n - k) as nat);
        assert(level_hashes(leaves, (k - 1) as nat).len() == 2 * pow2((n - k) as nat));
        assert((2 * pow2((n - k) as nat) as int) / 2 == pow2((n - k) as nat));
    }
}

impl MerkleTree {
    /// The number of pairing steps between the leaf level and the root.
    pub open spec fn height(self) -> nat {
        (self.levels - 1) as nat
    }

    /// The leaf hashes the tree's word list determines.
    pub open spec fn leaves(self) -> Seq<Seq<char>> {
        leaf_hashes(words_view(self.words@))
    }

    /// The hashes the tree must carry at height `k` above the leaves.
    pub open spec fn level_at(self, k: int) -> Seq<Seq<char>> {
        level_hashes(self.leaves(), k as nat)
    }

    /// The root hash the tree's word list determines.
    pub open spec fn root_hash(self) -> Seq<char> {
        self.level_at(self.levels - 1)[0]
    }

    /// The node at height `k`, position `i`, carries the hash the word
    /// list determines there, and its level, index and child references
    /// match its position.
    pub open spec fn node_wf(self, k: int, i: int) -> bool {
        let n = self.nodes@[k]@[i];
        &&& n.hash@ == self.level_at(k)[i]
        &&& n.level == k + 1
        &&& n.index == i
        &&& n.parent_index == (
            if k == 0 {
                (0u32, 0u32)
            } else {
                ((2 * i) as u32, (2 * i + 1) as u32)
            }
        )
    }

    /// Structural well-formedness: a supported leaf count, one node list
    /// per level of the right length, every node in place, and the single
    /// root recorded from the top level.
    pub open spec fn tree_wf(self) -> bool {
        &&& 3 <= self.levels <= 5
        &&& self.words@.len() == pow2(self.height())
        &&& self.nodes@.len() == self.levels
        &&& forall|k: int|
            0 <= k < self.nodes@.len() ==> #[trigger] self.nodes@[k]@.len() == pow2(
                (self.height() - k) as nat,
            )
        &&& forall|k: int, i: int|
            0 <= k < self.nodes@.len() && 0 <= i < self.nodes@[k]@.len() ==> self.node_wf(k, i)
        &&& self.root matches Some(root) && root == self.nodes@[self.levels - 1]@[0]
    }

    /// A stored proof, if any, has one entry per level below the root.
    pub open spec fn proof_wf(self) -> bool {
        self.proof matches Some(p) ==> p.proof@.len() + 1 == self.levels
    }

    pub open spec fn wf(self) -> bool {
        &&& self.tree_wf()
        &&& self.proof_wf()
    }
}

impl Default for InclusionProof {
    fn default() -> (r: Self)
        ensures
            r.proof@.len() == 0,
            !r.is_valid,
    {
        InclusionProof { proof: Vec::new(), is_valid: false }
    }
}

impl Default for WordToProve {
    fn default() -> (r: Self)
        ensures
            r.word@.len() == 0,
            r.index == 0,
            r.hash@.len() == 0,
            r.display_hash@.len() == 0,
    {
        WordToProve {
            word: String::new(),
            index: 0,
            hash: String::new(),
            display_hash: String::new(),
        }
    }
}

impl Default for Node {
    fn default() -> (r: Self)
        ensures
            r.hash@.len() == 0,
            r.level == 0,
            r.parent_index == (0u32, 0u32),
            r.index == 0,
    {
        Node { hash: String::new(), level: 0, parent_index: (0, 0), index: 0 }
    }
}

impl Default for MerkleTree {
    fn default() -> (r: Self)
        ensures
            r.root is None,
            r.nodes@.len() == 0,
            r.words@.len() == 0,
            r.levels == 3,
            r.proof is None,
            r.word_to_prove is None,
    {
        MerkleTree {
            root: None,
            nodes: Vec::new(),
            words: Vec::new(),
            levels: 3,
            proof: None,
            word_to_prove: None,
        }
    }
}

/// Pads a word list up to a supported leaf count: a length strictly
/// between 4 and 8 is extended with the pad token to 8 entries, one
/// strictly between 8 and 16 to 16 entries, and any other length is
/// returned unchanged. Existing entries are never reordered or dropped.
pub fn pad_words<'a>(words: Vec<&'a str>) -> (r: Vec<&'a str>)
    ensures
        strs_view(r@) == padded_words(strs_view(words@)),
        r@.len() == padded_len(words@.len() as int),
        forall|i: int| 0 <= i < words@.len() ==> r@[i] == words@[i],
{
    let ghost original: Seq<&str> = words@;
    let len = words.len();
    let target: usize = if len > 4 && len < 8 {
        8
    } else if len > 8 && len < 16 {
        16
    } else {
        len
    };
    let mut padded = words;
    while padded.len() < target
        invariant
            original.len() <= padded@.len() <= target,
            target == padded_len(original.len() as int),
            forall|i: int| 0 <= i < original.len() ==> padded@[i] == original[i],
            forall|i: int| original.len() <= i < padded@.len() ==> padded@[i]@ == pad_token(),
        decreases target - padded@.len(),
    {
        padded.push("<pad>");
    }
    proof {
        assert(strs_view(padded@) =~= padded_words(strs_view(original)));
    }
    padded
}

impl MerkleTree {
    /// Sets up a tree holding only its leaf level: one node per word,
    /// carrying that word's hash, with the level count the word count
    /// determines. `build` then fills in the levels above.
    fn new(hashes: &Vec<String>, words: Vec<String>) -> (t: MerkleTree)
        requires
            hashes@.len() == words@.len(),
            words@.len() == 4 || words@.len() == 8 || words@.len() == 16,
            forall|i: int| 0 <= i < words@.len() ==> hashes@[i]@ == word_hash(words@[i]@),
        ensures
            t.words@ == words@,
            3 <= t.levels <= 5,
            t.words@.len() == pow2(t.height()),
            t.nodes@.len() == 1,
            t.nodes@[0]@.len() == t.words@.len(),
            forall|i: int| 0 <= i < t.nodes@[0]@.len() ==> t.node_wf(0, i),
            t.root is None,
            t.proof is None,
            t.word_to_prove is None,
    {
        let mut nodes: Vec<Node> = Vec::new();
        let mut i: usize = 0;
        while i < hashes.len()
            invariant
                i <= hashes@.len(),
                nodes@.len() == i,
                forall|j: int|
                    0 <= j < i ==> {
                        let n = #[trigger] nodes@[j];
                        &&& n.hash@ == hashes@[j]@
                        &&& n.level == 1
                        &&& n.index == j
                        &&& n.parent_index == (0u32, 0u32)
                    },
            decreases hashes@.len() - i,
        {
            let node = Node { hash: hashes[i].clone(), level: 1, parent_index: (0, 0), index: i };
            nodes.push(node);
            i = i + 1;
        }
        let levels: u32 = if words.len() == 4 {
            3
        } else if words.len() == 8 {
            4
        } else {
            5
        };
        let mut level_lists: Vec<Vec<Node>> = Vec::new();
        level_lists.push(nodes);
        let t = MerkleTree {
            root: None,
            nodes: level_lists,
            words,
            levels,
            proof: None,
            word_to_prove: None,
        };
        proof {
            lemma2_to64();
        }
        t
    }

    /// Builds the levels above the leaves: each level pairs the one below
    /// it, index 0 with 1, 2 with 3, and so on, left child first in every
    /// combination; the single node of the top level becomes the root.
    fn build(&mut self)
        requires
            3 <= old(self).levels <= 5,
            old(self).words@.len() == pow2(old(self).height()),
            old(self).nodes@.len() == 1,
            old(self).nodes@[0]@.len() == old(self).words@.len(),
            forall|i: int| 0 <= i < old(self).nodes@[0]@.len() ==> old(self).node_wf(0, i),
            old(self).root is None,
        ensures
            final(self).tree_wf(),
            final(self).words == old(self).words,
            final(self).levels == old(self).levels,
            final(self).proof == old(self).proof,
            final(self).word_to_prove == old(self).word_to_prove,
    {
        while self.nodes.len() < self.levels as usize
            invariant
                3 <= self.levels <= 5,
                self.words == old(self).words,
                self.levels == old(self).levels,
                self.proof == old(self).proof,
                self.word_to_prove == old(self).word_to_prove,
                self.words@.len() == pow2(self.height()),
                1 <= self.nodes@.len() <= self.levels,
                forall|k: int|
                    0 <= k < self.nodes@.len() ==> #[trigger] self.nodes@[k]@.len() == pow2(
                        (self.height() - k) as nat,
                    ),
                forall|k: int, i: int|
                    0 <= k < self.nodes@.len() && 0 <= i < self.nodes@[k]@.len()
                        ==> self.node_wf(k, i),
                self.nodes@.len() < self.levels ==> self.root is None,
                self.nodes@.len() == self.levels ==> (self.root matches Some(r) && r
                    == self.nodes@[self.levels - 1]@[0]),
            decreases self.levels - self.nodes@.len(),
        {
            let ghost self0 = *self;
            let cur_k = self.nodes.len() - 1;
            let n_cur = self.nodes[cur_k].len();
            proof {
                assert(self.nodes@[cur_k as int]@.len() == pow2(
                    (self.height() - cur_k) as nat,
                ));
                lemma_pow2_unfold((self.height() - cur_k) as nat);
                lemma2_to64();
                if ((self.height() - cur_k) as nat) < 4 {
                    lemma_pow2_strictly_increases((self.height() - cur_k) as nat, 4);
                }
                assert(n_cur % 2 == 0);
                assert(n_cur <= 16);
                lemma_level_hashes_len(self.leaves(), self.height(), cur_k as nat);
            }
            let ghost half = pow2((self.height() - cur_k - 1) as nat);
            let mut new_nodes: Vec<Node> = Vec::new();
            let mut idx: usize = 0;
            while idx < n_cur
                invariant
                    idx <= n_cur,
                    idx % 2 == 0,
                    n_cur % 2 == 0,
                    n_cur <= 16,
                    cur_k <= 3,
                    *self == self0,
                    0 <= cur_k < self.nodes@.len(),
                    n_cur == self.nodes@[cur_k as int]@.len(),
                    n_cur == self.level_at(cur_k as int).len(),
                    forall|i: int|
                        0 <= i < self.nodes@[cur_k as int]@.len() ==> self.node_wf(cur_k as int, i),
                    new_nodes@.len() == idx / 2,
                    forall|j: int|
                        0 <= j < new_nodes@.len() ==> {
                            let n = #[trigger] new_nodes@[j];
                            &&& n.hash@ == combined_hash(
                                self.level_at(cur_k as int)[2 * j],
                                self.level_at(cur_k as int)[2 * j + 1],
                            )
                            &&& n.level == cur_k + 2
                            &&& n.index == j
                            &&& n.parent_index == ((2 * j) as u32, (2 * j + 1) as u32)
                        },
                decreases n_cur - idx,
            {
                proof {
                    assert(self.node_wf(cur_k as int, idx as int));
                    assert(self.node_wf(cur_k as int, idx as int + 1));
                }
                let hash = hash_combination(
                    &self.nodes[cur_k][idx].hash,
                    &self.nodes[cur_k][idx + 1].hash,
                );
                let node = Node {
                    hash,
                    level: (cur_k as u32) + 2,
                    parent_index: (idx as u32, (idx + 1) as u32),
                    index: new_nodes.len(),
                };
                new_nodes.push(node);
                idx = idx + 2;
            }
            if self.nodes.len() + 1 == self.levels as usize {
                self.root = Some(new_nodes[0].clone());
            }
            self.nodes.push(new_nodes);
            proof {
                let new_k = self.nodes@.len() - 1;
                assert(self.words == self0.words);
                assert(self.nodes@[new_k]@ == new_nodes@);
                assert(forall|k: int| 0 <= k < new_k ==> self.nodes@[k] == self0.nodes@[k]);
                lemma_level_hashes_len(self.leaves(), self.height(), new_k as nat);
                lemma_level_hashes_len(self.leaves(), self.height(), (new_k - 1) as nat);
                lemma_pow2_unfold((self.height() - new_k + 1) as nat);
                assert(idx == n_cur);
                assert(self.level_at(new_k - 1) == self0.level_at(cur_k as int));
                assert(self.level_at(new_k) == combine_level(self.level_at(new_k - 1)));
                assert(self.nodes@[new_k]@.len() == pow2((self.height() - new_k) as nat));
                assert forall|i: int|
                    0 <= i < self.nodes@[new_k]@.len() implies self.node_wf(new_k, i) by {
                    assert(self.level_at(new_k)[i] == combined_hash(
                        self.level_at(new_k - 1)[2 * i],
                        self.level_at(new_k - 1)[2 * i + 1],
                    ));
                };
                assert forall|k: int, i: int|
                    0 <= k < new_k && 0 <= i < self.nodes@[k]@.len() implies self.node_wf(
                    k,
                    i,
                ) by {
                    assert(self0.node_wf(k, i));
                    assert(self.nodes@[k]@ == self0.nodes@[k]@);
                    assert(self.level_at(k) == self0.level_at(k));
                };
            }
        }
    }
}

/// The index of the node paired with the node at index `i` of some level:
/// the right neighbour of an even index, the left neighbour of an odd one.
pub open spec fn sibling_of(i: int) -> int {
    if i % 2 == 0 {
        i + 1
    } else {
        i - 1
    }
}

/// The root recomputed from a claimed leaf hash and the sibling entries of
/// a proof, in level order: a sibling at an even index is the left operand
/// of the combination, one at an odd index the right operand.
pub open spec fn recompute_root(cur: Seq<char>, entries: Seq<ProofEntry>) -> Seq<char>
    decreases entries.len(),
{
    if entries.len() == 0 {
        cur
    } else {
        let e = entries[0];
        let next = if e.index % 2 == 0 {
            combined_hash(e.hash@, cur)
        } else {
            combined_hash(cur, e.hash@)
        };
        recompute_root(next, entries.drop_first())
    }
}

/// Folds a start hash with sibling entries in order: at each step the
/// sibling's hash is the left operand when its index is even, the right
/// operand when it is odd.
fn fold_entries(start: String, entries: &Vec<ProofEntry>) -> (r: String)
    ensures
        r@ == recompute_root(start@, entries@),
{
    let ghost entv = entries@;
    let ghost startv = start@;
    proof {
        assert(entv.skip(0) =~= entv);
    }
    let mut current_hash = start;
    let mut j: usize = 0;
    while j < entries.len()
        invariant
            j <= entv.len(),
            entries@ == entv,
            recompute_root(startv, entv) == recompute_root(current_hash@, entv.skip(j as int)),
        decreases entv.len() - j,
    {
        proof {
            assert(entv.skip(j as int)[0] == entv[j as int]);
            assert(entv.skip(j as int).drop_first() =~= entv.skip(j as int + 1));
        }
        let e = &entries[j];
        if e.index % 2 == 0 {
            current_hash = hash_combination(&e.hash, &current_hash);
        } else {
            current_hash = hash_combination(&current_hash, &e.hash);
        }
        j = j + 1;
    }
    proof {
        assert(entv.skip(entv.len() as int) =~= Seq::<ProofEntry>::empty());
    }
    current_hash
}

impl MerkleTree {
    /// Entry `j` of a proof for leaf `w` names the sibling, at height `j`,
    /// of the ancestor of leaf `w` there, and carries that sibling's hash.
    pub open spec fn proof_entry_matches(self, w: int, j: int, e: ProofEntry) -> bool {
        let cur = w / pow2(j as nat) as int;
        let sib = sibling_of(cur);
        &&& e.level == j + 1
        &&& e.index == sib
        &&& e.hash@ == self.level_at(j)[sib]
    }

    /// `p` is the inclusion proof for leaf `w` of this tree: one sibling
    /// entry per level below the root, each in its place.
    pub open spec fn proof_for(self, p: InclusionProof, w: int) -> bool {
        &&& p.proof@.len() + 1 == self.levels
        &&& forall|j: int|
            0 <= j < p.proof@.len() ==> self.proof_entry_matches(w, j, #[trigger] p.proof@[j])
    }

    /// The hash validation starts from for leaf `w`: the pending word's
    /// hash if one is recorded for this leaf, else the leaf's stored hash.
    pub open spec fn start_hash(self, w: int) -> Seq<char> {
        match self.word_to_prove {
            Some(rec) => if rec.index == w {
                rec.hash@
            } else {
                self.leaves()[w]
            },
            None => self.leaves()[w],
        }
    }

    /// Folding the hash at height `j0`, position `w / pow2(j0)`, with the
    /// remaining sibling entries of a proof for leaf `w` yields the root
    /// hash. Each fold step reproduces one pairing step of the build.
    proof fn lemma_recompute_to_root(self, w: int, entries: Seq<ProofEntry>, j0: nat)
        requires
            self.tree_wf(),
            0 <= w < pow2(self.height()),
            j0 <= self.height(),
            entries.len() == self.height() - j0,
            forall|j: int|
                0 <= j < entries.len() ==> self.proof_entry_matches(w, j0 + j, #[trigger] entries[j]),
        ensures
            recompute_root(self.level_at(j0 as int)[w / pow2(j0) as int], entries)
                == self.root_hash(),
        decreases entries.len(),
    {
        lemma_level_hashes_len(self.leaves(), self.height(), j0);
        lemma_pow2_pos(j0);
        let len_j0 = pow2((self.height() - j0) as nat) as int;
        let cur = w / pow2(j0) as int;
        lemma_div_pos_is_pos(w, pow2(j0) as int);
        assert(pow2(j0) * pow2((self.height() - j0) as nat) == pow2(self.height())) by {
            lemma_pow2_adds(j0, (self.height() - j0) as nat);
        }
        lemma_multiply_divide_lt(w, pow2(j0) as int, len_j0);
        assert(0 <= cur < len_j0);
        if entries.len() == 0 {
            lemma2_to64();
            assert(len_j0 == 1);
            assert(cur == 0);
        } else {
            let e = entries[0];
            assert(self.proof_entry_matches(w, j0 as int, e));
            let sib = sibling_of(cur);
            lemma_pow2_unfold((self.height() - j0) as nat);
            assert(len_j0 % 2 == 0);
            lemma_fundamental_div_mod(cur, 2);
            assert(self.level_at(j0 as int + 1) == combine_level(self.level_at(j0 as int)));
            let next = if cur % 2 == 0 {
                assert(sib == cur + 1);
                assert(sib < len_j0);
                assert(2 * (cur / 2) == cur);
                assert(self.level_at(j0 as int + 1)[cur / 2] == combined_hash(
                    self.level_at(j0 as int)[cur],
                    self.level_at(j0 as int)[sib],
                ));
                combined_hash(self.level_at(j0 as int)[cur], e.hash@)
            } else {
                assert(sib == cur - 1);
                assert(cur / 2 == (cur - 1) / 2);
                assert(2 * (cur / 2) == cur - 1);
                assert(self.level_at(j0 as int + 1)[cur / 2] == combined_hash(
                    self.level_at(j0 as int)[sib],
                    self.level_at(j0 as int)[cur],
                ));
                combined_hash(e.hash@, self.level_at(j0 as int)[cur])
            };
            assert(next == self.level_at(j0 as int + 1)[cur / 2]);
            assert(recompute_root(self.level_at(j0 as int)[cur], entries) == recompute_root(
                next,
                entries.drop_first(),
            ));
            lemma_div_denominator(w, pow2(j0) as int, 2);
            lemma_pow2_adds(j0, 1);
            lemma2_to64();
            assert(w / pow2(j0 + 1) as int == cur / 2);
            assert(forall|j: int|
                0 <= j < entries.drop_first().len() ==> self.proof_entry_matches(
                    w,
                    j0 + 1 + j,
                    #[trigger] entries.drop_first()[j],
                ));
            self.lemma_recompute_to_root(w, entries.drop_first(), j0 + 1);
        }
    }

    /// Checks the stored proof: recomputes the root from the start hash
    /// for leaf `word_index` (the leaf's stored hash, or the pending
    /// word's hash if one is recorded for this leaf) and the stored
    /// sibling entries, and compares it with the stored root hash.
    /// Returns `false` when no proof has been generated.
    pub fn validate_inclusion_proof(&self, word_index: usize) -> (valid: bool)
        requires
            self.wf(),
            word_index < self.words@.len(),
        ensures
            valid == match self.proof {
                Some(p) => recompute_root(self.start_hash(word_index as int), p.proof@)
                    == self.root_hash(),
                None => false,
            },
    {
        proof {
            assert(self.nodes@[0]@.len() == pow2((self.height() - 0) as nat));
            assert(self.node_wf(0, word_index as int));
        }
        let leaf = &self.nodes[0][word_index];
        let mut current_hash = leaf.hash.clone();
        match &self.word_to_prove {
            Some(rec) => {
                if rec.index == word_index {
                    current_hash = rec.hash.clone();
                }
            },
            None => {},
        }
        proof {
            assert(current_hash@ == self.start_hash(word_index as int));
        }
        match &self.proof {
            Some(p) => {
                let computed = fold_entries(current_hash, &p.proof);
                proof {
                    lemma2_to64();
                    assert(self.nodes@[self.levels - 1]@.len() == pow2(
                        (self.height() - (self.levels - 1)) as nat,
                    ));
                    assert(self.node_wf(self.levels - 1, 0));
                }
                let top = self.levels as usize - 1;
                let root_node = &self.nodes[top][0];
                computed.eq(&root_node.hash)
            },
            None => false,
        }
    }

    /// Generates the inclusion proof for leaf `word_index`: walks from the
    /// leaf up to one level below the root, recording the sibling node's
    /// level, index and hash at every step, then validates the fresh proof
    /// and stores it, with its validity flag, on the tree. A proof stored
    /// before is superseded. When no pending word overrides this leaf's
    /// hash, the fresh proof is always valid.
    pub fn inclusion_proof(&mut self, word_index: usize)
        requires
            old(self).wf(),
            word_index < old(self).words@.len(),
        ensures
            final(self).root == old(self).root,
            final(self).nodes == old(self).nodes,
            final(self).words == old(self).words,
            final(self).levels == old(self).levels,
            final(self).word_to_prove == old(self).word_to_prove,
            final(self).wf(),
            final(self).proof matches Some(p) && {
                &&& final(self).proof_for(p, word_index as int)
                &&& p.is_valid == (recompute_root(
                    final(self).start_hash(word_index as int),
                    p.proof@,
                ) == final(self).root_hash())
            },
            (match old(self).word_to_prove {
                Some(rec) => rec.index != word_index,
                None => true,
            }) ==> (final(self).proof matches Some(p) && p.is_valid),
    {
        let ghost w = word_index as int;
        let mut entries: Vec<ProofEntry> = Vec::new();
        let mut current_index: usize = word_index;
        let mut level: u32 = 1;
        proof {
            lemma2_to64();
            assert(current_index as int == w / pow2(0) as int);
            assert(self.nodes@[0]@.len() == pow2((self.height() - 0) as nat));
        }
        while level < self.levels
            invariant
                self.wf(),
                word_index < self.words@.len(),
                w == word_index as int,
                1 <= level <= self.levels,
                entries@.len() == level - 1,
                current_index as int == w / pow2((level - 1) as nat) as int,
                current_index < pow2((self.height() - (level - 1)) as nat),
                forall|j: int|
                    0 <= j < entries@.len() ==> self.proof_entry_matches(
                        w,
                        j,
                        #[trigger] entries@[j],
                    ),
            decreases self.levels - level,
        {
            let k = (level - 1) as usize;
            proof {
                assert(self.nodes@[k as int]@.len() == pow2((self.height() - k) as nat));
                lemma_pow2_unfold((self.height() - k) as nat);
                lemma_level_hashes_len(self.leaves(), self.height(), k as nat);
            }
            let sibling_index = if current_index % 2 == 0 {
                current_index + 1
            } else {
                current_index - 1
            };
            proof {
                assert(self.node_wf(k as int, sibling_index as int));
            }
            let sib = &self.nodes[k][sibling_index];
            entries.push(ProofEntry { level, index: sibling_index, hash: sib.hash.clone() });
            current_index = current_index / 2;
            proof {
                lemma_pow2_pos((level - 1) as nat);
                lemma_div_denominator(w, pow2((level - 1) as nat) as int, 2);
                lemma_pow2_adds((level - 1) as nat, 1);
                lemma2_to64();
                assert(current_index as int == w / pow2(level as nat) as int);
                lemma_multiply_divide_lt(
                    w / pow2((level - 1) as nat) as int,
                    2,
                    pow2((self.height() - level) as nat) as int,
                );
            }
            level = level + 1;
        }
        proof {
            assert(self.nodes@[0]@.len() == pow2((self.height() - 0) as nat));
            assert(self.node_wf(0, w));
        }
        let leaf = &self.nodes[0][word_index];
        let mut start = leaf.hash.clone();
        match &self.word_to_prove {
            Some(rec) => {
                if rec.index == word_index {
                    start = rec.hash.clone();
                }
            },
            None => {},
        }
        proof {
            assert(start@ == self.start_hash(w));
        }
        let ghost entv = entries@;
        let computed = fold_entries(start, &entries);
        proof {
            lemma2_to64();
            assert(self.nodes@[self.levels - 1]@.len() == pow2(
                (self.height() - (self.levels - 1)) as nat,
            ));
            assert(self.node_wf(self.levels - 1, 0));
        }
        let top = self.levels as usize - 1;
        let valid = computed.eq(&self.nodes[top][0].hash);
        let ghost self1 = *self;
        self.proof = Some(InclusionProof { proof: entries, is_valid: valid });
        proof {
            assert(self.words == self1.words);
            assert(self.nodes == self1.nodes);
            assert(self.levels == self1.levels);
            assert(self.root == self1.root);
            assert(self.word_to_prove == self1.word_to_prove);
            assert forall|k: int| 0 <= k < self.nodes@.len() implies #[trigger] self.nodes@[k]@.len()
                == pow2((self.height() - k) as nat) by {
                assert(self1.nodes@[k]@.len() == pow2((self1.height() - k) as nat));
            };
            assert forall|k: int, i: int|
                0 <= k < self.nodes@.len() && 0 <= i < self.nodes@[k]@.len() implies self.node_wf(
                k,
                i,
            ) by {
                assert(self1.node_wf(k, i));
            };
            assert(self.tree_wf());
            let p = self.proof.unwrap();
            assert forall|j: int| 0 <= j < entv.len() implies self.proof_entry_matches(
                w,
                j,
                #[trigger] entv[j],
            ) by {
                assert(self1.proof_entry_matches(w, j, entv[j]));
                assert(self.level_at(j) == self1.level_at(j));
            };
            assert(self.proof_for(p, w));
            assert(self.start_hash(w) == self1.start_hash(w));
            assert(p.is_valid == (recompute_root(self.start_hash(w), p.proof@)
                == self.root_hash()));
            match &self.word_to_prove {
                Some(rec) => {
                    if rec.index != word_index {
                        self.lemma_generated_proof_recomputes_root(p, w);
                    }
                },
                None => {
                    self.lemma_generated_proof_recomputes_root(p, w);
                },
            }
        }
    }

    /// Law: an inclusion proof generated for leaf `w` of a well-formed
    /// tree, folded from that leaf's own stored hash, recomputes exactly
    /// the stored root, so validating a fresh proof against the committed
    /// word list succeeds.
    pub proof fn lemma_generated_proof_recomputes_root(self, p: InclusionProof, w: int)
        requires
            self.tree_wf(),
            0 <= w < self.words@.len(),
            self.proof_for(p, w),
        ensures
            recompute_root(self.leaves()[w], p.proof@) == self.root_hash(),
    {
        lemma2_to64();
        assert(w / pow2(0) as int == w);
        self.lemma_recompute_to_root(w, p.proof@, 0);
    }
}

/// A hash abbreviated for display: unchanged when it is no longer than
/// `first + last` characters, else its first `first` and last `last`
/// characters joined by the separator.
pub open spec fn abbreviated(h: Seq<char>, first: int, last: int, dots: Seq<char>) -> Seq<char> {
    if h.len() <= first + last {
        h
    } else {
        h.subrange(0, first) + dots + h.subrange(h.len() - last, h.len() as int)
    }
}

/// Well-formedness of the tree structure depends only on the tree fields,
/// not on the stored proof or the pending word.
proof fn lemma_tree_wf_same_fields(a: MerkleTree, b: MerkleTree)
    requires
        a.tree_wf(),
        b.words == a.words,
        b.nodes == a.nodes,
        b.levels == a.levels,
        b.root == a.root,
    ensures
        b.tree_wf(),
{
    assert forall|k: int| 0 <= k < b.nodes@.len() implies #[trigger] b.nodes@[k]@.len() == pow2(
        (b.height() - k) as nat,
    ) by {
        assert(a.nodes@[k]@.len() == pow2((a.height() - k) as nat));
    };
    assert forall|k: int, i: int|
        0 <= k < b.nodes@.len() && 0 <= i < b.nodes@[k]@.len() implies b.node_wf(k, i) by {
        assert(a.node_wf(k, i));
    };
}

/// Law: a well-formed tree over `n` leaf words has exactly `log2(n) + 1`
/// levels (so `n == pow2(levels - 1)`) and exactly one node, the root, on
/// its top level.
pub proof fn lemma_one_root(t: MerkleTree)
    requires
        t.tree_wf(),
    ensures
        pow2((t.levels - 1) as nat) == t.words@.len(),
        t.nodes@.len() == t.levels,
        t.nodes@[t.levels - 1]@.len() == 1,
        t.root is Some,
{
    lemma2_to64();
    assert(t.nodes@[t.levels - 1]@.len() == pow2((t.height() - (t.levels - 1)) as nat));
}

/// Law: the root hash is a function of the word list alone. Any two
/// well-formed trees over the same words carry the same level count and
/// the same root hash.
pub proof fn lemma_build_deterministic(a: MerkleTree, b: MerkleTree)
    requires
        a.tree_wf(),
        b.tree_wf(),
        words_view(a.words@) == words_view(b.words@),
    ensures
        a.levels == b.levels,
        a.root_hash() == b.root_hash(),
{
    assert(words_view(a.words@).len() == a.words@.len());
    assert(words_view(b.words@).len() == b.words@.len());
    assert(a.words@.len() == b.words@.len());
    if a.height() < b.height() {
        lemma_pow2_strictly_increases(a.height(), b.height());
    }
    if b.height() < a.height() {
        lemma_pow2_strictly_increases(b.height(), a.height());
    }
    assert(a.leaves() == b.leaves());
}

/// Law: rebuilding after replacing a leaf word with its own current value
/// keeps the root hash unchanged.
pub proof fn lemma_rebuild_with_same_word(t: MerkleTree, r: MerkleTree, i: int)
    requires
        t.tree_wf(),
        r.tree_wf(),
        0 <= i < t.words@.len(),
        words_view(r.words@) == words_view(t.words@).update(i, words_view(t.words@)[i]),
    ensures
        r.root_hash() == t.root_hash(),
{
    assert(words_view(t.words@).update(i, words_view(t.words@)[i]) =~= words_view(t.words@));
    lemma_build_deterministic(t, r);
}

/// Builds a full tree from a word list: pads the list to a supported leaf
/// count, hashes every padded word into a leaf, and combines sibling pairs
/// level by level up to a single root. The produced tree carries no proof
/// and no pending word.
pub fn build_tree(words: Vec<&str>) -> (t: MerkleTree)
    requires
        4 <= words@.len() <= 16,
    ensures
        t.wf(),
        words_view(t.words@) == padded_words(strs_view(words@)),
        t.root is Some,
        t.proof is None,
        t.word_to_prove is None,
{
    let padded = pad_words(words);
    let mut owned: Vec<String> = Vec::new();
    let mut i: usize = 0;
    while i < padded.len()
        invariant
            i <= padded@.len(),
            owned@.len() == i,
            forall|j: int| 0 <= j < i ==> owned@[j]@ == padded@[j]@,
        decreases padded@.len() - i,
    {
        owned.push(String::from_str(padded[i]));
        i = i + 1;
    }
    proof {
        assert(words_view(owned@) =~= strs_view(padded@));
    }
    let hashes = hash_words(padded);
    let mut tree = MerkleTree::new(&hashes, owned);
    tree.build();
    tree
}

impl MerkleTree {
    /// Abbreviates a hash for display: a string longer than
    /// `first_len + last_len` characters is shown as its first `first_len`
    /// and last `last_len` characters joined by `dots`; a shorter one is
    /// returned unchanged.
    pub fn format_hash(hash: &str, first_len: usize, last_len: usize, dots: &str) -> (r: String)
        ensures
            r@ == abbreviated(hash@, first_len as int, last_len as int, dots@),
    {
        let n = hash.unicode_len();
        if n <= first_len || n - first_len <= last_len {
            return hash.to_owned();
        }
        let head = hash.substring_char(0, first_len);
        let tail = hash.substring_char(n - last_len, n);
        let mut r = String::from_str(head);
        r.append(dots);
        r.append(tail);
        r
    }

    /// Replaces the word at `leaf_index` with `new_word` and rebuilds the
    /// whole tree over the updated word list. The old tree, its proof and
    /// its pending word are discarded; nothing is updated incrementally.
    pub fn replace_and_rebuild(&self, leaf_index: usize, new_word: &str) -> (t: MerkleTree)
        requires
            self.wf(),
            leaf_index < self.words@.len(),
        ensures
            t.wf(),
            words_view(t.words@) == words_view(self.words@).update(leaf_index as int, new_word@),
            t.root is Some,
            t.proof is None,
            t.word_to_prove is None,
    {
        let mut updated: Vec<&str> = Vec::new();
        let mut i: usize = 0;
        while i < self.words.len()
            invariant
                i <= self.words@.len(),
                leaf_index < self.words@.len(),
                updated@.len() == i,
                forall|j: int|
                    0 <= j < i ==> #[trigger] updated@[j]@ == (if j == leaf_index {
                        new_word@
                    } else {
                        self.words@[j]@
                    }),
            decreases self.words@.len() - i,
        {
            if i == leaf_index {
                updated.push(new_word);
            } else {
                updated.push(self.words[i].as_str());
            }
            i = i + 1;
        }
        proof {
            lemma2_to64();
            assert(4 <= updated@.len() <= 16);
        }
        let t = build_tree(updated);
        proof {
            assert(padded_words(strs_view(updated@)) =~= strs_view(updated@));
            assert(strs_view(updated@) =~= words_view(self.words@).update(
                leaf_index as int,
                new_word@,
            ));
        }
        t
    }

    /// Checks a replacement word against the existing commitment without
    /// changing it: hashes `new_word`, rebuilds the tree from the
    /// unchanged word list, and records the pending word beside it. The
    /// caller then generates and validates a proof for `leaf_index`; the
    /// result says whether `new_word` belongs to the committed tree.
    pub fn check_without_rebuilding(&self, leaf_index: usize, new_word: &str) -> (t: MerkleTree)
        requires
            self.wf(),
            leaf_index < self.words@.len(),
        ensures
            t.wf(),
            words_view(t.words@) == words_view(self.words@),
            t.root is Some,
            t.proof is None,
            t.word_to_prove matches Some(rec) && {
                &&& rec.index == leaf_index
                &&& rec.word@ == new_word@
                &&& rec.hash@ == word_hash(new_word@)
                &&& rec.display_hash@ == abbreviated(word_hash(new_word@), 6, 6, "..."@)
            },
    {
        let mut copies: Vec<&str> = Vec::new();
        let mut i: usize = 0;
        while i < self.words.len()
            invariant
                i <= self.words@.len(),
                copies@.len() == i,
                forall|j: int| 0 <= j < i ==> #[trigger] copies@[j]@ == self.words@[j]@,
            decreases self.words@.len() - i,
        {
            copies.push(self.words[i].as_str());
            i = i + 1;
        }
        proof {
            lemma2_to64();
            assert(4 <= copies@.len() <= 16);
        }
        let mut t = build_tree(copies);
        let hash = keccak_256(new_word);
        let display_hash = MerkleTree::format_hash(hash.as_str(), 6, 6, "...");
        let ghost t0 = t;
        t.word_to_prove = Some(
            WordToProve { word: new_word.to_owned(), index: leaf_index, hash, display_hash },
        );
        proof {
            lemma_tree_wf_same_fields(t0, t);
            assert(padded_words(strs_view(copies@)) =~= strs_view(copies@));
            assert(strs_view(copies@) =~= words_view(self.words@));
        }
        t
    }
}

} // verus!
