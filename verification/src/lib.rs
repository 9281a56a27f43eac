//! A binary Merkle commitment tree with domain-separated ("tagged") hashing.
//!
//! The tree commits to an ordered sequence of leaf records: layer 0 holds the
//! tagged hash of each leaf under the leaf tag, every further layer pairs
//! adjacent digests and hashes their concatenation under the branch tag, and
//! the last layer holds the single root digest. A layer of odd length (other
//! than the root layer) is padded by duplicating its last digest before
//! pairing, so every stored non-root layer has even length and every node has
//! a sibling. Inclusion proofs list, from the leaf layer upward, the sibling
//! digest at each level together with the side the sibling sits on.

use vstd::prelude::*;
use vstd::utf8::encode_utf8;

pub mod hash;
pub mod encoding;
pub mod record;
pub mod usecase;

use hash::{spec_tagged_hash, tagged_hash};
use encoding::{spec_hex, hex_encode};

verus! {

/// A layered binary hash tree over an ordered leaf sequence, together with
/// the two domain tags it was built with. Layer 0 holds the (padded) leaf
/// digests; the last layer holds the single root digest.
#[derive(Debug, Clone)]
pub struct MerkleTree {
    pub layers: Vec<Vec<[u8; 32]>>,
    pub leaf_tag: String,
    pub branch_tag: String,
}

/// The mathematical value of one stored layer: its digests as byte sequences.
pub open spec fn digests_view(layer: Vec<[u8; 32]>) -> Seq<Seq<u8>> {
    layer@.map_values(|d: [u8; 32]| d@)
}

/// The mathematical value of the stored layer stack.
pub open spec fn layers_deep(layers: Vec<Vec<[u8; 32]>>) -> Seq<Seq<Seq<u8>>> {
    layers@.map_values(|l: Vec<[u8; 32]>| digests_view(l))
}

/// Pad a layer of odd length (other than a root layer of length 1) by
/// duplicating its last digest, so that every digest has a sibling.
pub open spec fn spec_pad(layer: Seq<Seq<u8>>) -> Seq<Seq<u8>> {
    if layer.len() > 1 && layer.len() % 2 == 1 {
        layer.push(layer.last())
    } else {
        layer
    }
}

/// Hash consecutive pairs of an even-length layer into the next layer up:
/// element `i` is the tagged hash of the raw 64-byte concatenation of the
/// digests at `2i` and `2i + 1`, left digest first, under the branch tag.
pub open spec fn spec_combine(layer: Seq<Seq<u8>>, branch_tag_bytes: Seq<u8>) -> Seq<Seq<u8>> {
    Seq::new(layer.len() / 2, |i: int| spec_tagged_hash(layer[2 * i] + layer[2 * i + 1], branch_tag_bytes))
}

/// All layers of the tree grown from `layer`: each layer is padded, then
/// pairs are combined until a single digest is left. The first element is
/// the padded form of `layer` itself; the last is the root layer.
pub open spec fn spec_build_layers(layer: Seq<Seq<u8>>, branch_tag_bytes: Seq<u8>) -> Seq<Seq<Seq<u8>>>
    decreases layer.len(),
{
    let padded = spec_pad(layer);
    if padded.len() <= 1 {
        seq![padded]
    } else {
        seq![padded] + spec_build_layers(spec_combine(padded, branch_tag_bytes), branch_tag_bytes)
    }
}

/// The digests at layer 0, before padding: the tagged hash of each leaf in
/// input order, or the sentinel hash of the empty byte string when there are
/// no leaves at all.
pub open spec fn spec_leaf_layer(leaf_bytes: Seq<Seq<u8>>, leaf_tag_bytes: Seq<u8>) -> Seq<Seq<u8>> {
    if leaf_bytes.len() == 0 {
        seq![spec_tagged_hash(Seq::<u8>::empty(), leaf_tag_bytes)]
    } else {
        leaf_bytes.map_values(|b: Seq<u8>| spec_tagged_hash(b, leaf_tag_bytes))
    }
}

/// The complete stored tree determined by the leaves and the two tags.
pub open spec fn spec_tree_layers(
    leaf_bytes: Seq<Seq<u8>>,
    leaf_tag_bytes: Seq<u8>,
    branch_tag_bytes: Seq<u8>,
) -> Seq<Seq<Seq<u8>>> {
    spec_build_layers(spec_leaf_layer(leaf_bytes, leaf_tag_bytes), branch_tag_bytes)
}

/// The length a layer has after padding.
pub open spec fn spec_padded_len(n: int) -> int {
    if n > 1 && n % 2 == 1 {
        n + 1
    } else {
        n
    }
}

/// Structural well-formedness: at least one layer, a single digest in the
/// root layer, and every other layer of even length at least 2 whose
/// successor has exactly the padded length of half as many digests.
pub open spec fn shape_wf(layers: Seq<Seq<Seq<u8>>>) -> bool {
    &&& layers.len() >= 1
    &&& layers.last().len() == 1
    &&& forall|i: int| #![trigger layers[i]] 0 <= i < layers.len() - 1 ==> {
        &&& layers[i].len() >= 2
        &&& layers[i].len() % 2 == 0
        &&& layers[i + 1].len() == spec_padded_len(layers[i].len() as int / 2)
    }
}

/// Hash well-formedness: structural well-formedness, with every layer above
/// the first obtained from its predecessor by combining pairs under the
/// branch tag and padding.
pub open spec fn tree_wf(layers: Seq<Seq<Seq<u8>>>, branch_tag_bytes: Seq<u8>) -> bool {
    &&& layers.len() >= 1
    &&& layers.last().len() == 1
    &&& forall|i: int| #![trigger layers[i]] 0 <= i < layers.len() - 1 ==> {
        &&& layers[i].len() >= 2
        &&& layers[i].len() % 2 == 0
        &&& layers[i + 1] == spec_pad(spec_combine(layers[i], branch_tag_bytes))
    }
}

impl MerkleTree {
    /// The mathematical value of this tree's layers.
    pub open spec fn layers_view(self) -> Seq<Seq<Seq<u8>>> {
        layers_deep(self.layers)
    }

    /// Build the tree for `leaves` under the given leaf and branch tags.
    ///
    /// The stored layers are exactly `spec_tree_layers` of the leaves' bytes:
    /// layer 0 is the padded sequence of leaf digests (the sentinel hash of
    /// the empty byte string when `leaves` is empty), and each further layer
    /// combines consecutive pairs under the branch tag, padding odd layers by
    /// duplicating their last digest.
    pub fn new(leaves: &[&str], leaf_tag: String, branch_tag: String) -> (tree: Self)
        ensures
            tree.leaf_tag@ == leaf_tag@,
            tree.branch_tag@ == branch_tag@,
            tree.layers_view() == spec_tree_layers(
                leaves@.map_values(|s: &str| encode_utf8(s@)),
                encode_utf8(leaf_tag@),
                encode_utf8(branch_tag@),
            ),
            tree_wf(tree.layers_view(), encode_utf8(branch_tag@)),
            shape_wf(tree.layers_view()),
            forall|i: int| 0 <= i < tree.layers_view()[0].len() ==> spec_replay(
                #[trigger] spec_proof(tree.layers_view(), i),
                tree.layers_view()[0][i],
                encode_utf8(branch_tag@),
            ) == tree.layers_view().last()[0],
    {
        let ghost leaf_bytes: Seq<Seq<u8>> = leaves@.map_values(|s: &str| encode_utf8(s@));
        let ghost lt_bytes: Seq<u8> = encode_utf8(leaf_tag@);
        let ghost bt_bytes: Seq<u8> = encode_utf8(branch_tag@);

        let mut current: Vec<[u8; 32]> = Vec::new();
        if leaves.len() == 0 {
            let empty: Vec<u8> = Vec::new();
            current.push(tagged_hash(empty.as_slice(), leaf_tag.as_str()));
            assert(digests_view(current) =~= spec_leaf_layer(leaf_bytes, lt_bytes));
        } else {
            let n = leaves.len();
            let mut i: usize = 0;
            while i < n
                invariant
                    n == leaves@.len(),
                    i <= n,
                    current@.len() == i,
                    leaf_bytes == leaves@.map_values(|s: &str| encode_utf8(s@)),
                    lt_bytes == encode_utf8(leaf_tag@),
                    forall|k: int| 0 <= k < i ==> (#[trigger] current@[k])@ == spec_tagged_hash(leaf_bytes[k], lt_bytes),
                decreases n - i,
            {
                let h = tagged_hash(leaves[i].as_bytes(), leaf_tag.as_str());
                current.push(h);
                i += 1;
            }
            assert(digests_view(current) =~= spec_leaf_layer(leaf_bytes, lt_bytes));
        }

        let ghost layer0: Seq<Seq<u8>> = digests_view(current);
        let mut layers: Vec<Vec<[u8; 32]>> = Vec::new();
        loop
            invariant_except_break
                current@.len() >= 1,
                bt_bytes == encode_utf8(branch_tag@),
                layers_deep(layers) + spec_build_layers(digests_view(current), bt_bytes)
                    == spec_build_layers(layer0, bt_bytes),
            ensures
                layers_deep(layers) == spec_build_layers(layer0, bt_bytes),
            decreases current@.len(),
        {
            let ghost pre_pad = digests_view(current);
            if current.len() > 1 && current.len() % 2 == 1 {
                let last = current[current.len() - 1];
                current.push(last);
                proof {
                    assert(digests_view(current) =~= spec_pad(pre_pad));
                }
            }
            let ghost padded = digests_view(current);
            proof {
                assert(padded == spec_pad(pre_pad));
                // padding is idempotent, so growing from the padded layer
                // yields the same stack
                assert(spec_pad(padded) == padded);
                assert(spec_build_layers(padded, bt_bytes) == spec_build_layers(pre_pad, bt_bytes));
            }
            let n = current.len();
            if n == 1 {
                let ghost pre_layers = layers_deep(layers);
                layers.push(current);
                proof {
                    assert(layers_deep(layers) =~= pre_layers.push(padded));
                    assert(spec_build_layers(padded, bt_bytes) == seq![padded]);
                    assert(layers_deep(layers) =~= pre_layers + spec_build_layers(padded, bt_bytes));
                }
                break;
            }
            let mut next: Vec<[u8; 32]> = Vec::new();
            let mut j: usize = 0;
            while j < n / 2
                invariant
                    n == current@.len(),
                    n >= 2,
                    n % 2 == 0,
                    j <= n / 2,
                    next@.len() == j,
                    bt_bytes == encode_utf8(branch_tag@),
                    padded == digests_view(current),
                    forall|k: int| 0 <= k < j ==> (#[trigger] next@[k])@ == spec_combine(padded, bt_bytes)[k],
                decreases n / 2 - j,
            {
                let combined = hash::concat_bytes(&current[2 * j], &current[2 * j + 1]);
                let h = tagged_hash(combined.as_slice(), branch_tag.as_str());
                next.push(h);
                j += 1;
            }
            let ghost pre_layers = layers_deep(layers);
            layers.push(current);
            proof {
                assert(layers_deep(layers) =~= pre_layers.push(padded));
                assert(digests_view(next) =~= spec_combine(padded, bt_bytes));
                assert(spec_build_layers(padded, bt_bytes)
                    == seq![padded] + spec_build_layers(spec_combine(padded, bt_bytes), bt_bytes));
                assert(layers_deep(layers) + spec_build_layers(digests_view(next), bt_bytes)
                    =~= pre_layers + spec_build_layers(padded, bt_bytes));
            }
            current = next;
        }

        let tree = MerkleTree { layers, leaf_tag, branch_tag };
        proof {
            lemma_build_wf(layer0, bt_bytes);
            lemma_tree_wf_shape(tree.layers_view(), bt_bytes);
            assert forall|i: int| 0 <= i < tree.layers_view()[0].len() implies spec_replay(
                #[trigger] spec_proof(tree.layers_view(), i),
                tree.layers_view()[0][i],
                bt_bytes,
            ) == tree.layers_view().last()[0] by {
                lemma_proof_replays_root(tree.layers_view(), bt_bytes, i);
            }
        }
        tree
    }

    /// The root digest: the sole element of the last layer.
    pub fn root(&self) -> (r: [u8; 32])
        requires
            self.layers_view().len() >= 1,
            self.layers_view().last().len() >= 1,
        ensures
            r@ == self.layers_view().last()[0],
    {
        let last = &self.layers[self.layers.len() - 1];
        last[0]
    }

    /// Whether the stored layers are structurally well-formed. A tree built
    /// by `new` always is; a tree reassembled from a snapshot need not be,
    /// and must be checked before proofs are extracted from it.
    pub fn has_valid_shape(&self) -> (ok: bool)
        ensures
            ok == shape_wf(self.layers_view()),
    {
        let ghost ls = self.layers_view();
        let total = self.layers.len();
        if total == 0 {
            return false;
        }
        if self.layers[total - 1].len() != 1 {
            return false;
        }
        let mut i: usize = 0;
        while i < total - 1
            invariant
                ls == self.layers_view(),
                total == ls.len(),
                total >= 1,
                ls.last().len() == 1,
                i <= total - 1,
                forall|k: int| #![trigger ls[k]] 0 <= k < i ==> {
                    &&& ls[k].len() >= 2
                    &&& ls[k].len() % 2 == 0
                    &&& ls[k + 1].len() == spec_padded_len(ls[k].len() as int / 2)
                },
            decreases total - 1 - i,
        {
            let n = self.layers[i].len();
            proof {
                assert(ls[i as int].len() == n);
            }
            if n < 2 || n % 2 != 0 {
                proof {
                    assert(!shape_wf(ls));
                }
                return false;
            }
            let half = n / 2;
            let expected = if half > 1 && half % 2 == 1 {
                half + 1
            } else {
                half
            };
            proof {
                assert(expected == spec_padded_len(ls[i as int].len() as int / 2));
                assert(ls[i as int + 1].len() == self.layers@[i as int + 1]@.len());
            }
            if self.layers[i + 1].len() != expected {
                proof {
                    assert(!shape_wf(ls));
                }
                return false;
            }
            i += 1;
        }
        true
    }

    /// Extract the inclusion proof for the node at `index` of layer 0, at
    /// digest level: the sibling digest and side marker at every layer below
    /// the root, exactly `spec_proof` of the stored layers.
    #[verifier::spinoff_prover]
    #[verifier::rlimit(100)]
    pub fn get_proof_digests(&self, index: usize) -> (entries: Vec<([u8; 32], u8)>)
        requires
            shape_wf(self.layers_view()),
            index < self.layers_view()[0].len(),
        ensures
            entries_view(entries@) == spec_proof(self.layers_view(), index as int),
            entries@.len() == self.layers_view().len() - 1,
    {
        let ghost ls = self.layers_view();
        let mut entries: Vec<([u8; 32], u8)> = Vec::new();
        let mut idx: usize = index;
        let total = self.layers.len();
        let mut i: usize = 0;
        while i < total - 1
            invariant
                ls == self.layers_view(),
                shape_wf(ls),
                total == ls.len(),
                index < ls[0].len(),
                i <= total - 1,
                entries@.len() == i,
                idx as int == spec_pos(index as int, i as int),
                idx < ls[i as int].len(),
                forall|m: int| 0 <= m < i ==> {
                    &&& (#[trigger] entries@[m]).0@ == spec_proof(ls, index as int)[m].0
                    &&& entries@[m].1 == spec_proof(ls, index as int)[m].1
                },
            decreases total - 1 - i,
        {
            let layer = &self.layers[i];
            proof {
                lemma_spec_proof_entry(ls, index as int, i as int);
                assert(digests_view(self.layers@[i as int]) == ls[i as int]);
                assert(layer@.len() == ls[i as int].len());
            }
            let pair_idx = if idx % 2 == 0 { idx + 1 } else { idx - 1 };
            assert(pair_idx < layer.len());
            if pair_idx < layer.len() {
                let sibling = layer[pair_idx];
                let bit: u8 = if idx % 2 == 0 { 1 } else { 0 };
                proof {
                    assert(sibling@ == ls[i as int][pair_idx as int]);
                }
                entries.push((sibling, bit));
            }
            proof {
                assert(ls[i as int].len() % 2 == 0
                    && ls[i as int + 1].len() == spec_padded_len(ls[i as int].len() as int / 2));
                assert(idx as int / 2 < ls[i as int].len() as int / 2);
            }
            idx = idx / 2;
            i += 1;
        }
        proof {
            lemma_spec_proof_len(ls, index as int);
            assert(entries_view(entries@) =~= spec_proof(ls, index as int));
        }
        entries
    }

    /// Extract the inclusion proof for the node at `index` of layer 0, each
    /// sibling digest encoded as a lowercase hexadecimal string, with its
    /// side marker: 1 for a sibling to the right, 0 for one to the left.
    pub fn get_proof(&self, index: usize) -> (entries: Vec<(String, u8)>)
        requires
            shape_wf(self.layers_view()),
            index < self.layers_view()[0].len(),
        ensures
            entries@.len() == self.layers_view().len() - 1,
            forall|k: int| 0 <= k < entries@.len() ==> {
                &&& (#[trigger] entries@[k]).0@ == spec_hex(spec_proof(self.layers_view(), index as int)[k].0)
                &&& entries@[k].1 == spec_proof(self.layers_view(), index as int)[k].1
            },
    {
        let digests = self.get_proof_digests(index);
        let ghost target = spec_proof(self.layers_view(), index as int);
        let n = digests.len();
        let mut entries: Vec<(String, u8)> = Vec::new();
        let mut k: usize = 0;
        while k < n
            invariant
                n == digests@.len(),
                entries_view(digests@) == target,
                k <= n,
                entries@.len() == k,
                forall|m: int| 0 <= m < k ==> {
                    &&& (#[trigger] entries@[m]).0@ == spec_hex(target[m].0)
                    &&& entries@[m].1 == target[m].1
                },
            decreases n - k,
        {
            let e = &digests[k];
            let s = hex_encode(e.0.as_slice());
            let bit = e.1;
            entries.push((s, bit));
            proof {
                assert(entries_view(digests@)[k as int] == target[k as int]);
            }
            k += 1;
        }
        entries
    }
}

/// Replay an inclusion proof for `leaf_data` and compare the outcome with
/// `root`: hash the leaf under the leaf tag, then fold each sibling in on
/// the side its marker names under the branch tag. Returns true exactly when
/// the replayed digest equals `root`.
pub fn verify_proof(
    leaf_data: &[u8],
    entries: &Vec<([u8; 32], u8)>,
    root: &[u8; 32],
    leaf_tag: &str,
    branch_tag: &str,
) -> (ok: bool)
    ensures
        ok == (spec_replay(
            entries_view(entries@),
            spec_tagged_hash(leaf_data@, encode_utf8(leaf_tag@)),
            encode_utf8(branch_tag@),
        ) == root@),
{
    let ghost path = entries_view(entries@);
    let ghost bt_bytes = encode_utf8(branch_tag@);
    let mut h = tagged_hash(leaf_data, leaf_tag);
    let n = entries.len();
    let mut i: usize = 0;
    proof {
        assert(path.skip(0) =~= path);
    }
    while i < n
        invariant
            n == entries@.len(),
            path == entries_view(entries@),
            bt_bytes == encode_utf8(branch_tag@),
            i <= n,
            spec_replay(path, spec_tagged_hash(leaf_data@, encode_utf8(leaf_tag@)), bt_bytes)
                == spec_replay(path.skip(i as int), h@, bt_bytes),
        decreases n - i,
    {
        let ghost pre = h@;
        let entry = &entries[i];
        let combined = if entry.1 == 1 {
            hash::concat_bytes(&h, &entry.0)
        } else {
            hash::concat_bytes(&entry.0, &h)
        };
        h = tagged_hash(combined.as_slice(), branch_tag);
        proof {
            let ii = i as int;
            assert(path[ii] == (entries@[ii].0@, entries@[ii].1));
            assert(h@ == spec_replay_step(pre, path[ii], bt_bytes));
            assert(path.skip(ii).skip(1) =~= path.skip(ii + 1));
            assert(path.skip(ii)[0] == path[ii]);
        }
        i += 1;
    }
    proof {
        assert(path.skip(n as int).len() == 0);
    }
    digests_equal(&h, root)
}

/// Byte-for-byte equality of two digests.
fn digests_equal(a: &[u8; 32], b: &[u8; 32]) -> (eq: bool)
    ensures
        eq == (a@ == b@),
{
    let mut i: usize = 0;
    while i < 32
        invariant
            i <= 32,
            forall|k: int| 0 <= k < i ==> a@[k] == b@[k],
        decreases 32 - i,
    {
        if a[i] != b[i] {
            return false;
        }
        i += 1;
    }
    proof {
        assert(a@ =~= b@);
    }
    true
}

/// The position of the sibling of the node at `idx` within a layer: the
/// right neighbour of an even position, the left neighbour of an odd one.
pub open spec fn spec_sibling_index(idx: int) -> int {
    if idx % 2 == 0 {
        idx + 1
    } else {
        idx - 1
    }
}

/// The side marker stored with a sibling: 1 when the sibling sits to the
/// right of the proved node (even position), 0 when it sits to the left.
pub open spec fn spec_side_bit(idx: int) -> u8 {
    if idx % 2 == 0 {
        1u8
    } else {
        0u8
    }
}

/// The inclusion proof for the node at `idx` of layer 0: one
/// `(sibling digest, side)` pair per layer from the leaf layer up to, but
/// excluding, the root layer, halving the position at each step.
pub open spec fn spec_proof(layers: Seq<Seq<Seq<u8>>>, idx: int) -> Seq<(Seq<u8>, u8)>
    decreases layers.len(),
{
    if layers.len() <= 1 {
        Seq::empty()
    } else {
        seq![(layers[0][spec_sibling_index(idx)], spec_side_bit(idx))]
            + spec_proof(layers.skip(1), idx / 2)
    }
}

/// One step of the verification protocol: hash the running digest with the
/// sibling under the branch tag, the sibling on the side its marker names.
pub open spec fn spec_replay_step(h: Seq<u8>, entry: (Seq<u8>, u8), branch_tag_bytes: Seq<u8>) -> Seq<u8> {
    if entry.1 == 1 {
        spec_tagged_hash(h + entry.0, branch_tag_bytes)
    } else {
        spec_tagged_hash(entry.0 + h, branch_tag_bytes)
    }
}

/// Replaying a proof: fold `spec_replay_step` over the entries in order,
/// starting from the leaf digest.
pub open spec fn spec_replay(entries: Seq<(Seq<u8>, u8)>, leaf_digest: Seq<u8>, branch_tag_bytes: Seq<u8>) -> Seq<u8>
    decreases entries.len(),
{
    if entries.len() == 0 {
        leaf_digest
    } else {
        spec_replay(entries.skip(1), spec_replay_step(leaf_digest, entries[0], branch_tag_bytes), branch_tag_bytes)
    }
}

/// The mathematical value of a digest-level proof.
pub open spec fn entries_view(entries: Seq<([u8; 32], u8)>) -> Seq<(Seq<u8>, u8)> {
    entries.map_values(|e: ([u8; 32], u8)| (e.0@, e.1))
}

/// Hash well-formedness implies structural well-formedness.
pub proof fn lemma_tree_wf_shape(layers: Seq<Seq<Seq<u8>>>, branch_tag_bytes: Seq<u8>)
    requires
        tree_wf(layers, branch_tag_bytes),
    ensures
        shape_wf(layers),
{
    assert forall|i: int| 0 <= i < layers.len() - 1 implies {
        &&& (#[trigger] layers[i]).len() >= 2
        &&& layers[i].len() % 2 == 0
        &&& layers[i + 1].len() == spec_padded_len(layers[i].len() as int / 2)
    } by {
        assert(layers[i + 1] == spec_pad(spec_combine(layers[i], branch_tag_bytes)));
    }
}

/// The position of the proved node within layer `k`: the starting position
/// halved once per layer climbed.
pub open spec fn spec_pos(idx: int, k: int) -> int
    decreases k,
{
    if k <= 0 {
        idx
    } else {
        spec_pos(idx, k - 1) / 2
    }
}

/// Halving first and then climbing `m - 1` layers equals climbing `m`
/// layers.
proof fn lemma_spec_pos_shift(idx: int, m: int)
    requires
        m >= 1,
    ensures
        spec_pos(idx, m) == spec_pos(idx / 2, m - 1),
    decreases m,
{
    assert(spec_pos(idx, m) == spec_pos(idx, m - 1) / 2);
    if m == 1 {
        assert(spec_pos(idx, 0) == idx);
        assert(spec_pos(idx / 2, 0) == idx / 2);
    } else {
        lemma_spec_pos_shift(idx, m - 1);
        assert(spec_pos(idx / 2, m - 1) == spec_pos(idx / 2, m - 2) / 2);
    }
}

/// Removing the leaf layer of a structurally well-formed stack of two or
/// more layers leaves a structurally well-formed stack.
pub proof fn lemma_shape_wf_tail(layers: Seq<Seq<Seq<u8>>>)
    requires
        shape_wf(layers),
        layers.len() >= 2,
    ensures
        shape_wf(layers.skip(1)),
{
    let tail = layers.skip(1);
    assert(tail.last() == layers.last());
    assert forall|i: int| 0 <= i < tail.len() - 1 implies {
        &&& (#[trigger] tail[i]).len() >= 2
        &&& tail[i].len() % 2 == 0
        &&& tail[i + 1].len() == spec_padded_len(tail[i].len() as int / 2)
    } by {
        assert(tail[i] == layers[i + 1]);
        assert(tail[i + 1] == layers[i + 2]);
        assert(layers[i + 1].len() >= 2 && layers[i + 1].len() % 2 == 0
            && layers[i + 2].len() == spec_padded_len(layers[i + 1].len() as int / 2));
    }
}

/// A structurally well-formed stack with a valid position in layer 0 yields
/// one proof entry per non-root layer.
pub proof fn lemma_spec_proof_len(layers: Seq<Seq<Seq<u8>>>, idx: int)
    requires
        shape_wf(layers),
        0 <= idx < layers[0].len(),
    ensures
        spec_proof(layers, idx).len() == layers.len() - 1,
    decreases layers.len(),
{
    if layers.len() > 1 {
        let tail = layers.skip(1);
        lemma_shape_wf_tail(layers);
        assert(layers[0].len() >= 2 && layers[0].len() % 2 == 0
            && layers[1].len() == spec_padded_len(layers[0].len() as int / 2));
        assert(idx / 2 < layers[0].len() as int / 2);
        assert(tail[0] == layers[1]);
        lemma_spec_proof_len(tail, idx / 2);
    }
}

/// The proof entry at layer `m`: the sibling of the proved node's position
/// within that layer, together with its side marker. The position and its
/// sibling stay within the layer at every level.
pub proof fn lemma_spec_proof_entry(layers: Seq<Seq<Seq<u8>>>, idx: int, m: int)
    requires
        shape_wf(layers),
        0 <= idx < layers[0].len(),
        0 <= m < layers.len() - 1,
    ensures
        0 <= spec_pos(idx, m) < layers[m].len(),
        0 <= spec_sibling_index(spec_pos(idx, m)) < layers[m].len(),
        spec_proof(layers, idx)[m] == (
            layers[m][spec_sibling_index(spec_pos(idx, m))],
            spec_side_bit(spec_pos(idx, m)),
        ),
    decreases m,
{
    assert(layers[0].len() >= 2 && layers[0].len() % 2 == 0
        && layers[1].len() == spec_padded_len(layers[0].len() as int / 2));
    let e = (layers[0][spec_sibling_index(idx)], spec_side_bit(idx));
    let tail = layers.skip(1);
    assert(spec_proof(layers, idx) == seq![e] + spec_proof(tail, idx / 2));
    if m == 0 {
        assert(spec_proof(layers, idx)[0] == e);
    } else {
        lemma_shape_wf_tail(layers);
        assert(tail[0] == layers[1]);
        assert(idx / 2 < layers[0].len() as int / 2);
        lemma_spec_proof_entry(tail, idx / 2, m - 1);
        lemma_spec_pos_shift(idx, m);
        assert(tail[m - 1] == layers[m]);
        lemma_spec_proof_len(tail, idx / 2);
        assert(spec_proof(layers, idx)[m] == spec_proof(tail, idx / 2)[m - 1]);
    }
}

/// Replaying the proof extracted for any valid position of layer 0
/// reproduces the root digest: the verification protocol agrees with the
/// construction rule.
pub proof fn lemma_proof_replays_root(layers: Seq<Seq<Seq<u8>>>, branch_tag_bytes: Seq<u8>, idx: int)
    requires
        tree_wf(layers, branch_tag_bytes),
        0 <= idx < layers[0].len(),
    ensures
        spec_replay(spec_proof(layers, idx), layers[0][idx], branch_tag_bytes) == layers.last()[0],
    decreases layers.len(),
{
    if layers.len() == 1 {
        assert(layers.last() == layers[0]);
        assert(spec_proof(layers, idx) == Seq::<(Seq<u8>, u8)>::empty());
    } else {
        let tail = layers.skip(1);
        assert(layers[0].len() >= 2 && layers[0].len() % 2 == 0
            && layers[1] == spec_pad(spec_combine(layers[0], branch_tag_bytes)));
        assert(tail.last() == layers.last());
        assert forall|i: int| 0 <= i < tail.len() - 1 implies {
            &&& (#[trigger] tail[i]).len() >= 2
            &&& tail[i].len() % 2 == 0
            &&& tail[i + 1] == spec_pad(spec_combine(tail[i], branch_tag_bytes))
        } by {
            assert(tail[i] == layers[i + 1]);
            assert(tail[i + 1] == layers[i + 2]);
            assert(layers[i + 1].len() >= 2 && layers[i + 1].len() % 2 == 0
                && layers[i + 2] == spec_pad(spec_combine(layers[i + 1], branch_tag_bytes)));
        }
        assert(tree_wf(tail, branch_tag_bytes));

        let entry = (layers[0][spec_sibling_index(idx)], spec_side_bit(idx));
        let h1 = spec_replay_step(layers[0][idx], entry, branch_tag_bytes);
        let comb = spec_combine(layers[0], branch_tag_bytes);
        assert(idx / 2 < comb.len());
        assert(layers[1][idx / 2] == comb[idx / 2]);
        assert(comb[idx / 2] == spec_tagged_hash(
            layers[0][2 * (idx / 2)] + layers[0][2 * (idx / 2) + 1],
            branch_tag_bytes,
        ));
        if idx % 2 == 0 {
            assert(2 * (idx / 2) == idx);
            assert(h1 == spec_tagged_hash(layers[0][idx] + layers[0][idx + 1], branch_tag_bytes));
        } else {
            assert(2 * (idx / 2) == idx - 1);
            assert(h1 == spec_tagged_hash(layers[0][idx - 1] + layers[0][idx], branch_tag_bytes));
        }
        assert(h1 == layers[1][idx / 2]);
        assert(tail[0] == layers[1]);
        assert(idx / 2 < tail[0].len());
        lemma_proof_replays_root(tail, branch_tag_bytes, idx / 2);

        let rest = spec_proof(tail, idx / 2);
        assert(spec_proof(layers, idx) == seq![entry] + rest);
        assert((seq![entry] + rest)[0] == entry);
        assert((seq![entry] + rest).skip(1) =~= rest);
        assert(spec_replay(spec_proof(layers, idx), layers[0][idx], branch_tag_bytes)
            == spec_replay(rest, h1, branch_tag_bytes));
    }
}

/// The ceiling of the base-2 logarithm of a positive count: the number of
/// pairing rounds needed to reduce `n` digests to one, where an odd round
/// first pads to `n + 1`.
pub open spec fn spec_ceil_log2(n: nat) -> nat
    decreases n,
{
    if n <= 1 {
        0
    } else {
        1 + spec_ceil_log2((n + 1) / 2)
    }
}

/// The tree over `n >= 1` starting digests has exactly
/// `ceil(log2(n)) + 1` layers; in particular a single starting digest gives
/// a single layer.
pub proof fn lemma_build_layer_count(layer: Seq<Seq<u8>>, branch_tag_bytes: Seq<u8>)
    requires
        layer.len() >= 1,
    ensures
        spec_build_layers(layer, branch_tag_bytes).len() == spec_ceil_log2(layer.len() as nat) + 1,
    decreases layer.len(),
{
    let padded = spec_pad(layer);
    if padded.len() <= 1 {
        assert(spec_build_layers(layer, branch_tag_bytes).len() == 1);
    } else {
        let next = spec_combine(padded, branch_tag_bytes);
        assert(next.len() == padded.len() / 2);
        assert(padded.len() / 2 == (layer.len() + 1) as int / 2);
        lemma_build_layer_count(next, branch_tag_bytes);
    }
}

/// Padding duplicates the digest value itself: growing a tree from an odd
/// layer of at least three digests stores, as that layer, the layer with a
/// copy of its last digest appended — the padding node equals the pre-pad
/// last element, and is not a fresh hash of it.
pub proof fn lemma_odd_layer_padding(layer: Seq<Seq<u8>>, branch_tag_bytes: Seq<u8>)
    requires
        layer.len() >= 3,
        layer.len() % 2 == 1,
    ensures
        spec_build_layers(layer, branch_tag_bytes)[0] == layer.push(layer.last()),
        spec_build_layers(layer, branch_tag_bytes)[0].last() == layer.last(),
{
    assert(spec_pad(layer) == layer.push(layer.last()));
    assert(spec_build_layers(layer, branch_tag_bytes)[0] == spec_pad(layer));
}

/// Building is a pure function of the leaves and the tags: two trees whose
/// layers both equal the stack determined by the same leaf bytes and tag
/// bytes have identical layers and an identical root layer.
pub proof fn lemma_rebuild_identical(
    a: MerkleTree,
    b: MerkleTree,
    leaf_bytes: Seq<Seq<u8>>,
    leaf_tag_bytes: Seq<u8>,
    branch_tag_bytes: Seq<u8>,
)
    requires
        a.layers_view() == spec_tree_layers(leaf_bytes, leaf_tag_bytes, branch_tag_bytes),
        b.layers_view() == spec_tree_layers(leaf_bytes, leaf_tag_bytes, branch_tag_bytes),
    ensures
        a.layers_view() == b.layers_view(),
        a.layers_view().last() == b.layers_view().last(),
{
}

/// The layer stack grown from any non-empty layer is hash well-formed, its
/// first layer is the padded input layer, and its root layer holds a single
/// digest.
pub proof fn lemma_build_wf(layer: Seq<Seq<u8>>, branch_tag_bytes: Seq<u8>)
    requires
        layer.len() >= 1,
    ensures
        tree_wf(spec_build_layers(layer, branch_tag_bytes), branch_tag_bytes),
        spec_build_layers(layer, branch_tag_bytes)[0] == spec_pad(layer),
        spec_build_layers(layer, branch_tag_bytes).last().len() == 1,
    decreases layer.len(),
{
    let padded = spec_pad(layer);
    let result = spec_build_layers(layer, branch_tag_bytes);
    if padded.len() <= 1 {
        assert(result == seq![padded]);
        assert(result.last() == padded);
    } else {
        let next = spec_combine(padded, branch_tag_bytes);
        assert(next.len() == padded.len() / 2);
        lemma_build_wf(next, branch_tag_bytes);
        let rest = spec_build_layers(next, branch_tag_bytes);
        assert(result == seq![padded] + rest);
        assert(result.last() == rest.last());
        assert forall|i: int| 0 <= i < result.len() - 1 implies {
            &&& (#[trigger] result[i]).len() >= 2
            &&& result[i].len() % 2 == 0
            &&& result[i + 1] == spec_pad(spec_combine(result[i], branch_tag_bytes))
        } by {
            if i == 0 {
                assert(result[0] == padded);
                assert(result[1] == rest[0]);
                assert(rest[0] == spec_pad(next));
            } else {
                assert(result[i] == rest[i - 1]);
                assert(result[i + 1] == rest[i]);
                assert(tree_wf(rest, branch_tag_bytes));
                assert(rest[i - 1].len() >= 2 && rest[i - 1].len() % 2 == 0
                    && rest[i] == spec_pad(spec_combine(rest[i - 1], branch_tag_bytes)));
            }
        }
    }
}

} // verus!
