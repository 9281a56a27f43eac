//! Building the commitment tree from an ordered list of account records.

use vstd::prelude::*;
use vstd::utf8::encode_utf8;

use crate::MerkleTree;
use crate::record::{User, spec_record_line, record_string};
use crate::{spec_tree_layers, tree_wf};

verus! {

/// Build the proof-of-reserve tree over `users`, which must already be in
/// leaf order: leaf `k` commits to the text `(id,balance)` of `users[k]`,
/// hashed under the leaf tag, with branches hashed under the branch tag.
pub fn create_merkle_tree(users: &Vec<User>) -> (tree: MerkleTree)
    ensures
        tree.leaf_tag@ == "ProofOfReserve_Leaf"@,
        tree.branch_tag@ == "ProofOfReserve_Branch"@,
        tree.layers_view() == spec_tree_layers(
            users@.map_values(|u: User| encode_utf8(spec_record_line(u.id as nat, u.balance as nat))),
            encode_utf8("ProofOfReserve_Leaf"@),
            encode_utf8("ProofOfReserve_Branch"@),
        ),
        tree_wf(tree.layers_view(), encode_utf8("ProofOfReserve_Branch"@)),
{
    let n = users.len();
    let mut leaf_strings: Vec<String> = Vec::new();
    let mut i: usize = 0;
    while i < n
        invariant
            n == users@.len(),
            i <= n,
            leaf_strings@.len() == i,
            forall|k: int| 0 <= k < i ==> (#[trigger] leaf_strings@[k])@
                == spec_record_line(users@[k].id as nat, users@[k].balance as nat),
        decreases n - i,
    {
        let u = &users[i];
        leaf_strings.push(record_string(u.id, u.balance));
        i += 1;
    }

    let mut leaves: Vec<&str> = Vec::new();
    let mut j: usize = 0;
    while j < n
        invariant
            n == leaf_strings@.len(),
            j <= n,
            leaves@.len() == j,
            forall|k: int| 0 <= k < j ==> (#[trigger] leaves@[k])@ == leaf_strings@[k]@,
        decreases n - j,
    {
        leaves.push(leaf_strings[j].as_str());
        j += 1;
    }

    let tree = MerkleTree::new(
        leaves.as_slice(),
        "ProofOfReserve_Leaf".to_owned(),
        "ProofOfReserve_Branch".to_owned(),
    );
    proof {
        assert(leaves@.map_values(|s: &str| encode_utf8(s@)) =~= users@.map_values(
            |u: User| encode_utf8(spec_record_line(u.id as nat, u.balance as nat)),
        ));
    }
    tree
}

} // verus!
