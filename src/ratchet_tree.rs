//! The ratchet tree: a left-balanced binary tree of Diffie-Hellman nodes, kept
//! as the in-order sequence of its nodes.
use vstd::prelude::*;

use crate::crypto::{
    copy_bytes, expand_label_of, extract_of, hkdf_expand_label, hkdf_extract, node_label, node_label_bytes,
    path_label, path_label_bytes, CipherSuite, CryptoRng, DhPrivateKey, DhPublicKey,
    EciesCiphertext, Error, MAX_HASH_INPUT,
};
use crate::handshake::{DirectPathMessage, DirectPathNodeMessage};
use crate::tree_math::{
    as_nats, common_ancestor, common_ancestor_of, copath_child, direct_path, ext_path, in_subtree,
    is_ancestor, is_ancestor_of, lemma_ancestor_iff_subtree, lemma_common_ancestor,
    lemma_copath_at_common_ancestor, lemma_ext_path, lemma_ext_path_of_parent, lemma_leaves,
    lemma_root_bound, lemma_split, lemma_subwindows, lemma_window, node_direct_path,
    node_extended_direct_path, node_left_child, node_right_child, node_sibling, nodes_of,
    num_leaves_in_tree, parent_of, right_size, root_idx, root_in, root_of, sibling_of, splits,
    window_in, window_of,
};

verus! {

/// A node of a `RatchetTree`. A filled node always has a public key; it may also
/// hold the matching private key and a node secret.
#[derive(Debug)]
pub enum RatchetTreeNode {
    Blank,
    Filled {
        public_key: DhPublicKey,
        private_key: Option<DhPrivateKey>,
        secret: Option<Vec<u8>>,
    },
}

/// The node holds a private key.
pub open spec fn has_private_key(node: RatchetTreeNode) -> bool {
    node matches RatchetTreeNode::Filled { private_key: Some(_), .. }
}

/// The node holds a node secret.
pub open spec fn has_secret(node: RatchetTreeNode) -> bool {
    node matches RatchetTreeNode::Filled { secret: Some(_), .. }
}

impl RatchetTreeNode {
    /// Returns `true` iff this is the `Filled` variant.
    pub fn is_filled(&self) -> (b: bool)
        ensures
            b == (*self is Filled),
    {
        match self {
            RatchetTreeNode::Filled { .. } => true,
            RatchetTreeNode::Blank => false,
        }
    }

    /// Sets the node's public key; the only way from `Blank` to `Filled`. The
    /// private key and the secret that belonged to the old key are dropped.
    pub fn update_public_key(&mut self, new_public_key: DhPublicKey)
        ensures
            *final(self) == (RatchetTreeNode::Filled {
                public_key: new_public_key,
                private_key: None,
                secret: None,
            }),
    {
        *self = RatchetTreeNode::Filled { public_key: new_public_key, private_key: None, secret: None };
    }

    /// The node's public key; `None` on a blank node.
    pub fn get_public_key(&self) -> (r: Option<&DhPublicKey>)
        ensures
            match *self {
                RatchetTreeNode::Blank => r is None,
                RatchetTreeNode::Filled { public_key, .. } => r == Some(&public_key),
            },
    {
        match self {
            RatchetTreeNode::Blank => None,
            RatchetTreeNode::Filled { public_key, .. } => Some(public_key),
        }
    }

    /// Sets the node's private key. A blank node is left as it is and refused.
    pub fn update_private_key(&mut self, new_private_key: DhPrivateKey) -> (r: Result<(), Error>)
        ensures
            match *old(self) {
                RatchetTreeNode::Blank => *final(self) == *old(self) && r matches Err(
                    Error::TreeError(_),
                ),
                RatchetTreeNode::Filled { public_key, secret, .. } => r is Ok && *final(self) == (
                RatchetTreeNode::Filled { public_key, private_key: Some(new_private_key), secret }),
            },
    {
        match self {
            RatchetTreeNode::Blank => Err(Error::TreeError("tried to update private key of blank node")),
            RatchetTreeNode::Filled { private_key, .. } => {
                *private_key = Some(new_private_key);
                Ok(())
            },
        }
    }

    /// Sets the node's secret. A blank node is left as it is and refused.
    pub fn update_secret(&mut self, new_secret: Vec<u8>) -> (r: Result<(), Error>)
        ensures
            match *old(self) {
                RatchetTreeNode::Blank => *final(self) == *old(self) && r matches Err(
                    Error::TreeError(_),
                ),
                RatchetTreeNode::Filled { public_key, private_key, .. } => r is Ok && *final(self)
                    == (RatchetTreeNode::Filled { public_key, private_key, secret: Some(new_secret) }),
            },
    {
        match self {
            RatchetTreeNode::Blank => Err(Error::TreeError("tried to update secret of blank node")),
            RatchetTreeNode::Filled { secret, .. } => {
                *secret = Some(new_secret);
                Ok(())
            },
        }
    }

    /// The node secret, for writing. A filled node without one first gets a
    /// zeroed secret of `secret_len` bytes; a blank node gives `None`.
    pub fn get_mut_node_secret(&mut self, secret_len: usize) -> (r: Option<&mut Vec<u8>>)
        ensures
            match *old(self) {
                RatchetTreeNode::Blank => r is None && *final(self) == *old(self),
                RatchetTreeNode::Filled { public_key, private_key, secret } => r is Some && (
                match secret {
                    Some(s) => *r->0 == s,
                    None => r->0@ == Seq::new(secret_len as nat, |i: int| 0u8),
                }) && *final(self) == (RatchetTreeNode::Filled {
                    public_key,
                    private_key,
                    secret: Some(*final(r->0)),
                }),
            },
    {
        match self {
            RatchetTreeNode::Blank => None,
            RatchetTreeNode::Filled { secret, .. } => {
                if secret.is_none() {
                    *secret = Some(vec![0u8; secret_len]);
                }
                match secret {
                    Some(inner) => Some(inner),
                    None => None,
                }
            },
        }
    }

    /// The node secret, if there is one.
    pub fn get_secret(&self) -> (r: Option<&Vec<u8>>)
        ensures
            match *self {
                RatchetTreeNode::Filled { secret: Some(s), .. } => r == Some(&s),
                _ => r is None,
            },
    {
        match self {
            RatchetTreeNode::Filled { secret: Some(s), .. } => Some(s),
            _ => None,
        }
    }

    /// The private key, if there is one.
    pub fn get_private_key(&self) -> (r: Option<&DhPrivateKey>)
        ensures
            match *self {
                RatchetTreeNode::Filled { private_key: Some(k), .. } => r == Some(&k),
                _ => r is None,
            },
    {
        match self {
            RatchetTreeNode::Filled { private_key: Some(k), .. } => Some(k),
            _ => None,
        }
    }
}

/// A left-balanced binary tree of `RatchetTreeNode`s, stored in order: leaves at
/// even indices, internal nodes at odd ones.
#[derive(Debug)]
pub struct RatchetTree {
    pub nodes: Vec<RatchetTreeNode>,
}

/// A node count that a left-balanced tree can have: none, or an odd number.
pub open spec fn valid_size(n: nat) -> bool {
    (n == 0 || n % 2 == 1) && n < usize::MAX
}


/// The tree's nodes after the direct path of `start` and the root are blanked.
pub open spec fn blanked(nodes: Seq<RatchetTreeNode>, start: nat) -> Seq<RatchetTreeNode> {
    let n = nodes.len();
    Seq::new(
        n,
        |i: int|
            if direct_path(start, n).contains(i as nat) || i == root_of(n) {
                RatchetTreeNode::Blank
            } else {
                nodes[i]
            },
    )
}

/// The highest even index below `k` that holds a filled node.
pub open spec fn last_filled_leaf_below(nodes: Seq<RatchetTreeNode>, k: nat) -> Option<nat>
    decreases k,
{
    if k == 0 {
        None
    } else {
        let i = (k - 1) as nat;
        if i % 2 == 0 && i < nodes.len() && nodes[i as int] is Filled {
            Some(i)
        } else {
            last_filled_leaf_below(nodes, i)
        }
    }
}

/// The tree's nodes cut after the last filled leaf; none if no leaf is filled.
pub open spec fn truncated(nodes: Seq<RatchetTreeNode>) -> Seq<RatchetTreeNode> {
    match last_filled_leaf_below(nodes, nodes.len()) {
        Some(i) => nodes.subrange(0, i + 1 as int),
        None => seq![],
    }
}

/// The resolution of the root of the subtree of `size` nodes starting at `off`:
/// the root itself when filled, nothing for a blank leaf, and otherwise the
/// resolution of the left subtree followed by that of the right one.
pub open spec fn res_window(nodes: Seq<RatchetTreeNode>, off: nat, size: nat) -> Seq<nat>
    decreases size,
{
    let r = off + root_of(size);
    if r < nodes.len() && nodes[r as int] is Filled {
        seq![r]
    } else if splits(size) {
        res_window(nodes, off, root_of(size)) + res_window(nodes, r + 1, right_size(size))
    } else {
        seq![]
    }
}

/// The resolution of node `x` of the tree `nodes`.
pub open spec fn resolution_of(nodes: Seq<RatchetTreeNode>, x: nat) -> Seq<nat> {
    let w = window_of(x, nodes.len());
    res_window(nodes, w.0, w.1)
}

/// The members of a resolution are filled nodes of the subtree, in strictly
/// increasing order.
pub proof fn lemma_res_window(nodes: Seq<RatchetTreeNode>, off: nat, size: nat)
    requires
        size % 2 == 1,
        off + size <= nodes.len(),
    ensures
        forall|k: int|
            0 <= k < res_window(nodes, off, size).len() ==> off <= #[trigger] res_window(
                nodes,
                off,
                size,
            )[k] < off + size && nodes[res_window(nodes, off, size)[k] as int] is Filled,
        forall|a: int, b: int|
            0 <= a < b < res_window(nodes, off, size).len() ==> res_window(nodes, off, size)[a]
                < res_window(nodes, off, size)[b],
    decreases size,
{
    lemma_root_bound(size);
    let r = off + root_of(size);
    if r < nodes.len() && nodes[r as int] is Filled {
    } else if splits(size) {
        lemma_split(size);
        let rs = root_of(size);
        lemma_res_window(nodes, off, rs);
        lemma_res_window(nodes, r + 1, right_size(size));
        let left = res_window(nodes, off, rs);
        let right = res_window(nodes, r + 1, right_size(size));
        let all = res_window(nodes, off, size);
        assert(all == left + right);
        assert forall|k: int| 0 <= k < all.len() implies off <= #[trigger] all[k] < off + size
            && nodes[all[k] as int] is Filled by {
            if k < left.len() {
                assert(all[k] == left[k]);
            } else {
                assert(all[k] == right[k - left.len()]);
            }
        }
        assert forall|a: int, b: int| 0 <= a < b < all.len() implies all[a] < all[b] by {
            if b < left.len() {
            } else if a >= left.len() {
                assert(all[a] == right[a - left.len()]);
                assert(all[b] == right[b - left.len()]);
            } else {
                assert(all[a] == left[a]);
                assert(all[b] == right[b - left.len()]);
            }
        }
    }
}

/// The encoding of a node's public key; nothing for a blank node.
pub open spec fn public_bytes(node: RatchetTreeNode) -> Seq<u8> {
    match node {
        RatchetTreeNode::Filled { public_key, .. } => public_key.bytes@,
        RatchetTreeNode::Blank => seq![],
    }
}

/// A direct-path message can be made from leaf `leaf`: it is a filled leaf of
/// the tree, and every ancestor holds a node secret.
pub open spec fn encrypt_ready(nodes: Seq<RatchetTreeNode>, leaf: nat) -> bool {
    let e = ext_path(leaf, nodes.len());
    &&& leaf % 2 == 0
    &&& leaf < nodes.len()
    &&& nodes[leaf as int] is Filled
    &&& forall|t: int| 1 <= t < e.len() ==> has_secret(#[trigger] nodes[e[t] as int])
}

/// `plan` lists, for each ancestor of `leaf` up to the root in order, the
/// ancestor and the resolution of the copath node below it.
pub open spec fn recipients_of(
    nodes: Seq<RatchetTreeNode>,
    leaf: nat,
    plan: Seq<(usize, Vec<usize>)>,
) -> bool {
    let n = nodes.len();
    let e = ext_path(leaf, n);
    &&& plan.len() + 1 == e.len()
    &&& forall|t: int|
        0 <= t < plan.len() ==> (#[trigger] plan[t]).0 as nat == e[t + 1] && as_nats(plan[t].1@)
            == resolution_of(nodes, sibling_of(e[t], n))
}

/// No copath resolution on the path of `leaf` has a member: the direct-path
/// message needs no encryption.
pub open spec fn no_recipients(nodes: Seq<RatchetTreeNode>, leaf: nat) -> bool {
    let n = nodes.len();
    let e = ext_path(leaf, n);
    forall|t: int| 1 <= t < e.len() ==> #[trigger] resolution_of(nodes, sibling_of(e[t - 1], n)).len() == 0
}

/// The shape of the direct-path message from `leaf`: one node message for the
/// leaf and each of its ancestors up to the root, with that node's public key;
/// none for the leaf, and for each ancestor one ciphertext per member of the
/// resolution of the copath node below it.
pub open spec fn direct_path_message_from(
    nodes: Seq<RatchetTreeNode>,
    leaf: nat,
    m: DirectPathMessage,
) -> bool {
    let n = nodes.len();
    let e = ext_path(leaf, n);
    &&& m.node_messages@.len() == e.len()
    &&& m.node_messages@[0].node_secrets@.len() == 0
    &&& forall|t: int|
        0 <= t < e.len() ==> (#[trigger] m.node_messages@[t]).public_key.bytes@ == public_bytes(
            nodes[e[t] as int],
        )
    &&& forall|t: int|
        1 <= t < e.len() ==> (#[trigger] m.node_messages@[t]).node_secrets@.len()
            == resolution_of(nodes, sibling_of(e[t - 1], n)).len()
}

/// Node `x` holds a private key and lies on the extended direct path of `my`.
pub open spec fn holds_key_for(nodes: Seq<RatchetTreeNode>, x: nat, my: nat) -> bool {
    x < nodes.len() && has_private_key(nodes[x as int]) && is_ancestor_of(x, my, nodes.len())
}

/// `j` is the first position of `res` whose node holds a key for `my`.
pub open spec fn first_holder_at(nodes: Seq<RatchetTreeNode>, res: Seq<nat>, my: nat, j: int) -> bool {
    &&& 0 <= j < res.len()
    &&& holds_key_for(nodes, res[j], my)
    &&& forall|q: int| 0 <= q < j ==> !holds_key_for(nodes, #[trigger] res[q], my)
}

/// The ciphertext that `my` can open in the direct-path message `m` of `sender`
/// is there: the two nodes are in the tree, neither is an ancestor of the other,
/// the message has a node message at the position of their common ancestor on
/// the sender's extended direct path, and in it a ciphertext at the first
/// position of the resolution below the common ancestor, on `my`'s side, whose
/// node holds a private key and is an ancestor of `my`.
pub open spec fn decrypt_ready(
    nodes: Seq<RatchetTreeNode>,
    m: DirectPathMessage,
    sender: nat,
    my: nat,
) -> bool {
    let n = nodes.len();
    let ca = common_ancestor_of(sender, my, n);
    let e = ext_path(sender, n);
    let res = resolution_of(nodes, copath_child(ca, my, n));
    &&& sender < n
    &&& my < n
    &&& !is_ancestor_of(sender, my, n)
    &&& !is_ancestor_of(my, sender, n)
    &&& exists|k: int|
        0 <= k < e.len() && e[k] == ca && k < m.node_messages@.len() && exists|j: int|
            first_holder_at(nodes, res, my, j) && j < m.node_messages@[k].node_secrets@.len()
}

/// The direct-path message `m` of `sender` is too short for `my`: the two
/// nodes are in the tree and neither is an ancestor of the other, but the
/// message has no node message at the common ancestor's position, or, where a
/// member of the resolution holds a key for `my`, that node message has no
/// ciphertext at the first such member's position.
pub open spec fn malformed_for(
    nodes: Seq<RatchetTreeNode>,
    m: DirectPathMessage,
    sender: nat,
    my: nat,
) -> bool {
    let n = nodes.len();
    let ca = common_ancestor_of(sender, my, n);
    let e = ext_path(sender, n);
    let res = resolution_of(nodes, copath_child(ca, my, n));
    &&& sender < n
    &&& my < n
    &&& !is_ancestor_of(sender, my, n)
    &&& !is_ancestor_of(my, sender, n)
    &&& exists|k: int|
        0 <= k < e.len() && #[trigger] e[k] == ca && (k >= m.node_messages@.len() || exists|j: int|
            first_holder_at(nodes, res, my, j) && j >= m.node_messages@[k].node_secrets@.len())
}

/// The path secret after `t` steps up from `ps`.
pub open spec fn path_secret_at(ps: Seq<u8>, t: nat) -> Seq<u8>
    decreases t,
{
    if t == 0 {
        ps
    } else {
        expand_label_of(extract_of(path_secret_at(ps, (t - 1) as nat)), path_label(), seq![])
    }
}

/// The node secret of the node `t` steps up from where `ps` was set.
pub open spec fn node_secret_at(ps: Seq<u8>, t: nat) -> Seq<u8> {
    expand_label_of(extract_of(path_secret_at(ps, t)), node_label(), seq![])
}

/// Of the nodes on the path `e`, the first `f` hold in `new_nodes` a private key
/// and the node secret derived from `ps` for their step; the others are as in
/// `old_nodes`.
pub open spec fn updated_up_to(
    old_nodes: Seq<RatchetTreeNode>,
    new_nodes: Seq<RatchetTreeNode>,
    e: Seq<nat>,
    ps: Seq<u8>,
    f: int,
) -> bool {
    &&& 0 <= f <= e.len()
    &&& forall|t: int|
        0 <= t < f ==> keyed_with_secret(
            #[trigger] new_nodes[e[t] as int],
            node_secret_at(ps, t as nat),
        )
    &&& forall|t: int| f <= t < e.len() ==> #[trigger] new_nodes[e[t] as int] == old_nodes[e[t] as int]
}

/// The node holds a private key and the node secret `s`.
pub open spec fn keyed_with_secret(node: RatchetTreeNode, s: Seq<u8>) -> bool {
    match node {
        RatchetTreeNode::Filled { private_key: Some(_), secret: Some(v), .. } => v@ == s,
        _ => false,
    }
}

/// In a subtree that is the subtree of its own root, the members of the
/// resolution have their subtrees inside it, and every filled node of it lies
/// in the subtree of exactly one member.
#[verifier::rlimit(80)]
#[verifier::spinoff_prover]
pub proof fn lemma_res_window_covers(nodes: Seq<RatchetTreeNode>, off: nat, size: nat)
    requires
        valid_size(nodes.len()),
        size % 2 == 1,
        off + size <= nodes.len(),
        window_of(off + root_of(size), nodes.len()) == (off, size),
    ensures
        forall|k: int|
            0 <= k < res_window(nodes, off, size).len() ==> off <= window_of(
                #[trigger] res_window(nodes, off, size)[k],
                nodes.len(),
            ).0 && window_of(res_window(nodes, off, size)[k], nodes.len()).0 + window_of(
                res_window(nodes, off, size)[k],
                nodes.len(),
            ).1 <= off + size,
        forall|y: nat|
            off <= y < off + size && #[trigger] nodes[y as int] is Filled ==> exists|k: int|
                0 <= k < res_window(nodes, off, size).len() && in_subtree(
                    #[trigger] res_window(nodes, off, size)[k],
                    y,
                    nodes.len(),
                ),
        forall|y: nat, k1: int, k2: int|
            0 <= k1 < res_window(nodes, off, size).len() && 0 <= k2 < res_window(
                nodes,
                off,
                size,
            ).len() && #[trigger] in_subtree(res_window(nodes, off, size)[k1], y, nodes.len())
                && #[trigger] in_subtree(res_window(nodes, off, size)[k2], y, nodes.len()) ==> k1
                == k2,
    decreases size,
{
    let n = nodes.len();
    let r = off + root_of(size);
    let res = res_window(nodes, off, size);
    lemma_root_bound(size);
    if r < n && nodes[r as int] is Filled {
        assert(res == seq![r]);
        assert forall|y: nat| off <= y < off + size && #[trigger] nodes[y as int] is Filled implies exists|
            k: int,
        | 0 <= k < res.len() && in_subtree(#[trigger] res[k], y, n) by {
            assert(in_subtree(res[0], y, n));
        }
    } else if splits(size) {
        lemma_split(size);
        let rs = root_of(size);
        let ms = right_size(size);
        lemma_subwindows(r, n);
        lemma_res_window_covers(nodes, off, rs);
        lemma_res_window_covers(nodes, r + 1, ms);
        let left = res_window(nodes, off, rs);
        let right = res_window(nodes, r + 1, ms);
        assert(res == left + right);
        assert forall|k: int| 0 <= k < res.len() implies off <= window_of(#[trigger] res[k], n).0
            && window_of(res[k], n).0 + window_of(res[k], n).1 <= off + size by {
            if k < left.len() {
                assert(res[k] == left[k]);
            } else {
                assert(res[k] == right[k - left.len()]);
            }
        }
        assert forall|y: nat| off <= y < off + size && #[trigger] nodes[y as int] is Filled implies exists|
            k: int,
        | 0 <= k < res.len() && in_subtree(#[trigger] res[k], y, n) by {
            if y < r {
                let k = choose|k: int| 0 <= k < left.len() && in_subtree(#[trigger] left[k], y, n);
                assert(res[k] == left[k]);
            } else {
                assert(y > r);
                let k = choose|k: int| 0 <= k < right.len() && in_subtree(#[trigger] right[k], y, n);
                assert(res[k + left.len()] == right[k]);
            }
        }
        assert forall|y: nat, k1: int, k2: int|
            0 <= k1 < res.len() && 0 <= k2 < res.len() && #[trigger] in_subtree(res[k1], y, n)
                && #[trigger] in_subtree(res[k2], y, n) implies k1 == k2 by {
            if k1 < left.len() && k2 < left.len() {
                assert(res[k1] == left[k1] && res[k2] == left[k2]);
            } else if k1 >= left.len() && k2 >= left.len() {
                assert(res[k1] == right[k1 - left.len()] && res[k2] == right[k2 - left.len()]);
            } else if k1 < left.len() {
                assert(res[k1] == left[k1] && res[k2] == right[k2 - left.len()]);
            } else {
                assert(res[k1] == right[k1 - left.len()] && res[k2] == left[k2]);
            }
        }
    } else {
        assert(size == 1);
        assert(res.len() == 0);
    }
}

/// The resolution of a node is strictly increasing, each member is a filled
/// node of that node's subtree, and every filled descendant of the node has
/// exactly one ancestor among the members.
#[verifier::rlimit(80)]
#[verifier::spinoff_prover]
pub proof fn law_resolution(nodes: Seq<RatchetTreeNode>, i: nat)
    requires
        valid_size(nodes.len()),
        i < nodes.len(),
    ensures
        forall|a: int, b: int|
            0 <= a < b < resolution_of(nodes, i).len() ==> resolution_of(nodes, i)[a]
                < resolution_of(nodes, i)[b],
        forall|k: int|
            0 <= k < resolution_of(nodes, i).len() ==> nodes[#[trigger] resolution_of(
                nodes,
                i,
            )[k] as int] is Filled,
        forall|k: int|
            0 <= k < resolution_of(nodes, i).len() ==> is_ancestor_of(
                i,
                #[trigger] resolution_of(nodes, i)[k],
                nodes.len(),
            ),
        forall|y: nat|
            y < nodes.len() && is_ancestor_of(i, y, nodes.len()) && #[trigger] nodes[y as int] is Filled
                ==> exists|k: int|
                0 <= k < resolution_of(nodes, i).len() && is_ancestor_of(
                    #[trigger] resolution_of(nodes, i)[k],
                    y,
                    nodes.len(),
                ),
        forall|y: nat, k1: int, k2: int|
            y < nodes.len() && 0 <= k1 < resolution_of(nodes, i).len() && 0 <= k2 < resolution_of(
                nodes,
                i,
            ).len() && #[trigger] is_ancestor_of(resolution_of(nodes, i)[k1], y, nodes.len())
                && #[trigger] is_ancestor_of(resolution_of(nodes, i)[k2], y, nodes.len()) ==> k1
                == k2,
{
    let n = nodes.len();
    let w = window_of(i, n);
    let res = resolution_of(nodes, i);
    lemma_window(i, n);
    lemma_res_window(nodes, w.0, w.1);
    lemma_res_window_covers(nodes, w.0, w.1);
    assert forall|k: int| 0 <= k < res.len() implies is_ancestor_of(i, #[trigger] res[k], n) by {
        lemma_ancestor_iff_subtree(i, res[k], n);
    }
    assert forall|y: nat|
        y < n && is_ancestor_of(i, y, n) && #[trigger] nodes[y as int] is Filled implies exists|k: int|
        0 <= k < res.len() && is_ancestor_of(#[trigger] res[k], y, n) by {
        lemma_ancestor_iff_subtree(i, y, n);
        let k = choose|k: int| 0 <= k < res.len() && in_subtree(#[trigger] res[k], y, n);
        lemma_ancestor_iff_subtree(res[k], y, n);
    }
    assert forall|y: nat, k1: int, k2: int|
        y < n && 0 <= k1 < res.len() && 0 <= k2 < res.len() && #[trigger] is_ancestor_of(
            res[k1],
            y,
            n,
        ) && #[trigger] is_ancestor_of(res[k2], y, n) implies k1 == k2 by {
        lemma_ancestor_iff_subtree(res[k1], y, n);
        lemma_ancestor_iff_subtree(res[k2], y, n);
    }
}

/// Blanking the direct path of a node a second time changes nothing.
pub proof fn law_blank_idempotent(nodes: Seq<RatchetTreeNode>, start: nat)
    ensures
        blanked(blanked(nodes, start), start) == blanked(nodes, start),
{
    assert(blanked(blanked(nodes, start), start) =~= blanked(nodes, start));
}

/// Decryption finds its ciphertext in every direct-path message that
/// encryption makes. For a sender `s` and a node `my`, neither an ancestor of
/// the other, where a member of the resolution below their common ancestor on
/// `my`'s side holds a private key and is an ancestor of `my`, the message of
/// `s` has a node message at the common ancestor's position, with one
/// ciphertext for each member of that resolution.
pub proof fn law_decrypt_finds_ciphertext(
    nodes: Seq<RatchetTreeNode>,
    m: DirectPathMessage,
    s: nat,
    my: nat,
)
    requires
        valid_size(nodes.len()),
        direct_path_message_from(nodes, s, m),
        s < nodes.len(),
        my < nodes.len(),
        !is_ancestor_of(s, my, nodes.len()),
        !is_ancestor_of(my, s, nodes.len()),
        exists|j: int|
            first_holder_at(
                nodes,
                resolution_of(
                    nodes,
                    copath_child(common_ancestor_of(s, my, nodes.len()), my, nodes.len()),
                ),
                my,
                j,
            ),
    ensures
        decrypt_ready(nodes, m, s, my),
{
    let n = nodes.len();
    let e = ext_path(s, n);
    let ca = common_ancestor_of(s, my, n);
    let res = resolution_of(nodes, copath_child(ca, my, n));
    lemma_copath_at_common_ancestor(s, my, n);
    let k = choose|k: int|
        1 <= k < e.len() && #[trigger] e[k] == ca && sibling_of(e[k - 1], n) == copath_child(
            ca,
            my,
            n,
        );
    let j = choose|j: int| first_holder_at(nodes, res, my, j);
    assert(m.node_messages@[k].node_secrets@.len() == res.len());
    assert(exists|j2: int|
        first_holder_at(nodes, res, my, j2) && j2 < m.node_messages@[k].node_secrets@.len());
}

/// The ciphertext that decryption opens is the one that encryption addressed to
/// the opener. Where `plan` lists the recipients of sender `s`, and decryption
/// by `my` picks position `k` of the common ancestor on the extended direct
/// path of `s` and position `j` of the first member of the resolution below it
/// that holds a key for `my`, entry `k - 1` of `plan` is the common ancestor,
/// whose secret is sent, with that member at position `j` of its recipients.
pub proof fn law_ciphertext_addressed_to_opener(
    nodes: Seq<RatchetTreeNode>,
    s: nat,
    my: nat,
    plan: Seq<(usize, Vec<usize>)>,
    k: int,
    j: int,
)
    requires
        valid_size(nodes.len()),
        s < nodes.len(),
        my < nodes.len(),
        !is_ancestor_of(s, my, nodes.len()),
        !is_ancestor_of(my, s, nodes.len()),
        recipients_of(nodes, s, plan),
        0 <= k < ext_path(s, nodes.len()).len(),
        ext_path(s, nodes.len())[k] == common_ancestor_of(s, my, nodes.len()),
        first_holder_at(
            nodes,
            resolution_of(
                nodes,
                copath_child(common_ancestor_of(s, my, nodes.len()), my, nodes.len()),
            ),
            my,
            j,
        ),
    ensures
        1 <= k,
        plan[k - 1].0 as nat == common_ancestor_of(s, my, nodes.len()),
        plan[k - 1].1@.len() == resolution_of(
            nodes,
            copath_child(common_ancestor_of(s, my, nodes.len()), my, nodes.len()),
        ).len(),
        plan[k - 1].1@[j] as nat == resolution_of(
            nodes,
            copath_child(common_ancestor_of(s, my, nodes.len()), my, nodes.len()),
        )[j],
{
    let n = nodes.len();
    let e = ext_path(s, n);
    let ca = common_ancestor_of(s, my, n);
    lemma_ext_path(s, n);
    lemma_common_ancestor(s, my, n);
    lemma_copath_at_common_ancestor(s, my, n);
    let k2 = choose|k2: int|
        1 <= k2 < e.len() && #[trigger] e[k2] == ca && sibling_of(e[k2 - 1], n) == copath_child(
            ca,
            my,
            n,
        );
    if k != k2 {
        assert(e[k] != e[k2]);
    }
    let recipients = plan[k - 1].1@;
    assert(as_nats(recipients) == resolution_of(nodes, sibling_of(e[k - 1], n)));
    assert(as_nats(recipients)[j] == recipients[j] as nat);
}

pub proof fn lemma_path_secret_shift(ps: Seq<u8>, t: nat)
    ensures
        path_secret_at(ps, t + 1) == path_secret_at(path_secret_at(ps, 1), t),
    decreases t,
{
    if t > 0 {
        lemma_path_secret_shift(ps, (t - 1) as nat);
        assert((t + 1 - 1) as nat == t);
    }
}

/// Propagating a path secret from a node other than the root gives every
/// ancestor the node secret that propagating the next path secret from the
/// node's parent gives it: the parent's extended direct path is the node's
/// without its first entry, and the secrets move up by one step.
pub proof fn law_propagation_from_parent(ps: Seq<u8>, s: nat, n: nat)
    requires
        n % 2 == 1,
        s < n,
        s != root_of(n),
    ensures
        ext_path(parent_of(s, n), n) == ext_path(s, n).drop_first(),
        forall|t: nat|
            #[trigger] node_secret_at(ps, t + 1) == node_secret_at(path_secret_at(ps, 1), t),
{
    lemma_ext_path_of_parent(s, n);
    assert forall|t: nat| #[trigger]
        node_secret_at(ps, t + 1) == node_secret_at(path_secret_at(ps, 1), t) by {
        lemma_path_secret_shift(ps, t);
    }
}

impl RatchetTree {
    /// The node count is that of a left-balanced tree.
    pub open spec fn wf(&self) -> bool {
        valid_size(self.nodes@.len())
    }

    /// Returns a new empty `RatchetTree`.
    pub fn new() -> (t: RatchetTree)
        ensures
            t.nodes@.len() == 0,
            t.wf(),
    {
        RatchetTree { nodes: Vec::new() }
    }

    /// Returns the number of nodes in the tree.
    pub fn size(&self) -> (n: usize)
        ensures
            n == self.nodes@.len(),
    {
        self.nodes.len()
    }

    /// Returns the node at the given index.
    pub fn get(&self, idx: usize) -> (r: Option<&RatchetTreeNode>)
        ensures
            idx < self.nodes@.len() ==> r == Some(&self.nodes@[idx as int]),
            idx >= self.nodes@.len() ==> r is None,
    {
        if idx < self.nodes.len() {
            Some(&self.nodes[idx])
        } else {
            None
        }
    }

    /// Returns the root node; `None` iff the tree is empty.
    pub fn get_root_node(&self) -> (r: Option<&RatchetTreeNode>)
        requires
            self.wf(),
        ensures
            self.nodes@.len() == 0 ==> r is None,
            self.nodes@.len() > 0 ==> r == Some(&self.nodes@[root_of(self.nodes@.len()) as int]),
    {
        if self.size() == 0 {
            None
        } else {
            let num_leaves = num_leaves_in_tree(self.size());
            proof {
                lemma_leaves(self.nodes@.len());
            }
            let root = root_idx(num_leaves);
            self.get(root)
        }
    }

    /// Returns the node at the given index, for writing.
    pub fn get_mut(&mut self, idx: usize) -> (r: Option<&mut RatchetTreeNode>)
        ensures
            idx < old(self).nodes@.len() ==> r is Some && *r->0 == old(self).nodes@[idx as int]
                && final(self).nodes@ == old(self).nodes@.update(idx as int, *final(r->0)),
            idx >= old(self).nodes@.len() ==> r is None && *final(self) == *old(self),
    {
        if idx < self.nodes.len() {
            Some(&mut self.nodes[idx])
        } else {
            None
        }
    }

    /// Appends a leaf; every leaf but the first comes with a new blank internal
    /// node before it, which keeps the tree left-balanced and in order.
    pub fn add_leaf_node(&mut self, node: RatchetTreeNode)
        requires
            old(self).wf(),
            old(self).nodes@.len() + 2 < usize::MAX,
        ensures
            final(self).wf(),
            old(self).nodes@.len() == 0 ==> final(self).nodes@ == seq![node],
            old(self).nodes@.len() > 0 ==> final(self).nodes@ == old(self).nodes@.push(
                RatchetTreeNode::Blank,
            ).push(node),
    {
        if self.nodes.len() == 0 {
            self.nodes.push(node);
            proof {
                assert(self.nodes@ =~= seq![node]);
            }
        } else {
            self.nodes.push(RatchetTreeNode::Blank);
            self.nodes.push(node);
        }
    }
    /// Blanks the direct path of `start_idx`, and the root.
    pub fn propogate_blank(&mut self, start_idx: usize)
        requires
            old(self).wf(),
            start_idx < old(self).nodes@.len(),
        ensures
            final(self).nodes@ == blanked(old(self).nodes@, start_idx as nat),
    {
        let ghost n = self.nodes@.len();
        proof {
            lemma_leaves(n);
        }
        let num_leaves = num_leaves_in_tree(self.size());
        let path = node_direct_path(start_idx, num_leaves);
        let mut k: usize = 0;
        while k < path.len()
            invariant
                k <= path@.len(),
                n == old(self).nodes@.len(),
                self.nodes@.len() == n,
                forall|q: int| 0 <= q < path@.len() ==> path@[q] < n,
                forall|i: int|
                    0 <= i < n ==> self.nodes@[i] == if exists|q: int|
                        0 <= q < k && path@[q] == i {
                        RatchetTreeNode::Blank
                    } else {
                        old(self).nodes@[i]
                    },
            decreases path@.len() - k,
        {
            let i = path[k];
            self.nodes[i] = RatchetTreeNode::Blank;
            k = k + 1;
            proof {
                assert forall|j: int| 0 <= j < n implies self.nodes@[j] == if exists|q: int|
                    0 <= q < k && path@[q] == j {
                    RatchetTreeNode::Blank
                } else {
                    old(self).nodes@[j]
                } by {
                    if j == i {
                        assert(path@[k - 1] == j);
                    }
                }
            }
        }
        let root = root_idx(num_leaves);
        self.nodes[root] = RatchetTreeNode::Blank;
        proof {
            let d = direct_path(start_idx as nat, n);
            assert(as_nats(path@) == d);
            assert forall|j: int| 0 <= j < n implies self.nodes@[j] == blanked(
                old(self).nodes@,
                start_idx as nat,
            )[j] by {
                if d.contains(j as nat) {
                    let q = choose|q: int| 0 <= q < d.len() && d[q] == j as nat;
                    assert(path@[q] as nat == d[q]);
                }
                if exists|q: int| 0 <= q < path@.len() && path@[q] == j {
                    let q = choose|q: int| 0 <= q < path@.len() && path@[q] == j;
                    assert(d[q] == path@[q] as nat);
                    assert(d.contains(j as nat));
                }
            }
            assert(self.nodes@ =~= blanked(old(self).nodes@, start_idx as nat));
        }
    }

    /// Cuts the tree after its last filled leaf, or empties it when no leaf is
    /// filled; the node count stays that of a left-balanced tree.
    pub fn truncate_to_last_nonblank(&mut self)
        requires
            old(self).wf(),
        ensures
            final(self).wf(),
            final(self).nodes@ == truncated(old(self).nodes@),
    {
        let ghost all = self.nodes@;
        let mut k: usize = self.nodes.len();
        let mut found: Option<usize> = None;
        while k > 0
            invariant_except_break
                found is None,
                last_filled_leaf_below(all, all.len()) == last_filled_leaf_below(all, k as nat),
            invariant
                k <= all.len(),
                self.nodes@ == all,
                valid_size(all.len()),
            ensures
                found is None ==> last_filled_leaf_below(all, all.len()) is None,
                found matches Some(i) ==> last_filled_leaf_below(all, all.len()) == Some(i as nat)
                    && i % 2 == 0 && i < all.len(),
            decreases k,
        {
            let i = k - 1;
            if i % 2 == 0 && self.nodes[i].is_filled() {
                found = Some(i);
                break;
            }
            k = i;
        }
        match found {
            None => {
                self.nodes.clear();
                proof {
                    assert(self.nodes@ =~= truncated(all));
                }
            },
            Some(i) => {
                self.nodes.truncate(i + 1);
                proof {
                    assert(self.nodes@ =~= truncated(all));
                }
            },
        }
    }

    fn resolution_window(&self, off: usize, size: usize, acc: &mut Vec<usize>)
        requires
            self.wf(),
            off + size <= self.nodes@.len(),
            size % 2 == 1,
        ensures
            as_nats(final(acc)@) == as_nats(old(acc)@) + res_window(
                self.nodes@,
                off as nat,
                size as nat,
            ),
        decreases size,
    {
        proof {
            lemma_root_bound(size as nat);
        }
        let rs = root_in(size);
        let r = off + rs;
        if self.nodes[r].is_filled() {
            acc.push(r);
            proof {
                assert(as_nats(acc@) =~= as_nats(old(acc)@) + res_window(
                    self.nodes@,
                    off as nat,
                    size as nat,
                ));
            }
        } else if size >= 3 {
            proof {
                lemma_split(size as nat);
            }
            self.resolution_window(off, rs, acc);
            self.resolution_window(r + 1, size - rs - 1, acc);
            proof {
                assert(as_nats(acc@) =~= as_nats(old(acc)@) + res_window(
                    self.nodes@,
                    off as nat,
                    size as nat,
                ));
            }
        } else {
            proof {
                assert(as_nats(acc@) =~= as_nats(old(acc)@) + res_window(
                    self.nodes@,
                    off as nat,
                    size as nat,
                ));
            }
        }
    }

    /// The resolution of node `idx`: the filled nodes that together cover every
    /// filled node below it, in ascending order.
    pub fn resolution(&self, idx: usize) -> (r: Vec<usize>)
        requires
            self.wf(),
            idx < self.nodes@.len(),
        ensures
            as_nats(r@) == resolution_of(self.nodes@, idx as nat),
            forall|k: int| 0 <= k < r@.len() ==> r@[k] < self.nodes@.len(),
    {
        let w = window_in(idx, self.nodes.len());
        let mut acc: Vec<usize> = Vec::new();
        self.resolution_window(w.0, w.1, &mut acc);
        proof {
            assert(as_nats(Seq::<usize>::empty()) =~= Seq::<nat>::empty());
            assert(as_nats(acc@) =~= resolution_of(self.nodes@, idx as nat));
            lemma_res_window(self.nodes@, w.0 as nat, w.1 as nat);
            assert forall|k: int| 0 <= k < acc@.len() implies acc@[k] < self.nodes@.len() by {
                assert(as_nats(acc@)[k] == acc@[k] as nat);
            }
        }
        acc
    }
    /// The recipients of the direct-path message of leaf `my_leaf_idx`: for
    /// each ancestor up to the root, in order, the ancestor and the resolution of
    /// the copath node below it, to whose members the ancestor's secret goes.
    pub fn direct_path_recipients(&self, my_leaf_idx: usize) -> (r: Result<
        Vec<(usize, Vec<usize>)>,
        Error,
    >)
        requires
            self.wf(),
        ensures
            !encrypt_ready(self.nodes@, my_leaf_idx as nat) ==> r matches Err(Error::TreeError(_)),
            encrypt_ready(self.nodes@, my_leaf_idx as nat) ==> (r matches Ok(plan)
                && recipients_of(self.nodes@, my_leaf_idx as nat, plan@)),
    {
        let ghost nodes = self.nodes@;
        let ghost n = nodes.len();
        if my_leaf_idx % 2 != 0 {
            return Err(Error::TreeError("Cannot encrypt direct paths of non-leaf nodes"));
        }
        if my_leaf_idx >= self.nodes.len() {
            return Err(Error::TreeError("My tree index isn't in the tree"));
        }
        if !self.nodes[my_leaf_idx].is_filled() {
            return Err(Error::TreeError("My tree index is blank"));
        }
        proof {
            lemma_leaves(n);
            lemma_ext_path(my_leaf_idx as nat, n);
        }
        let num_leaves = num_leaves_in_tree(self.nodes.len());
        let path = node_extended_direct_path(my_leaf_idx, num_leaves);
        let ghost e = ext_path(my_leaf_idx as nat, n);
        proof {
            assert forall|t: int| 0 <= t < path@.len() implies path@[t] as nat == e[t] by {
                assert(as_nats(path@)[t] == path@[t] as nat);
            }
        }
        let mut plan: Vec<(usize, Vec<usize>)> = Vec::new();
        let mut t: usize = 1;
        while t < path.len()
            invariant
                1 <= t <= path@.len(),
                n == nodes.len(),
                e == ext_path(my_leaf_idx as nat, n),
                path@.len() == e.len(),
                1 <= num_leaves <= usize::MAX / 2,
                n == nodes_of(num_leaves as nat),
                forall|q: int| 0 <= q < path@.len() ==> path@[q] as nat == e[q],
                forall|q: int| 0 <= q < path@.len() ==> path@[q] < n,
                self.nodes@ == nodes,
                self.wf(),
                forall|q: int| 1 <= q < t ==> has_secret(#[trigger] nodes[e[q] as int]),
                plan@.len() + 1 == t,
                forall|q: int|
                    0 <= q < plan@.len() ==> (#[trigger] plan@[q]).0 as nat == e[q + 1] && as_nats(
                        plan@[q].1@,
                    ) == resolution_of(nodes, sibling_of(e[q], n)),
            decreases path@.len() - t,
        {
            if self.nodes[path[t]].get_secret().is_none() {
                proof {
                    assert(!has_secret(nodes[e[t as int] as int]));
                }
                return Err(Error::TreeError("Node doesn't know its parent's secret"));
            }
            let copath_idx = node_sibling(path[t - 1], num_leaves);
            let res = self.resolution(copath_idx);
            plan.push((path[t], res));
            t = t + 1;
        }
        proof {
            assert(encrypt_ready(nodes, my_leaf_idx as nat));
            assert(recipients_of(nodes, my_leaf_idx as nat, plan@));
        }
        Ok(plan)
    }

    /// Builds the direct-path message of leaf `my_leaf_idx`: its public key
    /// first, then, for each entry of `direct_path_recipients` in order, the
    /// ancestor's public key and its node secret encrypted to each recipient in
    /// the resolution's order. The random source is drawn on only by those
    /// encryptions, and any failure of one gives `EncryptionError`.
    pub fn encrypt_direct_path_secrets<C: CipherSuite, R: CryptoRng>(
        &self,
        cs: &C,
        my_leaf_idx: usize,
        csprng: &mut R,
    ) -> (r: Result<DirectPathMessage, Error>)
        requires
            self.wf(),
        ensures
            !encrypt_ready(self.nodes@, my_leaf_idx as nat) ==> r matches Err(Error::TreeError(_)),
            encrypt_ready(self.nodes@, my_leaf_idx as nat) ==> r is Ok || r matches Err(
                Error::EncryptionError,
            ),
            encrypt_ready(self.nodes@, my_leaf_idx as nat) && no_recipients(
                self.nodes@,
                my_leaf_idx as nat,
            ) ==> r is Ok,
            r matches Err(Error::TreeError(_)) ==> *final(csprng) == *old(csprng),
            r matches Ok(m) ==> direct_path_message_from(self.nodes@, my_leaf_idx as nat, m),
    {
        let ghost nodes = self.nodes@;
        let ghost n = nodes.len();
        let ghost e = ext_path(my_leaf_idx as nat, n);
        let plan = match self.direct_path_recipients(my_leaf_idx) {
            Ok(plan) => plan,
            Err(err) => {
                return Err(err);
            },
        };
        let my_public_key = match self.nodes[my_leaf_idx].get_public_key() {
            Some(pk) => pk.duplicate(),
            None => {
                return Err(Error::TreeError("My tree index is blank"));
            },
        };
        proof {
            lemma_ext_path(my_leaf_idx as nat, n);
        }
        let mut node_messages: Vec<DirectPathNodeMessage> = Vec::new();
        node_messages.push(
            DirectPathNodeMessage { public_key: my_public_key, node_secrets: Vec::new() },
        );
        let mut t: usize = 0;
        while t < plan.len()
            invariant
                t <= plan@.len(),
                n == nodes.len(),
                e == ext_path(my_leaf_idx as nat, n),
                e.len() >= 1,
                self.nodes@ == nodes,
                self.wf(),
                encrypt_ready(nodes, my_leaf_idx as nat),
                recipients_of(nodes, my_leaf_idx as nat, plan@),
                node_messages@.len() == t + 1,
                node_messages@[0].node_secrets@.len() == 0,
                forall|q: int|
                    0 <= q < node_messages@.len() ==> (#[trigger] node_messages@[q]).public_key.bytes@
                        == public_bytes(nodes[e[q] as int]),
                forall|q: int|
                    1 <= q < node_messages@.len() ==> (#[trigger] node_messages@[q]).node_secrets@.len()
                        == resolution_of(nodes, sibling_of(e[q - 1], n)).len(),
            decreases plan@.len() - t,
        {
            let parent_idx = plan[t].0;
            let recipients = &plan[t].1;
            proof {
                assert(as_nats(recipients@) == resolution_of(nodes, sibling_of(e[t as int], n)));
                assert(plan@[t as int].0 as nat == e[t + 1]);
                assert(has_secret(nodes[e[t + 1] as int]));
                lemma_ext_path(my_leaf_idx as nat, n);
                assert(e[t + 1] < n);
                let c = sibling_of(e[t as int], n);
                crate::tree_math::lemma_sibling_bound(e[t as int], n);
                let w = window_of(c, n);
                lemma_window(c, n);
                lemma_res_window(nodes, w.0, w.1);
                assert forall|j: int| 0 <= j < recipients@.len() implies recipients@[j] < n
                    && nodes[recipients@[j] as int] is Filled by {
                    assert(as_nats(recipients@)[j] == recipients@[j] as nat);
                }
            }
            let parent = &self.nodes[parent_idx];
            let parent_public_key = match parent.get_public_key() {
                Some(pk) => pk.duplicate(),
                None => {
                    return Err(Error::TreeError("Non-blank node has a blank parent"));
                },
            };
            let parent_secret = match parent.get_secret() {
                Some(s) => s,
                None => {
                    return Err(Error::TreeError("Node doesn't know its parent's secret"));
                },
            };
            let mut node_secrets: Vec<EciesCiphertext> = Vec::new();
            let mut j: usize = 0;
            while j < recipients.len()
                invariant
                    j <= recipients@.len(),
                    node_secrets@.len() == j,
                    n == nodes.len(),
                    self.nodes@ == nodes,
                    t < plan@.len(),
                    e == ext_path(my_leaf_idx as nat, n),
                    encrypt_ready(nodes, my_leaf_idx as nat),
                    recipients_of(nodes, my_leaf_idx as nat, plan@),
                    as_nats(recipients@) == resolution_of(nodes, sibling_of(e[t as int], n)),
                    forall|q: int| 0 <= q < recipients@.len() ==> recipients@[q] < n,
                    forall|q: int|
                        0 <= q < recipients@.len() ==> nodes[recipients@[q] as int] is Filled,
                decreases recipients@.len() - j,
            {
                let others_public_key = match self.nodes[recipients[j]].get_public_key() {
                    Some(pk) => pk,
                    None => {
                        return Err(Error::TreeError("Resolution holds a blank node"));
                    },
                };
                match cs.ecies_encrypt(others_public_key, parent_secret, csprng) {
                    Ok(ct) => node_secrets.push(ct),
                    Err(_) => {
                        proof {
                            assert(as_nats(recipients@).len() > 0);
                            assert(resolution_of(nodes, sibling_of(e[(t + 1) - 1], n)).len() > 0);
                            assert(!no_recipients(nodes, my_leaf_idx as nat));
                        }
                        return Err(Error::EncryptionError);
                    },
                }
                j = j + 1;
            }
            proof {
                assert(recipients@.len() == as_nats(recipients@).len());
            }
            node_messages.push(
                DirectPathNodeMessage { public_key: parent_public_key, node_secrets: node_secrets },
            );
            t = t + 1;
        }
        let m = DirectPathMessage { node_messages };
        proof {
            assert(direct_path_message_from(nodes, my_leaf_idx as nat, m));
        }
        Ok(m)
    }
    /// Finds the one ciphertext of `direct_path_msg`, sent by `sender_tree_idx`,
    /// that `my_tree_idx` can open: the position `k` of the common ancestor on
    /// the sender's extended direct path, the first position `j` of the
    /// resolution below it on `my_tree_idx`'s side whose node holds a private
    /// key and is an ancestor of `my_tree_idx`, and that node `x`.
    pub fn find_ciphertext(
        &self,
        direct_path_msg: &DirectPathMessage,
        sender_tree_idx: usize,
        my_tree_idx: usize,
    ) -> (r: Result<(usize, usize, usize), Error>)
        requires
            self.wf(),
        ensures
            !decrypt_ready(self.nodes@, *direct_path_msg, sender_tree_idx as nat, my_tree_idx as nat)
                ==> r matches Err(Error::TreeError(_)),
            decrypt_ready(self.nodes@, *direct_path_msg, sender_tree_idx as nat, my_tree_idx as nat)
                ==> (r matches Ok((k, j, x)) && {
                let n = self.nodes@.len();
                let ca = common_ancestor_of(sender_tree_idx as nat, my_tree_idx as nat, n);
                let res = resolution_of(self.nodes@, copath_child(ca, my_tree_idx as nat, n));
                &&& k < ext_path(sender_tree_idx as nat, n).len()
                &&& ext_path(sender_tree_idx as nat, n)[k as int] == ca
                &&& first_holder_at(self.nodes@, res, my_tree_idx as nat, j as int)
                &&& x as nat == res[j as int]
                &&& x < n
                &&& k < direct_path_msg.node_messages@.len()
                &&& j < direct_path_msg.node_messages@[k as int].node_secrets@.len()
            }),
            malformed_for(self.nodes@, *direct_path_msg, sender_tree_idx as nat, my_tree_idx as nat)
                ==> (r matches Err(Error::TreeError(text)) && text == "Malformed DirectPathMessage"),
    {
        let ghost nodes = self.nodes@;
        let ghost n = nodes.len();
        let ghost sender = sender_tree_idx as nat;
        let ghost my = my_tree_idx as nat;
        if sender_tree_idx >= self.nodes.len() || my_tree_idx >= self.nodes.len() {
            return Err(Error::TreeError("Input index out of range"));
        }
        proof {
            lemma_leaves(n);
        }
        let num_leaves = num_leaves_in_tree(self.nodes.len());
        if is_ancestor(sender_tree_idx, my_tree_idx, num_leaves) || is_ancestor(
            my_tree_idx,
            sender_tree_idx,
            num_leaves,
        ) {
            return Err(Error::TreeError("Cannot decrypt messages from ancestors or descendants"));
        }
        let common_ancestor_idx = common_ancestor(sender_tree_idx, my_tree_idx, num_leaves);
        let ghost ca = common_ancestor_idx as nat;
        let path = node_extended_direct_path(sender_tree_idx, num_leaves);
        let ghost e = ext_path(sender, n);
        proof {
            lemma_common_ancestor(sender, my, n);
            lemma_ext_path(sender, n);
            assert forall|t: int| 0 <= t < path@.len() implies path@[t] as nat == e[t] by {
                assert(as_nats(path@)[t] == path@[t] as nat);
            }
        }
        // The position of the common ancestor on the sender's extended direct path.
        let mut k: usize = 0;
        while k < path.len() && path[k] != common_ancestor_idx
            invariant
                k <= path@.len(),
                path@.len() == e.len(),
                forall|q: int| 0 <= q < path@.len() ==> path@[q] as nat == e[q],
                forall|q: int| 0 <= q < k ==> e[q] != ca,
                ca == common_ancestor_idx as nat,
            decreases path@.len() - k,
        {
            k = k + 1;
        }
        proof {
            assert(e.contains(ca));
            let q = choose|q: int| 0 <= q < e.len() && e[q] == ca;
            assert(k < path@.len());
            assert(e[k as int] == ca);
            assert forall|q: int| 0 <= q < e.len() && e[q] == ca implies q == k by {
                if q != k {
                    assert(e[q] != e[k as int]);
                }
            }
        }
        if k >= direct_path_msg.node_messages.len() {
            return Err(Error::TreeError("Malformed DirectPathMessage"));
        }
        let node_msg = &direct_path_msg.node_messages[k];
        let left = node_left_child(common_ancestor_idx, num_leaves);
        let right = node_right_child(common_ancestor_idx, num_leaves);
        let copath_ancestor_idx = if is_ancestor(left, my_tree_idx, num_leaves) {
            left
        } else {
            right
        };
        let resolution = self.resolution(copath_ancestor_idx);
        let ghost res = resolution_of(nodes, copath_child(ca, my, n));
        proof {
            assert forall|t: int| 0 <= t < resolution@.len() implies resolution@[t] as nat
                == res[t] by {
                assert(as_nats(resolution@)[t] == resolution@[t] as nat);
            }
        }
        let mut j: usize = 0;
        while j < resolution.len()
            invariant
                j <= resolution@.len(),
                resolution@.len() == res.len(),
                res == resolution_of(nodes, copath_child(ca, my, n)),
                forall|q: int| 0 <= q < resolution@.len() ==> resolution@[q] as nat == res[q],
                forall|q: int| 0 <= q < resolution@.len() ==> resolution@[q] < n,
                forall|q: int| 0 <= q < j ==> !holds_key_for(nodes, #[trigger] res[q], my),
                self.nodes@ == nodes,
                n == nodes.len(),
                1 <= num_leaves <= usize::MAX / 2,
                n == nodes_of(num_leaves as nat),
                my < n,
                sender < n,
                my == my_tree_idx as nat,
                sender == sender_tree_idx as nat,
                ca == common_ancestor_idx as nat,
                copath_ancestor_idx as nat == copath_child(ca, my, n),
                !is_ancestor_of(sender, my, n),
                !is_ancestor_of(my, sender, n),
                e == ext_path(sender, n),
                ca == common_ancestor_of(sender, my, n),
                k < e.len(),
                e[k as int] == ca,
                k < direct_path_msg.node_messages@.len(),
                *node_msg == direct_path_msg.node_messages@[k as int],
                forall|q: int| 0 <= q < e.len() && e[q] == ca ==> q == k,
            decreases resolution@.len() - j,
        {
            let res_node_idx = resolution[j];
            match self.nodes[res_node_idx].get_private_key() {
                Some(decryption_key) => {
                    if is_ancestor(res_node_idx, my_tree_idx, num_leaves) {
                        proof {
                            assert(holds_key_for(nodes, res[j as int], my));
                            assert(first_holder_at(nodes, res, my, j as int));
                            assert forall|j2: int| first_holder_at(nodes, res, my, j2) implies j2
                                == j by {
                                if j2 < j {
                                } else if j2 > j {
                                    assert(!holds_key_for(nodes, res[j as int], my));
                                }
                            }
                        }
                        if j >= node_msg.node_secrets.len() {
                            proof {
                                if decrypt_ready(nodes, *direct_path_msg, sender, my) {
                                    let k2 = choose|k2: int|
                                        0 <= k2 < e.len() && e[k2] == ca && k2
                                            < direct_path_msg.node_messages@.len() && exists|j2: int|
                                            first_holder_at(nodes, res, my, j2) && j2
                                                < direct_path_msg.node_messages@[k2].node_secrets@.len();
                                    assert(k2 == k);
                                    let j2 = choose|j2: int|
                                        first_holder_at(nodes, res, my, j2) && j2
                                            < direct_path_msg.node_messages@[k2].node_secrets@.len();
                                    assert(j2 == j);
                                }
                            }
                            return Err(Error::TreeError("Malformed DirectPathMessage"));
                        }
                        proof {
                            let msgs = direct_path_msg.node_messages@;
                            assert(first_holder_at(nodes, res, my, j as int) && (j as int)
                                < msgs[k as int].node_secrets@.len());
                            assert(exists|j2: int|
                                first_holder_at(nodes, res, my, j2) && j2
                                    < msgs[k as int].node_secrets@.len());
                            assert(decrypt_ready(nodes, *direct_path_msg, sender, my));
                        }
                        return Ok((k, j, res_node_idx));
                    }
                },
                None => {},
            }
            proof {
                assert(!holds_key_for(nodes, res[j as int], my));
            }
            j = j + 1;
        }
        proof {
            assert forall|j2: int| !first_holder_at(nodes, res, my, j2) by {
                if 0 <= j2 < res.len() {
                    assert(!holds_key_for(nodes, res[j2], my));
                }
            }
        }
        Err(Error::TreeError("Cannot find node in resolution with known private key"))
    }

    /// Finds the one ciphertext of `direct_path_msg`, sent by `sender_tree_idx`,
    /// that `my_tree_idx` can open, and opens it with the private key of the node
    /// that `find_ciphertext` names. Returns the plaintext, the secret of the
    /// common ancestor of the two nodes, with that ancestor.
    pub fn decrypt_direct_path_message<C: CipherSuite>(
        &self,
        cs: &C,
        direct_path_msg: &DirectPathMessage,
        sender_tree_idx: usize,
        my_tree_idx: usize,
    ) -> (r: Result<(Vec<u8>, usize), Error>)
        requires
            self.wf(),
        ensures
            !decrypt_ready(self.nodes@, *direct_path_msg, sender_tree_idx as nat, my_tree_idx as nat)
                ==> r matches Err(Error::TreeError(_)),
            decrypt_ready(self.nodes@, *direct_path_msg, sender_tree_idx as nat, my_tree_idx as nat)
                ==> r is Ok || r matches Err(Error::EncryptionError),
            r matches Ok((_, idx)) ==> idx == common_ancestor_of(
                sender_tree_idx as nat,
                my_tree_idx as nat,
                self.nodes@.len(),
            ),
            malformed_for(self.nodes@, *direct_path_msg, sender_tree_idx as nat, my_tree_idx as nat)
                ==> (r matches Err(Error::TreeError(text)) && text == "Malformed DirectPathMessage"),
    {
        let (k, j, x) = match self.find_ciphertext(direct_path_msg, sender_tree_idx, my_tree_idx) {
            Ok(found) => found,
            Err(e) => {
                return Err(e);
            },
        };
        let decryption_key = match self.nodes[x].get_private_key() {
            Some(key) => key,
            None => {
                return Err(Error::TreeError("Cannot find node in resolution with known private key"));
            },
        };
        let ciphertext = &direct_path_msg.node_messages[k].node_secrets[j];
        proof {
            let n = self.nodes@.len();
            lemma_ext_path(sender_tree_idx as nat, n);
        }
        let common_ancestor_idx = self.nodes_common_ancestor(sender_tree_idx, my_tree_idx);
        match cs.ecies_decrypt(decryption_key, ciphertext) {
            Ok(pt) => Ok((pt, common_ancestor_idx)),
            Err(_) => Err(Error::EncryptionError),
        }
    }

    /// The common ancestor of two nodes of the tree.
    fn nodes_common_ancestor(&self, i: usize, j: usize) -> (a: usize)
        requires
            self.wf(),
            i < self.nodes@.len(),
            j < self.nodes@.len(),
        ensures
            a == common_ancestor_of(i as nat, j as nat, self.nodes@.len()),
    {
        proof {
            lemma_leaves(self.nodes@.len());
        }
        common_ancestor(i, j, num_leaves_in_tree(self.nodes.len()))
    }

    /// Sets the path secret of `start_idx` to `path_secret` and derives, for it
    /// and each ancestor up to the root, the node secret and key pair; each
    /// step's path secret is expanded from the one below it. On an error the
    /// nodes already updated stay updated.
    pub fn propogate_new_path_secret<C: CipherSuite>(
        &mut self,
        cs: &C,
        path_secret: Vec<u8>,
        start_idx: usize,
    ) -> (r: Result<(), Error>)
        requires
            old(self).wf(),
            start_idx < old(self).nodes@.len(),
            path_secret@.len() <= MAX_HASH_INPUT,
        ensures
            final(self).wf(),
            final(self).nodes@.len() == old(self).nodes@.len(),
            r is Ok ==> forall|t: int|
                0 <= t < ext_path(start_idx as nat, old(self).nodes@.len()).len()
                    ==> keyed_with_secret(
                    #[trigger] final(self).nodes@[ext_path(
                        start_idx as nat,
                        old(self).nodes@.len(),
                    )[t] as int],
                    node_secret_at(path_secret@, t as nat),
                ),
            forall|i: int|
                0 <= i < old(self).nodes@.len() && !ext_path(
                    start_idx as nat,
                    old(self).nodes@.len(),
                ).contains(i as nat) ==> #[trigger] final(self).nodes@[i] == old(self).nodes@[i],
            exists|f: int|
                #[trigger] updated_up_to(
                    old(self).nodes@,
                    final(self).nodes@,
                    ext_path(start_idx as nat, old(self).nodes@.len()),
                    path_secret@,
                    f,
                ),
    {
        let ghost n = self.nodes@.len();
        let ghost e = ext_path(start_idx as nat, n);
        let ghost ps0 = path_secret@;
        proof {
            lemma_leaves(n);
            lemma_ext_path(start_idx as nat, n);
        }
        let num_leaves = num_leaves_in_tree(self.nodes.len());
        let path = node_extended_direct_path(start_idx, num_leaves);
        proof {
            assert forall|t: int| 0 <= t < path@.len() implies path@[t] as nat == e[t] by {
                assert(as_nats(path@)[t] == path@[t] as nat);
            }
        }
        let mut current = copy_bytes(&path_secret);
        let node_label_v = node_label_bytes();
        let path_label_v = path_label_bytes();
        let no_context: Vec<u8> = Vec::new();
        proof {
            assert(no_context@ =~= Seq::<u8>::empty());
        }
        let mut t: usize = 0;
        while t < path.len()
            invariant
                t <= path@.len(),
                path@.len() == e.len(),
                e == ext_path(start_idx as nat, n),
                e.no_duplicates(),
                forall|q: int| 0 <= q < path@.len() ==> path@[q] as nat == e[q],
                forall|q: int| 0 <= q < path@.len() ==> path@[q] < n,
                self.nodes@.len() == n,
                n == old(self).nodes@.len(),
                valid_size(n),
                node_label_v@ == node_label(),
                path_label_v@ == path_label(),
                no_context@ == Seq::<u8>::empty(),
                current@ == path_secret_at(ps0, t as nat),
                path_secret@ == ps0,
                current@.len() <= MAX_HASH_INPUT,
                forall|q: int|
                    0 <= q < t ==> keyed_with_secret(
                        #[trigger] self.nodes@[e[q] as int],
                        node_secret_at(ps0, q as nat),
                    ),
                forall|i: int|
                    0 <= i < n && (forall|q: int| 0 <= q < t ==> e[q] != i as nat)
                        ==> #[trigger] self.nodes@[i] == old(self).nodes@[i],
            decreases path@.len() - t,
        {
            let prk = hkdf_extract(&current);
            let node_secret = hkdf_expand_label(&prk, &node_label_v, &no_context);
            current = hkdf_expand_label(&prk, &path_label_v, &no_context);
            let key_pair = cs.derive_key_pair(&node_secret);
            let (node_public_key, node_private_key) = match key_pair {
                Ok(kp) => kp,
                Err(err) => {
                    proof {
                        assert forall|i: int|
                            0 <= i < n && !e.contains(i as nat) implies #[trigger] self.nodes@[i]
                            == old(self).nodes@[i] by {
                            assert forall|q: int| 0 <= q < t implies e[q] != i as nat by {
                                if e[q] == i as nat {
                                    assert(e.contains(i as nat));
                                }
                            }
                        }
                        assert forall|q: int| t <= q < e.len() implies #[trigger] self.nodes@[e[q] as int]
                            == old(self).nodes@[e[q] as int] by {
                            assert forall|q2: int| 0 <= q2 < t implies e[q2] != e[q] as nat by {
                                assert(q2 != q);
                            }
                        }
                        assert(updated_up_to(old(self).nodes@, self.nodes@, e, ps0, t as int));
                    }
                    return Err(err);
                },
            };
            let idx = path[t];
            let ghost before = self.nodes@;
            match self.get_mut(idx) {
                Some(node) => {
                    node.update_public_key(node_public_key);
                    let set_key = node.update_private_key(node_private_key);
                    let set_secret = node.update_secret(node_secret);
                    proof {
                        assert(set_key is Ok && set_secret is Ok);
                    }
                },
                None => {},
            }
            proof {
                assert(self.nodes@ == before.update(
                    idx as int,
                    RatchetTreeNode::Filled {
                        public_key: node_public_key,
                        private_key: Some(node_private_key),
                        secret: Some(node_secret),
                    },
                ));
                assert(keyed_with_secret(self.nodes@[e[t as int] as int], node_secret_at(ps0, t as nat)));
                assert forall|q: int| 0 <= q < t + 1 implies keyed_with_secret(
                    #[trigger] self.nodes@[e[q] as int],
                    node_secret_at(ps0, q as nat),
                ) by {
                    if q < t {
                        assert(e[q] != e[t as int]);
                    }
                }
            }
            t = t + 1;
        }
        proof {
            assert forall|i: int|
                0 <= i < n && !e.contains(i as nat) implies #[trigger] self.nodes@[i]
                == old(self).nodes@[i] by {
                assert forall|q: int| 0 <= q < t implies e[q] != i as nat by {
                    if e[q] == i as nat {
                        assert(e.contains(i as nat));
                    }
                }
            }
            assert(updated_up_to(old(self).nodes@, self.nodes@, e, ps0, e.len() as int));
        }
        Ok(())
    }
}

} // verus!
