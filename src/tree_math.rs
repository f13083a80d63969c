//! Index arithmetic of left-balanced binary trees.
//!
//! A tree of `n` nodes (`n` odd) stores its nodes in order: the root sits at
//! `2^k - 1`, where `2^k` is the largest power of two not above `n`; to its
//! left lies the complete tree of the `2^k - 1` nodes before it, and to its
//! right the left-balanced tree of the nodes after it. Every definition here
//! follows that split, so each is a recursion on the node count.
use vstd::prelude::*;

verus! {

/// The largest power of two that is at most `n` (one when `n < 2`).
pub open spec fn pow2_floor(n: nat) -> nat
    decreases n,
{
    if n < 2 {
        1
    } else {
        2 * pow2_floor(n / 2)
    }
}

/// Index of the root of a tree of `n` nodes.
pub open spec fn root_of(n: nat) -> nat {
    (pow2_floor(n) - 1) as nat
}

/// A tree of `n` nodes whose root has two subtrees.
pub open spec fn splits(n: nat) -> bool {
    n % 2 == 1 && n >= 3 && root_of(n) < n
}

/// Node count of the right subtree of a tree of `n` nodes.
pub open spec fn right_size(n: nat) -> nat {
    (n - root_of(n) - 1) as nat
}

pub proof fn lemma_pow2_floor(n: nat)
    requires
        n >= 1,
    ensures
        1 <= pow2_floor(n) <= n < 2 * pow2_floor(n),
        n >= 2 ==> pow2_floor(n) % 2 == 0,
    decreases n,
{
    if n >= 2 {
        lemma_pow2_floor(n / 2);
    }
}

/// The two subtrees of a splitting tree are odd-sized trees, both smaller.
pub proof fn lemma_split(n: nat)
    requires
        n % 2 == 1,
        n >= 3,
    ensures
        splits(n),
        root_of(n) % 2 == 1,
        1 <= root_of(n) < n,
        right_size(n) % 2 == 1,
        1 <= right_size(n) < n,
        root_of(n) + 1 + right_size(n) == n,
{
    lemma_pow2_floor(n);
}

pub proof fn lemma_root_bound(n: nat)
    requires
        n % 2 == 1,
    ensures
        root_of(n) < n,
        n == 1 ==> root_of(n) == 0,
{
    lemma_pow2_floor(n);
}

/// The in-tree parent of `x`; the root is its own parent.
pub open spec fn parent_of(x: nat, n: nat) -> nat
    decreases n
{
    if splits(n) && x < n && x != root_of(n) {
        let r = root_of(n);
        if x < r {
            if x == root_of(r) {
                r
            } else {
                parent_of(x, r)
            }
        } else {
            let y = (x - r - 1) as nat;
            let m = right_size(n);
            if y == root_of(m) {
                r
            } else {
                r + 1 + parent_of(y, m)
            }
        }
    } else {
        x
    }
}

/// The left child of `x`; a leaf is its own child.
pub open spec fn left_child_of(x: nat, n: nat) -> nat
    decreases n
{
    if splits(n) && x < n {
        let r = root_of(n);
        if x == r {
            root_of(r)
        } else if x < r {
            left_child_of(x, r)
        } else {
            r + 1 + left_child_of((x - r - 1) as nat, right_size(n))
        }
    } else {
        x
    }
}

/// The right child of `x`; a leaf is its own child.
pub open spec fn right_child_of(x: nat, n: nat) -> nat
    decreases n
{
    if splits(n) && x < n {
        let r = root_of(n);
        if x == r {
            r + 1 + root_of(right_size(n))
        } else if x < r {
            right_child_of(x, r)
        } else {
            r + 1 + right_child_of((x - r - 1) as nat, right_size(n))
        }
    } else {
        x
    }
}

/// The other child of the parent of `x`.
pub open spec fn sibling_of(x: nat, n: nat) -> nat {
    let p = parent_of(x, n);
    if x < p {
        right_child_of(p, n)
    } else {
        left_child_of(p, n)
    }
}

pub open spec fn shift(s: Seq<nat>, k: nat) -> Seq<nat> {
    s.map_values(|v: nat| v + k)
}

/// `x` followed by all its ancestors, ending with the root.
pub open spec fn ext_path(x: nat, n: nat) -> Seq<nat>
    decreases n
{
    if splits(n) && x < n && x != root_of(n) {
        let r = root_of(n);
        if x < r {
            ext_path(x, r).push(r)
        } else {
            shift(ext_path((x - r - 1) as nat, right_size(n)), r + 1).push(r)
        }
    } else {
        seq![x]
    }
}

/// The strict ancestors of `x`, from its parent up to, not including, the root.
pub open spec fn direct_path(x: nat, n: nat) -> Seq<nat> {
    let e = ext_path(x, n);
    if e.len() >= 2 {
        e.subrange(1, e.len() - 1)
    } else {
        seq![]
    }
}

/// `a` lies on the extended direct path of `d`.
pub open spec fn is_ancestor_of(a: nat, d: nat, n: nat) -> bool {
    ext_path(d, n).contains(a)
}

/// The lowest node whose subtree holds both `i` and `j`.
pub open spec fn common_ancestor_of(i: nat, j: nat, n: nat) -> nat
    decreases n
{
    if splits(n) && i < n && j < n {
        let r = root_of(n);
        if i < r && j < r {
            common_ancestor_of(i, j, r)
        } else if i > r && j > r {
            r + 1 + common_ancestor_of((i - r - 1) as nat, (j - r - 1) as nat, right_size(n))
        } else {
            r
        }
    } else {
        i
    }
}

/// The subtree of a tree of `n` nodes that has `x` as its root, as its first
/// index and its node count.
pub open spec fn window_of(x: nat, n: nat) -> (nat, nat)
    decreases n
{
    if splits(n) && x < n && x != root_of(n) {
        let r = root_of(n);
        if x < r {
            window_of(x, r)
        } else {
            let w = window_of((x - r - 1) as nat, right_size(n));
            (w.0 + r + 1, w.1)
        }
    } else {
        (0, n)
    }
}

/// Node count of a tree of `num_leaves` leaves.
pub open spec fn nodes_of(num_leaves: nat) -> nat {
    if num_leaves == 0 {
        0
    } else {
        (2 * num_leaves - 1) as nat
    }
}

/// Leaf count of a tree of `num_nodes` nodes.
pub open spec fn leaves_of(num_nodes: nat) -> nat {
    (num_nodes + 1) / 2
}

/// The extended direct path starts at `x`, ends at the root, stays in the tree
/// and visits no node twice.
#[verifier::rlimit(100)]
#[verifier::spinoff_prover]
pub proof fn lemma_ext_path(x: nat, n: nat)
    requires
        n % 2 == 1,
        x < n,
    ensures
        ext_path(x, n).len() >= 1,
        ext_path(x, n)[0] == x,
        ext_path(x, n).last() == root_of(n),
        forall|k: int| 0 <= k < ext_path(x, n).len() ==> #[trigger] ext_path(x, n)[k] < n,
        ext_path(x, n).no_duplicates(),
    decreases n,
{
    lemma_root_bound(n);
    if n >= 3 {
        lemma_split(n);
        let r = root_of(n);
        if x == r {
        } else if x < r {
            lemma_ext_path(x, r);
            let sub = ext_path(x, r);
            let e = ext_path(x, n);
            assert(e == sub.push(r));
            assert(e[0] == sub[0]);
            assert forall|a: int, b: int| 0 <= a < e.len() && 0 <= b < e.len() && a != b implies e[a]
                != e[b] by {
                if a < sub.len() && b < sub.len() {
                    assert(sub[a] != sub[b]);
                } else if a < sub.len() {
                    assert(sub[a] < r);
                } else if b < sub.len() {
                    assert(sub[b] < r);
                }
            }
            assert forall|k: int| 0 <= k < e.len() implies #[trigger] e[k] < n by {
                if k < sub.len() {
                    assert(sub[k] < r);
                }
            }
        } else {
            let y = (x - r - 1) as nat;
            let m = right_size(n);
            lemma_ext_path(y, m);
            let sub = ext_path(y, m);
            let sh = shift(sub, r + 1);
            let e = ext_path(x, n);
            assert(e == sh.push(r));
            assert(e[0] == sh[0]);
            assert forall|a: int, b: int| 0 <= a < e.len() && 0 <= b < e.len() && a != b implies e[a]
                != e[b] by {
                if a < sub.len() && b < sub.len() {
                    assert(sub[a] != sub[b]);
                    assert(e[a] == sub[a] + r + 1);
                    assert(e[b] == sub[b] + r + 1);
                } else if a < sub.len() {
                    assert(e[a] == sub[a] + r + 1);
                } else if b < sub.len() {
                    assert(e[b] == sub[b] + r + 1);
                }
            }
            assert forall|k: int| 0 <= k < e.len() implies #[trigger] e[k] < n by {
                if k < sub.len() {
                    assert(sub[k] < m);
                    assert(e[k] == sub[k] + r + 1);
                }
            }
        }
    }
}

/// The common ancestor of two nodes lies on the extended direct path of each.
#[verifier::rlimit(100)]
#[verifier::spinoff_prover]
pub proof fn lemma_common_ancestor(i: nat, j: nat, n: nat)
    requires
        n % 2 == 1,
        i < n,
        j < n,
    ensures
        common_ancestor_of(i, j, n) < n,
        is_ancestor_of(common_ancestor_of(i, j, n), i, n),
        is_ancestor_of(common_ancestor_of(i, j, n), j, n),
    decreases n,
{
    lemma_root_bound(n);
    lemma_ext_path(i, n);
    lemma_ext_path(j, n);
    let ei = ext_path(i, n);
    let ej = ext_path(j, n);
    if n >= 3 {
        lemma_split(n);
        let r = root_of(n);
        if i < r && j < r {
            lemma_common_ancestor(i, j, r);
            let c = common_ancestor_of(i, j, r);
            let si = ext_path(i, r);
            let sj = ext_path(j, r);
            let ki = choose|k: int| 0 <= k < si.len() && si[k] == c;
            let kj = choose|k: int| 0 <= k < sj.len() && sj[k] == c;
            assert(ei[ki] == c);
            assert(ej[kj] == c);
        } else if i > r && j > r {
            let m = right_size(n);
            let yi = (i - r - 1) as nat;
            let yj = (j - r - 1) as nat;
            lemma_common_ancestor(yi, yj, m);
            let c = common_ancestor_of(yi, yj, m);
            let si = ext_path(yi, m);
            let sj = ext_path(yj, m);
            let ki = choose|k: int| 0 <= k < si.len() && si[k] == c;
            let kj = choose|k: int| 0 <= k < sj.len() && sj[k] == c;
            assert(ei[ki] == c + r + 1);
            assert(ej[kj] == c + r + 1);
        } else {
            assert(ei[ei.len() - 1] == r);
            assert(ej[ej.len() - 1] == r);
        }
    } else {
        assert(ei[0] == i);
    }
}

/// The subtree of `x` lies inside the tree and has `x` as its root.
pub proof fn lemma_window(x: nat, n: nat)
    requires
        n % 2 == 1,
        x < n,
    ensures
        window_of(x, n).0 + window_of(x, n).1 <= n,
        window_of(x, n).1 % 2 == 1,
        window_of(x, n).0 + root_of(window_of(x, n).1) == x,
    decreases n,
{
    lemma_root_bound(n);
    if n >= 3 {
        lemma_split(n);
        let r = root_of(n);
        if x < r {
            lemma_window(x, r);
        } else if x > r {
            lemma_window((x - r - 1) as nat, right_size(n));
        }
    }
}

/// The parent of a node lies in the tree; the parent of any node but the root
/// is an internal node.
pub proof fn lemma_parent(x: nat, n: nat)
    requires
        n % 2 == 1,
        x < n,
    ensures
        parent_of(x, n) < n,
        x != root_of(n) ==> parent_of(x, n) % 2 == 1,
    decreases n,
{
    lemma_root_bound(n);
    if n >= 3 {
        lemma_split(n);
        let r = root_of(n);
        if x < r {
            lemma_root_bound(r);
            if x != root_of(r) {
                lemma_parent(x, r);
            }
        } else if x > r {
            let y = (x - r - 1) as nat;
            lemma_root_bound(right_size(n));
            if y != root_of(right_size(n)) {
                lemma_parent(y, right_size(n));
            }
        }
    }
}

/// The children of an internal node lie on either side of it and have it as
/// their parent.
#[verifier::rlimit(100)]
#[verifier::spinoff_prover]
pub proof fn lemma_children(p: nat, n: nat)
    requires
        n % 2 == 1,
        p < n,
        p % 2 == 1,
    ensures
        left_child_of(p, n) < p < right_child_of(p, n) < n,
        parent_of(left_child_of(p, n), n) == p,
        parent_of(right_child_of(p, n), n) == p,
    decreases n,
{
    lemma_root_bound(n);
    if n >= 3 {
        lemma_split(n);
        let r = root_of(n);
        let m = right_size(n);
        lemma_root_bound(r);
        lemma_root_bound(m);
        if p < r {
            lemma_children(p, r);
            lemma_root_bound(r);
            if left_child_of(p, r) == root_of(r) {
                lemma_parent(p, r);
            }
            if right_child_of(p, r) == root_of(r) {
                lemma_parent(p, r);
            }
        } else if p > r {
            let q = (p - r - 1) as nat;
            lemma_children(q, m);
        }
    }
}

/// Every node but the root is a child of its parent.
#[verifier::rlimit(100)]
#[verifier::spinoff_prover]
pub proof fn lemma_parent_child(x: nat, n: nat)
    requires
        n % 2 == 1,
        x < n,
        x != root_of(n),
    ensures
        left_child_of(parent_of(x, n), n) == x || right_child_of(parent_of(x, n), n) == x,
        x < parent_of(x, n) ==> left_child_of(parent_of(x, n), n) == x,
        x > parent_of(x, n) ==> right_child_of(parent_of(x, n), n) == x,
    decreases n,
{
    lemma_root_bound(n);
    lemma_parent(x, n);
    lemma_children(parent_of(x, n), n);
    if n >= 3 {
        lemma_split(n);
        let r = root_of(n);
        if x < r {
            if x != root_of(r) {
                lemma_parent_child(x, r);
                lemma_parent(x, r);
            }
        } else {
            let y = (x - r - 1) as nat;
            if y != root_of(right_size(n)) {
                lemma_parent_child(y, right_size(n));
                lemma_parent(y, right_size(n));
            }
        }
    }
}

/// Siblings are mutual: the sibling of the sibling of a node is the node.
#[verifier::rlimit(100)]
#[verifier::spinoff_prover]
pub proof fn lemma_sibling(x: nat, n: nat)
    requires
        n % 2 == 1,
        x < n,
        x != root_of(n),
    ensures
        sibling_of(x, n) < n,
        parent_of(sibling_of(x, n), n) == parent_of(x, n),
        sibling_of(x, n) != root_of(n),
        sibling_of(sibling_of(x, n), n) == x,
{
    lemma_root_bound(n);
    lemma_parent(x, n);
    let p = parent_of(x, n);
    lemma_children(p, n);
    lemma_parent_child(x, n);
    let s = sibling_of(x, n);
    if s == root_of(n) {
        lemma_parent(p, n);
        if p != root_of(n) {
            lemma_children(parent_of(p, n), n);
        }
        lemma_root_is_own_parent(n);
    }
}

/// The root is its own parent.
pub proof fn lemma_root_is_own_parent(n: nat)
    requires
        n % 2 == 1,
    ensures
        parent_of(root_of(n), n) == root_of(n),
{
}

/// The index algebra of a tree of `num_leaves` leaves, for nodes `i` and `j`:
/// a node other than the root is the left or the right child of its parent,
/// siblings are mutual, and the common ancestor of `i` and `j` is an ancestor
/// of both.
pub proof fn law_tree_index_algebra(num_leaves: nat, i: nat, j: nat)
    requires
        num_leaves >= 1,
        i < nodes_of(num_leaves),
        j < nodes_of(num_leaves),
    ensures
        i != root_of(nodes_of(num_leaves)) ==> (left_child_of(
            parent_of(i, nodes_of(num_leaves)),
            nodes_of(num_leaves),
        ) == i || right_child_of(parent_of(i, nodes_of(num_leaves)), nodes_of(num_leaves)) == i),
        i != root_of(nodes_of(num_leaves)) ==> sibling_of(
            sibling_of(i, nodes_of(num_leaves)),
            nodes_of(num_leaves),
        ) == i,
        is_ancestor_of(
            common_ancestor_of(i, j, nodes_of(num_leaves)),
            i,
            nodes_of(num_leaves),
        ),
        is_ancestor_of(
            common_ancestor_of(i, j, nodes_of(num_leaves)),
            j,
            nodes_of(num_leaves),
        ),
{
    let n = nodes_of(num_leaves);
    if i != root_of(n) {
        lemma_parent_child(i, n);
        lemma_sibling(i, n);
    }
    lemma_common_ancestor(i, j, n);
}

/// The child of `ca` whose subtree holds `my`.
pub open spec fn copath_child(ca: nat, my: nat, n: nat) -> nat {
    if is_ancestor_of(left_child_of(ca, n), my, n) {
        left_child_of(ca, n)
    } else {
        right_child_of(ca, n)
    }
}

/// Both children of a node lie in the tree.
pub proof fn lemma_child_bounds(x: nat, n: nat)
    requires
        n % 2 == 1,
        x < n,
    ensures
        left_child_of(x, n) < n,
        right_child_of(x, n) < n,
    decreases n,
{
    lemma_root_bound(n);
    if n >= 3 {
        lemma_split(n);
        let r = root_of(n);
        lemma_root_bound(r);
        lemma_root_bound(right_size(n));
        if x < r {
            lemma_child_bounds(x, r);
        } else if x > r {
            lemma_child_bounds((x - r - 1) as nat, right_size(n));
        }
    }
}

/// The sibling of a node lies in the tree.
pub proof fn lemma_sibling_bound(x: nat, n: nat)
    requires
        n % 2 == 1,
        x < n,
    ensures
        sibling_of(x, n) < n,
{
    lemma_parent(x, n);
    lemma_child_bounds(parent_of(x, n), n);
}

/// Past its first node, the extended direct path of a node other than the root
/// is that of its parent.
#[verifier::rlimit(100)]
#[verifier::spinoff_prover]
pub proof fn lemma_ext_path_of_parent(x: nat, n: nat)
    requires
        n % 2 == 1,
        x < n,
        x != root_of(n),
    ensures
        ext_path(parent_of(x, n), n) == ext_path(x, n).drop_first(),
    decreases n,
{
    lemma_root_bound(n);
    lemma_split(n);
    let r = root_of(n);
    let m = right_size(n);
    lemma_root_bound(r);
    lemma_root_bound(m);
    if x < r {
        if x == root_of(r) {
            assert(ext_path(x, r) == seq![x]);
            assert(ext_path(x, n).drop_first() =~= seq![r]);
        } else {
            lemma_ext_path_of_parent(x, r);
            lemma_parent(x, r);
            let p = parent_of(x, r);
            assert(ext_path(x, n).drop_first() =~= ext_path(x, r).drop_first().push(r));
        }
    } else {
        let y = (x - r - 1) as nat;
        if y == root_of(m) {
            assert(ext_path(y, m) == seq![y]);
            assert(ext_path(x, n).drop_first() =~= seq![r]);
        } else {
            lemma_ext_path_of_parent(y, m);
            lemma_parent(y, m);
            let p = parent_of(y, m);
            assert(parent_of(x, n) == p + r + 1);
            assert(ext_path(x, n).drop_first() =~= shift(ext_path(y, m).drop_first(), r + 1).push(r));
        }
    }
}

/// Ancestry inside the left subtree is ancestry in the whole tree.
pub proof fn lemma_left_ancestry(a: nat, d: nat, n: nat)
    requires
        n % 2 == 1,
        n >= 3,
        a < root_of(n),
        d < root_of(n),
    ensures
        is_ancestor_of(a, d, n) == is_ancestor_of(a, d, root_of(n)),
{
    lemma_split(n);
    let r = root_of(n);
    let sub = ext_path(d, r);
    assert(ext_path(d, n) == sub.push(r));
    if is_ancestor_of(a, d, r) {
        let q = choose|q: int| 0 <= q < sub.len() && sub[q] == a;
        assert(sub.push(r)[q] == a);
    }
    if is_ancestor_of(a, d, n) {
        let q = choose|q: int| 0 <= q < sub.len() + 1 && sub.push(r)[q] == a;
        assert(q < sub.len());
        assert(sub[q] == a);
    }
}

/// Ancestry inside the right subtree is ancestry in the whole tree.
pub proof fn lemma_right_ancestry(a: nat, d: nat, n: nat)
    requires
        n % 2 == 1,
        n >= 3,
        a > root_of(n),
        d > root_of(n),
        d < n,
    ensures
        is_ancestor_of(a, d, n) == is_ancestor_of(
            (a - root_of(n) - 1) as nat,
            (d - root_of(n) - 1) as nat,
            right_size(n),
        ),
{
    lemma_split(n);
    let r = root_of(n);
    let a2 = (a - r - 1) as nat;
    let sub = ext_path((d - r - 1) as nat, right_size(n));
    let sh = shift(sub, r + 1);
    assert(ext_path(d, n) == sh.push(r));
    if sub.contains(a2) {
        let q = choose|q: int| 0 <= q < sub.len() && sub[q] == a2;
        assert(sh.push(r)[q] == a);
    }
    if ext_path(d, n).contains(a) {
        let q = choose|q: int| 0 <= q < sh.len() + 1 && sh.push(r)[q] == a;
        assert(q < sh.len());
        assert(sub[q] == a2);
    }
}

/// A node of the left subtree is no ancestor of a node of the right one, and
/// the other way round.
pub proof fn lemma_sides_apart(a: nat, d: nat, n: nat)
    requires
        n % 2 == 1,
        n >= 3,
        d < n,
        (a < root_of(n) && d > root_of(n)) || (a > root_of(n) && d < root_of(n)),
    ensures
        !is_ancestor_of(a, d, n),
{
    lemma_split(n);
    let r = root_of(n);
    let e = ext_path(d, n);
    if d < r {
        lemma_ext_path(d, r);
        let sub = ext_path(d, r);
        assert(e == sub.push(r));
        if e.contains(a) {
            let q = choose|q: int| 0 <= q < e.len() && e[q] == a;
            assert(q < sub.len());
            assert(sub[q] < r);
        }
    } else {
        let sub = ext_path((d - r - 1) as nat, right_size(n));
        assert(e == shift(sub, r + 1).push(r));
        if e.contains(a) {
            let q = choose|q: int| 0 <= q < e.len() && e[q] == a;
            assert(q < sub.len());
            assert(e[q] == sub[q] + r + 1);
        }
    }
}

/// Where the extended direct path of a sender `s` passes the common ancestor
/// of `s` and another node `my`, neither an ancestor of the other, the step
/// before it is the child of the common ancestor whose sibling is the child
/// on `my`'s side.
#[verifier::rlimit(100)]
#[verifier::spinoff_prover]
pub proof fn lemma_copath_at_common_ancestor(s: nat, my: nat, n: nat)
    requires
        n % 2 == 1,
        s < n,
        my < n,
        !is_ancestor_of(s, my, n),
        !is_ancestor_of(my, s, n),
    ensures
        exists|k: int|
            1 <= k < ext_path(s, n).len() && #[trigger] ext_path(s, n)[k] == common_ancestor_of(
                s,
                my,
                n,
            ) && sibling_of(ext_path(s, n)[k - 1], n) == copath_child(
                common_ancestor_of(s, my, n),
                my,
                n,
            ),
    decreases n,
{
    lemma_root_bound(n);
    lemma_ext_path(s, n);
    lemma_ext_path(my, n);
    let e = ext_path(s, n);
    let r = root_of(n);
    if n < 3 {
        assert(ext_path(my, n)[0] == my);
        assert(s == 0 && my == 0);
        assert(is_ancestor_of(s, my, n));
    } else {
        lemma_split(n);
        let m = right_size(n);
        if s == r {
            let em = ext_path(my, n);
            assert(em[em.len() - 1] == r);
            assert(is_ancestor_of(s, my, n));
        } else if my == r {
            assert(e[e.len() - 1] == r);
            assert(is_ancestor_of(my, s, n));
        } else if s < r && my < r {
            lemma_left_ancestry(s, my, n);
            lemma_left_ancestry(my, s, n);
            lemma_copath_at_common_ancestor(s, my, r);
            let sub = ext_path(s, r);
            let ca = common_ancestor_of(s, my, r);
            let k = choose|k: int|
                1 <= k < sub.len() && #[trigger] sub[k] == ca && sibling_of(sub[k - 1], r) == copath_child(
                    ca,
                    my,
                    r,
                );
            assert(e == sub.push(r));
            assert(e[k] == sub[k] && e[k - 1] == sub[k - 1]);
            lemma_ext_path(s, r);
            lemma_common_ancestor(s, my, r);
            let c = sub[k - 1];
            assert(c < r);
            assert(c != root_of(r)) by {
                lemma_ext_path(s, r);
                if c == root_of(r) {
                    assert(sub[sub.len() - 1] == root_of(r));
                    assert(k - 1 == sub.len() - 1);
                }
            }
            lemma_parent(c, r);
            lemma_sibling(c, r);
            lemma_parent_child(c, r);
            assert(sibling_of(c, n) == sibling_of(c, r));
            lemma_child_bounds(ca, r);
            let lc = left_child_of(ca, r);
            assert(left_child_of(ca, n) == lc);
            assert(right_child_of(ca, n) == right_child_of(ca, r));
            lemma_left_ancestry(lc, my, n);
        } else if s > r && my > r {
            let s2 = (s - r - 1) as nat;
            let my2 = (my - r - 1) as nat;
            lemma_right_ancestry(s, my, n);
            lemma_right_ancestry(my, s, n);
            lemma_copath_at_common_ancestor(s2, my2, m);
            let sub = ext_path(s2, m);
            let ca = common_ancestor_of(s2, my2, m);
            let k = choose|k: int|
                1 <= k < sub.len() && #[trigger] sub[k] == ca && sibling_of(sub[k - 1], m) == copath_child(
                    ca,
                    my2,
                    m,
                );
            assert(e == shift(sub, r + 1).push(r));
            assert(e[k] == sub[k] + r + 1 && e[k - 1] == sub[k - 1] + r + 1);
            lemma_ext_path(s2, m);
            lemma_common_ancestor(s2, my2, m);
            let c = sub[k - 1];
            assert(c != root_of(m)) by {
                if c == root_of(m) {
                    assert(sub[sub.len() - 1] == root_of(m));
                }
            }
            lemma_parent(c, m);
            lemma_sibling(c, m);
            lemma_child_bounds(ca, m);
            assert(parent_of(c + r + 1, n) == parent_of(c, m) + r + 1);
            assert(sibling_of(c + r + 1, n) == sibling_of(c, m) + r + 1);
            let lc = left_child_of(ca, m);
            assert(left_child_of(ca + r + 1, n) == lc + r + 1);
            assert(right_child_of(ca + r + 1, n) == right_child_of(ca, m) + r + 1);
            lemma_right_ancestry(lc + r + 1, my, n);
        } else if s < r {
            // `my` lies to the right: the common ancestor is the root.
            lemma_ext_path(s, r);
            let sub = ext_path(s, r);
            assert(e == sub.push(r));
            let k = sub.len() as int;
            assert(e[k - 1] == root_of(r));
            lemma_root_bound(r);
            lemma_parent(root_of(r), n);
            assert(parent_of(root_of(r), n) == r);
            assert(right_child_of(r, n) == r + 1 + root_of(m));
            assert(left_child_of(r, n) == root_of(r));
            lemma_sides_apart(root_of(r), my, n);
            assert(sibling_of(e[k - 1], n) == copath_child(r, my, n));
        } else {
            // `my` lies to the left: the common ancestor is the root.
            let s2 = (s - r - 1) as nat;
            lemma_ext_path(s2, m);
            let sub = ext_path(s2, m);
            assert(e == shift(sub, r + 1).push(r));
            let k = sub.len() as int;
            assert(e[k - 1] == root_of(m) + r + 1);
            lemma_root_bound(m);
            assert(parent_of(root_of(m) + r + 1, n) == r);
            assert(left_child_of(r, n) == root_of(r));
            lemma_ext_path(my, r);
            let sm = ext_path(my, r);
            assert(ext_path(my, n) == sm.push(r));
            assert(ext_path(my, n)[sm.len() - 1] == root_of(r));
            assert(is_ancestor_of(root_of(r), my, n));
            assert(sibling_of(e[k - 1], n) == copath_child(r, my, n));
        }
    }
}

/// `y` lies in the subtree of `x`.
pub open spec fn in_subtree(x: nat, y: nat, n: nat) -> bool {
    window_of(x, n).0 <= y < window_of(x, n).0 + window_of(x, n).1
}

/// A node is an ancestor of exactly the nodes of its subtree.
#[verifier::rlimit(100)]
#[verifier::spinoff_prover]
pub proof fn lemma_ancestor_iff_subtree(x: nat, y: nat, n: nat)
    requires
        n % 2 == 1,
        x < n,
        y < n,
    ensures
        is_ancestor_of(x, y, n) == in_subtree(x, y, n),
    decreases n,
{
    lemma_root_bound(n);
    lemma_ext_path(y, n);
    if n >= 3 {
        lemma_split(n);
        let r = root_of(n);
        let m = right_size(n);
        if x == r {
            let e = ext_path(y, n);
            assert(e[e.len() - 1] == r);
        } else if x < r {
            lemma_window(x, r);
            if y < r {
                lemma_left_ancestry(x, y, n);
                lemma_ancestor_iff_subtree(x, y, r);
            } else if y > r {
                lemma_sides_apart(x, y, n);
            } else {
                assert(ext_path(y, n) == seq![r]);
                assert(!ext_path(y, n).contains(x)) by {
                    if ext_path(y, n).contains(x) {
                        let q = choose|q: int| 0 <= q < 1 && ext_path(y, n)[q] == x;
                    }
                }
            }
        } else {
            let x2 = (x - r - 1) as nat;
            lemma_window(x2, m);
            if y > r {
                lemma_right_ancestry(x, y, n);
                lemma_ancestor_iff_subtree(x2, (y - r - 1) as nat, m);
            } else if y < r {
                lemma_sides_apart(x, y, n);
            } else {
                assert(ext_path(y, n) == seq![r]);
                assert(!ext_path(y, n).contains(x)) by {
                    if ext_path(y, n).contains(x) {
                        let q = choose|q: int| 0 <= q < 1 && ext_path(y, n)[q] == x;
                    }
                }
            }
        }
    } else {
        assert(ext_path(y, n)[0] == y);
    }
}

/// The two halves of the subtree of `x` are the subtrees of their own roots.
#[verifier::rlimit(100)]
#[verifier::spinoff_prover]
pub proof fn lemma_subwindows(x: nat, n: nat)
    requires
        n % 2 == 1,
        x < n,
        window_of(x, n).1 >= 3,
    ensures
        ({
            let w = window_of(x, n);
            let l = root_of(w.1);
            &&& window_of(w.0 + root_of(l), n) == (w.0, l)
            &&& window_of(x + 1 + root_of(right_size(w.1)), n) == (x + 1, right_size(w.1))
        }),
    decreases n,
{
    lemma_root_bound(n);
    lemma_window(x, n);
    if n >= 3 {
        lemma_split(n);
        let r = root_of(n);
        let m = right_size(n);
        lemma_root_bound(r);
        lemma_root_bound(m);
        if x == r {
            lemma_window(root_of(r), r);
            lemma_window(root_of(m), m);
        } else if x < r {
            lemma_window(x, r);
            lemma_subwindows(x, r);
            let w = window_of(x, r);
            let l = root_of(w.1);
            lemma_root_bound(w.1);
            lemma_split(w.1);
            lemma_root_bound(l);
            lemma_window(w.0 + root_of(l), r);
            lemma_window(x + 1 + root_of(right_size(w.1)), r);
            lemma_root_bound(right_size(w.1));
        } else {
            let x2 = (x - r - 1) as nat;
            lemma_window(x2, m);
            lemma_subwindows(x2, m);
            let w = window_of(x2, m);
            lemma_split(w.1);
            lemma_root_bound(root_of(w.1));
            lemma_root_bound(right_size(w.1));
        }
    }
}

/// An odd node count and its leaf count correspond.
pub proof fn lemma_leaves(n: nat)
    requires
        n % 2 == 1,
        n < usize::MAX,
    ensures
        1 <= leaves_of(n) <= usize::MAX / 2,
        nodes_of(leaves_of(n)) == n,
{
}

pub open spec fn as_nats(v: Seq<usize>) -> Seq<nat> {
    v.map_values(|u: usize| u as nat)
}

fn pow2_floor_exec(n: usize) -> (r: usize)
    requires
        n >= 1,
    ensures
        r == pow2_floor(n as nat),
    decreases n,
{
    if n < 2 {
        1
    } else {
        proof {
            lemma_pow2_floor(n as nat);
        }
        let h = pow2_floor_exec(n / 2);
        2 * h
    }
}

pub(crate) fn root_in(n: usize) -> (r: usize)
    requires
        n % 2 == 1,
    ensures
        r == root_of(n as nat),
        r < n,
{
    proof {
        lemma_root_bound(n as nat);
        lemma_pow2_floor(n as nat);
    }
    pow2_floor_exec(n) - 1
}

fn parent_in(x: usize, n: usize) -> (p: usize)
    requires
        x < n,
        n % 2 == 1,
    ensures
        p == parent_of(x as nat, n as nat),
        p < n,
    decreases n,
{
    if n < 3 {
        return x;
    }
    proof {
        lemma_split(n as nat);
    }
    let r = root_in(n);
    if x == r {
        x
    } else if x < r {
        if x == root_in(r) {
            r
        } else {
            parent_in(x, r)
        }
    } else {
        let y = x - r - 1;
        let m = n - r - 1;
        if y == root_in(m) {
            r
        } else {
            r + 1 + parent_in(y, m)
        }
    }
}

fn left_child_in(x: usize, n: usize) -> (c: usize)
    requires
        x < n,
        n % 2 == 1,
    ensures
        c == left_child_of(x as nat, n as nat),
        c < n,
    decreases n,
{
    if n < 3 {
        return x;
    }
    proof {
        lemma_split(n as nat);
        lemma_root_bound(n as nat);
    }
    let r = root_in(n);
    if x == r {
        root_in(r)
    } else if x < r {
        left_child_in(x, r)
    } else {
        r + 1 + left_child_in(x - r - 1, n - r - 1)
    }
}

fn right_child_in(x: usize, n: usize) -> (c: usize)
    requires
        x < n,
        n % 2 == 1,
    ensures
        c == right_child_of(x as nat, n as nat),
        c < n,
    decreases n,
{
    if n < 3 {
        return x;
    }
    proof {
        lemma_split(n as nat);
    }
    let r = root_in(n);
    if x == r {
        r + 1 + root_in(n - r - 1)
    } else if x < r {
        right_child_in(x, r)
    } else {
        r + 1 + right_child_in(x - r - 1, n - r - 1)
    }
}

fn ext_path_in(x: usize, n: usize) -> (v: Vec<usize>)
    requires
        x < n,
        n % 2 == 1,
    ensures
        as_nats(v@) == ext_path(x as nat, n as nat),
        forall|k: int| 0 <= k < v@.len() ==> v@[k] < n,
    decreases n,
{
    if n < 3 {
        return vec![x];
    }
    proof {
        lemma_split(n as nat);
    }
    let r = root_in(n);
    if x == r {
        vec![x]
    } else if x < r {
        let mut v = ext_path_in(x, r);
        v.push(r);
        proof {
            assert(as_nats(v@) =~= ext_path(x as nat, n as nat));
        }
        v
    } else {
        let sub = ext_path_in(x - r - 1, n - r - 1);
        let mut v: Vec<usize> = Vec::new();
        let mut k: usize = 0;
        while k < sub.len()
            invariant
                k <= sub@.len(),
                v@.len() == k,
                r + 1 + (n - r - 1) == n,
                forall|q: int| 0 <= q < sub@.len() ==> sub@[q] < n - r - 1,
                forall|q: int| 0 <= q < k ==> v@[q] == sub@[q] + r + 1,
            decreases sub@.len() - k,
        {
            v.push(sub[k] + r + 1);
            k = k + 1;
        }
        v.push(r);
        proof {
            let e = ext_path((x - r - 1) as nat, (n - r - 1) as nat);
            assert(as_nats(sub@) == e);
            assert forall|q: int| 0 <= q < e.len() implies e[q] == sub@[q] as nat by {
                assert(as_nats(sub@)[q] == sub@[q] as nat);
            }
            assert(as_nats(v@) =~= ext_path(x as nat, n as nat));
        }
        v
    }
}

fn common_ancestor_in(i: usize, j: usize, n: usize) -> (a: usize)
    requires
        i < n,
        j < n,
        n % 2 == 1,
    ensures
        a == common_ancestor_of(i as nat, j as nat, n as nat),
        a < n,
    decreases n,
{
    if n < 3 {
        return i;
    }
    proof {
        lemma_split(n as nat);
    }
    let r = root_in(n);
    if i < r && j < r {
        common_ancestor_in(i, j, r)
    } else if i > r && j > r {
        r + 1 + common_ancestor_in(i - r - 1, j - r - 1, n - r - 1)
    } else {
        r
    }
}

/// Finds the subtree rooted at `x`: its first index and its node count.
pub(crate) fn window_in(x: usize, n: usize) -> (w: (usize, usize))
    requires
        x < n,
        n % 2 == 1,
    ensures
        w.0 as nat == window_of(x as nat, n as nat).0,
        w.1 as nat == window_of(x as nat, n as nat).1,
        w.0 + w.1 <= n,
        w.1 % 2 == 1,
        w.0 + root_of(w.1 as nat) == x,
    decreases n,
{
    proof {
        lemma_root_bound(n as nat);
    }
    if n < 3 {
        return (0, n);
    }
    proof {
        lemma_split(n as nat);
    }
    let r = root_in(n);
    if x == r {
        (0, n)
    } else if x < r {
        window_in(x, r)
    } else {
        let w = window_in(x - r - 1, n - r - 1);
        (w.0 + r + 1, w.1)
    }
}

/// Number of nodes in a tree with `num_leaves` leaves.
pub fn num_nodes_in_tree(num_leaves: usize) -> (n: usize)
    requires
        num_leaves <= usize::MAX / 2,
    ensures
        n == nodes_of(num_leaves as nat),
{
    if num_leaves == 0 {
        0
    } else {
        2 * num_leaves - 1
    }
}

/// Number of leaves in a tree with `num_nodes` nodes.
pub fn num_leaves_in_tree(num_nodes: usize) -> (l: usize)
    ensures
        l == leaves_of(num_nodes as nat),
{
    if num_nodes == 0 {
        0
    } else {
        (num_nodes - 1) / 2 + 1
    }
}

/// Index of the root of a tree with `num_leaves` leaves.
pub fn root_idx(num_leaves: usize) -> (r: usize)
    requires
        1 <= num_leaves <= usize::MAX / 2,
    ensures
        r == root_of(nodes_of(num_leaves as nat)),
        r < nodes_of(num_leaves as nat),
{
    root_in(2 * num_leaves - 1)
}

/// The parent of node `idx`; the root is returned for the root itself.
pub fn node_parent(idx: usize, num_leaves: usize) -> (p: usize)
    requires
        1 <= num_leaves <= usize::MAX / 2,
        idx < nodes_of(num_leaves as nat),
    ensures
        p == parent_of(idx as nat, nodes_of(num_leaves as nat)),
        p < nodes_of(num_leaves as nat),
{
    parent_in(idx, 2 * num_leaves - 1)
}

/// The left child of node `idx`; a leaf is returned for itself.
pub fn node_left_child(idx: usize, num_leaves: usize) -> (c: usize)
    requires
        1 <= num_leaves <= usize::MAX / 2,
        idx < nodes_of(num_leaves as nat),
    ensures
        c == left_child_of(idx as nat, nodes_of(num_leaves as nat)),
        c < nodes_of(num_leaves as nat),
{
    left_child_in(idx, 2 * num_leaves - 1)
}

/// The right child of node `idx`; a leaf is returned for itself.
pub fn node_right_child(idx: usize, num_leaves: usize) -> (c: usize)
    requires
        1 <= num_leaves <= usize::MAX / 2,
        idx < nodes_of(num_leaves as nat),
    ensures
        c == right_child_of(idx as nat, nodes_of(num_leaves as nat)),
        c < nodes_of(num_leaves as nat),
{
    right_child_in(idx, 2 * num_leaves - 1)
}

/// The other child of the parent of `idx`.
pub fn node_sibling(idx: usize, num_leaves: usize) -> (s: usize)
    requires
        1 <= num_leaves <= usize::MAX / 2,
        idx < nodes_of(num_leaves as nat),
    ensures
        s == sibling_of(idx as nat, nodes_of(num_leaves as nat)),
        s < nodes_of(num_leaves as nat),
{
    let n = 2 * num_leaves - 1;
    let p = parent_in(idx, n);
    if idx < p {
        right_child_in(p, n)
    } else {
        left_child_in(p, n)
    }
}

/// `idx` followed by its ancestors up to and including the root.
pub fn node_extended_direct_path(idx: usize, num_leaves: usize) -> (v: Vec<usize>)
    requires
        1 <= num_leaves <= usize::MAX / 2,
        idx < nodes_of(num_leaves as nat),
    ensures
        as_nats(v@) == ext_path(idx as nat, nodes_of(num_leaves as nat)),
        forall|k: int| 0 <= k < v@.len() ==> v@[k] < nodes_of(num_leaves as nat),
{
    ext_path_in(idx, 2 * num_leaves - 1)
}

/// The strict ancestors of `idx` from its parent up to, not including, the root.
pub fn node_direct_path(idx: usize, num_leaves: usize) -> (v: Vec<usize>)
    requires
        1 <= num_leaves <= usize::MAX / 2,
        idx < nodes_of(num_leaves as nat),
    ensures
        as_nats(v@) == direct_path(idx as nat, nodes_of(num_leaves as nat)),
        forall|k: int| 0 <= k < v@.len() ==> v@[k] < nodes_of(num_leaves as nat),
{
    let e = ext_path_in(idx, 2 * num_leaves - 1);
    let mut v: Vec<usize> = Vec::new();
    if e.len() >= 2 {
        let mut k: usize = 1;
        while k < e.len() - 1
            invariant
                1 <= k <= e@.len() - 1,
                e@.len() >= 2,
                v@.len() == k - 1,
                forall|q: int| 0 <= q < e@.len() ==> e@[q] < nodes_of(num_leaves as nat),
                forall|q: int| 0 <= q < v@.len() ==> v@[q] == e@[q + 1],
            decreases e@.len() - k,
        {
            v.push(e[k]);
            k = k + 1;
        }
    }
    proof {
        let d = direct_path(idx as nat, nodes_of(num_leaves as nat));
        let ex = ext_path(idx as nat, nodes_of(num_leaves as nat));
        assert(ex.len() == e@.len());
        assert forall|q: int| 0 <= q < ex.len() implies ex[q] == e@[q] as nat by {
            assert(as_nats(e@)[q] == e@[q] as nat);
        }
        assert(as_nats(v@) =~= d);
    }
    v
}

/// `a` lies on the extended direct path of `d`.
pub fn is_ancestor(a: usize, d: usize, num_leaves: usize) -> (b: bool)
    requires
        1 <= num_leaves <= usize::MAX / 2,
        d < nodes_of(num_leaves as nat),
    ensures
        b == is_ancestor_of(a as nat, d as nat, nodes_of(num_leaves as nat)),
{
    let e = ext_path_in(d, 2 * num_leaves - 1);
    let ghost ex = ext_path(d as nat, nodes_of(num_leaves as nat));
    assert(as_nats(e@) == ex);
    let mut k: usize = 0;
    while k < e.len()
        invariant
            k <= e@.len(),
            as_nats(e@) == ex,
            ex == ext_path(d as nat, nodes_of(num_leaves as nat)),
            forall|q: int| 0 <= q < k ==> ex[q] != a as nat,
        decreases e@.len() - k,
    {
        proof {
            assert(as_nats(e@)[k as int] == e@[k as int] as nat);
        }
        if e[k] == a {
            proof {
                assert(ex[k as int] == a as nat);
            }
            return true;
        }
        k = k + 1;
    }
    proof {
        assert(!ex.contains(a as nat));
    }
    false
}

/// The lowest node whose subtree holds both `i` and `j`.
pub fn common_ancestor(i: usize, j: usize, num_leaves: usize) -> (a: usize)
    requires
        1 <= num_leaves <= usize::MAX / 2,
        i < nodes_of(num_leaves as nat),
        j < nodes_of(num_leaves as nat),
    ensures
        a == common_ancestor_of(i as nat, j as nat, nodes_of(num_leaves as nat)),
        a < nodes_of(num_leaves as nat),
{
    common_ancestor_in(i, j, 2 * num_leaves - 1)
}

} // verus!
