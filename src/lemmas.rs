use vstd::prelude::*;
use vstd::set_lib::*;
use crate::tree::LinkCutTree;
use crate::node::LCTNode;

verus! {

/// A node lies in its own splay subtree, which holds at most every node.
pub proof fn lemma_sub_self(t: &LinkCutTree, x: int)
    requires
        t.wf(),
        0 <= x < t.size(),
    ensures
        t.sub()[x].contains(x),
        t.sub()[x].len() <= t.size(),
        t.sub()[x].finite(),
{
    assert(t.node_wf(x));
    lemma_int_range(0, t.size());
    assert(t.sub()[x].subset_of(set_int_range(0, t.size())));
    lemma_len_subset(t.sub()[x], set_int_range(0, t.size()));
}

/// The heavy parent of `e` holds `e` as a child, so its splay subtree is
/// strictly larger.
pub proof fn lemma_child_sub(t: &LinkCutTree, e: int)
    requires
        t.wf(),
        0 <= e < t.size(),
        !t.is_root_spec(e),
    ensures
        ({
            let q = t.nodes()[e].parent->0 as int;
            &&& 0 <= q < t.size()
            &&& t.sub()[e].subset_of(t.sub()[q])
            &&& !t.sub()[e].contains(q)
            &&& t.sub()[q].contains(e)
            &&& t.sub()[e].len() < t.sub()[q].len()
        }),
{
    let q = t.nodes()[e].parent->0 as int;
    assert(t.node_wf(e));
    assert(t.node_wf(q));
    lemma_sub_self(t, e);
    lemma_sub_self(t, q);
    assert(t.sub()[e].subset_of(t.sub()[q]));
    assert(t.sub()[e] != t.sub()[q]);
    lemma_len_subset(t.sub()[e], t.sub()[q]);
    assert(t.sub()[e].insert(q).subset_of(t.sub()[q]));
    lemma_len_subset(t.sub()[e].insert(q), t.sub()[q]);
}

/// Ranks do not grow downward in a splay subtree.
pub proof fn lemma_rank_sub(t: &LinkCutTree, x: int, e: int)
    requires
        t.wf(),
        0 <= x < t.size(),
        t.sub()[x].contains(e),
    ensures
        t.rank()[e] <= t.rank()[x],
    decreases t.sub()[x].len(),
{
    assert(t.node_wf(x));
    let nd = t.nodes()[x];
    if e != x {
        let c = if t.sub_of(nd.left).contains(e) { nd.left->0 as int } else { nd.right->0 as int };
        assert(t.node_wf(c));
        lemma_sub_self(t, c);
        lemma_child_sub(t, c);
        lemma_rank_sub(t, c, e);
    }
}

/// The parent of a node, across a heavy or a light edge, lies outside the
/// node's splay subtree.
pub proof fn lemma_parent_outside(t: &LinkCutTree, x: int)
    requires
        t.wf(),
        0 <= x < t.size(),
    ensures
        t.nodes()[x].parent is Some ==> !t.sub()[x].contains(t.nodes()[x].parent->0 as int),
{
    assert(t.node_wf(x));
    let nd = t.nodes()[x];
    if nd.parent is Some {
        let q = nd.parent->0 as int;
        if t.sub()[x].contains(q) {
            lemma_rank_sub(t, x, q);
        }
    }
}

/// A node strictly inside the splay subtree of `x` has a heavy parent there.
pub proof fn lemma_descend(t: &LinkCutTree, x: int, e: int)
    requires
        t.wf(),
        0 <= x < t.size(),
        t.sub()[x].contains(e),
        e != x,
    ensures
        !t.is_root_spec(e),
        t.sub()[x].contains(t.nodes()[e].parent->0 as int),
    decreases t.sub()[x].len(),
{
    assert(t.node_wf(x));
    let nd = t.nodes()[x];
    if t.sub_of(nd.left).contains(e) {
        let c = nd.left->0 as int;
        assert(t.node_wf(c));
        lemma_sub_self(t, c);
        if e != c {
            lemma_child_sub(t, c);
            lemma_descend(t, c, e);
        }
    } else {
        let c = nd.right->0 as int;
        assert(t.node_wf(c));
        lemma_sub_self(t, c);
        if e != c {
            lemma_child_sub(t, c);
            lemma_descend(t, c, e);
        }
    }
}

/// Splay subtrees nest: a node inside the subtree of `x` has its own
/// subtree inside it.
pub proof fn lemma_nested(t: &LinkCutTree, x: int, q: int)
    requires
        t.wf(),
        0 <= x < t.size(),
        t.sub()[x].contains(q),
    ensures
        t.sub()[q].subset_of(t.sub()[x]),
    decreases t.sub()[x].len(),
{
    assert(t.node_wf(x));
    let nd = t.nodes()[x];
    if q != x {
        if t.sub_of(nd.left).contains(q) {
            let c = nd.left->0 as int;
            assert(t.node_wf(c));
            lemma_sub_self(t, c);
            lemma_child_sub(t, c);
            lemma_nested(t, c, q);
        } else {
            let c = nd.right->0 as int;
            assert(t.node_wf(c));
            lemma_sub_self(t, c);
            lemma_child_sub(t, c);
            lemma_nested(t, c, q);
        }
    }
}

proof fn lemma_not_in_two_roots(t: &LinkCutTree, e: int, r1: int, r2: int)
    requires
        t.wf(),
        0 <= r1 < t.size(),
        0 <= r2 < t.size(),
        r1 != r2,
        t.is_root_spec(r1),
        t.is_root_spec(r2),
        0 <= e < t.size(),
    ensures
        !(t.sub()[r1].contains(e) && t.sub()[r2].contains(e)),
    decreases t.size() - t.sub()[e].len(),
{
    if t.sub()[r1].contains(e) && t.sub()[r2].contains(e) {
        if e == r1 {
            lemma_descend(t, r2, e);
        } else if e == r2 {
            lemma_descend(t, r1, e);
        } else {
            lemma_descend(t, r1, e);
            lemma_descend(t, r2, e);
            lemma_child_sub(t, e);
            let q = t.nodes()[e].parent->0 as int;
            lemma_sub_self(t, q);
            lemma_not_in_two_roots(t, q, r1, r2);
        }
    }
}

/// Two distinct splay roots head disjoint splay trees.
pub proof fn lemma_roots_disjoint(t: &LinkCutTree, r1: int, r2: int)
    requires
        t.wf(),
        0 <= r1 < t.size(),
        0 <= r2 < t.size(),
        r1 != r2,
        t.is_root_spec(r1),
        t.is_root_spec(r2),
    ensures
        t.sub()[r1].disjoint(t.sub()[r2]),
{
    assert forall|e: int| t.sub()[r1].contains(e) implies !t.sub()[r2].contains(e) by {
        assert(t.node_wf(r1));
        lemma_not_in_two_roots(t, e, r1, r2);
    }
}

/// A node's splay subtree counts the node and its two disjoint child subtrees.
pub proof fn lemma_len_three(x: int, a: Set<int>, b: Set<int>)
    requires
        a.finite(),
        b.finite(),
        !a.contains(x),
        !b.contains(x),
        a.disjoint(b),
    ensures
        set![x].union(a).union(b).finite(),
        set![x].union(a).union(b).len() == 1 + a.len() + b.len(),
{
    lemma_set_disjoint_lens(set![x], a);
    assert(set![x].len() == 1);
    assert(set![x].union(a) == set![x] + a);
    assert(set![x].union(a).disjoint(b));
    lemma_set_disjoint_lens(set![x].union(a), b);
    assert(set![x].union(a).union(b) == set![x].union(a) + b);
}

/// After `update`, and whenever the structure is consistent, the aggregate
/// of a node is one more than the aggregates of its children.
pub proof fn lemma_aggregate_sum(t: &LinkCutTree, x: int)
    requires
        t.wf(),
        0 <= x < t.size(),
    ensures
        t.nodes()[x].len == 1 + t.len_of(t.nodes()[x].left) + t.len_of(t.nodes()[x].right),
        t.nodes()[x].len <= t.size(),
{
    let nd = t.nodes()[x];
    assert(t.node_wf(x));
    lemma_sub_self(t, x);
    if nd.left is Some {
        assert(t.node_wf(nd.left->0 as int));
    }
    if nd.right is Some {
        assert(t.node_wf(nd.right->0 as int));
    }
    lemma_len_three(x, t.sub_of(nd.left), t.sub_of(nd.right));
}

#[verifier::rlimit(100)]
proof fn lemma_rotate_vp(t0: LinkCutTree, t1: LinkCutTree, v: int, x: int)
    requires
        t0.wf(),
        0 <= v < t0.size(),
        !t0.is_root_spec(v),
        LinkCutTree::rotated(t0, t1, v),
        0 <= x < t0.size(),
        x == t0.nodes()[v].parent->0 as int || x == v,
    ensures
        t1.node_wf(x),
{
    let p = t0.nodes()[v].parent->0 as int;
    let d = t0.dir_spec(v)->0 as int;
    let a = t0.nodes()[v].child_spec(d);
    let c = t0.nodes()[v].child_spec(1 - d);
    let o = t0.nodes()[p].child_spec(1 - d);
    let g = t0.nodes()[p].parent;
    lemma_wf_near(&t0, v);
    lemma_wf_near(&t0, p);
    lemma_wf_near(&t0, x);
    lemma_child_sub(&t0, v);
    if t0.dir_spec(p) is Some {
        lemma_child_sub(&t0, p);
    }
    assert(t0.len_of(a) == t0.sub_of(a).len());
    assert(t0.len_of(c) == t0.sub_of(c).len());
    assert(t0.len_of(o) == t0.sub_of(o).len());
    lemma_len_three(p, t0.sub_of(c), t0.sub_of(o));
    lemma_len_three(v, t0.sub_of(a), t0.sub_of(c));
    lemma_len_three(p, t0.sub_of(Some(v as usize)), t0.sub_of(o));
    let sp = set![p].union(t0.sub_of(c)).union(t0.sub_of(o));
    assert(sp.subset_of(t0.sub()[p]));
    lemma_len_subset(sp, t0.sub()[p]);
    let n1 = t1.nodes()[x];
    assert(t1.sub_of(a) == t0.sub_of(a));
    assert(t1.sub_of(c) == t0.sub_of(c));
    assert(t1.sub_of(o) == t0.sub_of(o));
    assert(t1.sub()[x] =~= set![x].union(t1.sub_of(n1.left)).union(t1.sub_of(n1.right)));
}

#[verifier::rlimit(100)]
proof fn lemma_rotate_top(t0: LinkCutTree, t1: LinkCutTree, v: int, x: int)
    requires
        t0.wf(),
        0 <= v < t0.size(),
        !t0.is_root_spec(v),
        LinkCutTree::rotated(t0, t1, v),
        0 <= x < t0.size(),
        t0.dir_spec(t0.nodes()[v].parent->0 as int) is Some && Some(x as usize) == t0.nodes()[t0.nodes()[v].parent->0 as int].parent && x != v,
    ensures
        t1.node_wf(x),
{
    let p = t0.nodes()[v].parent->0 as int;
    let d = t0.dir_spec(v)->0 as int;
    let a = t0.nodes()[v].child_spec(d);
    let c = t0.nodes()[v].child_spec(1 - d);
    let o = t0.nodes()[p].child_spec(1 - d);
    let g = t0.nodes()[p].parent;
    lemma_wf_near(&t0, v);
    lemma_wf_near(&t0, p);
    lemma_wf_near(&t0, x);
    lemma_child_sub(&t0, v);
    if t0.dir_spec(p) is Some {
        lemma_child_sub(&t0, p);
    }
    assert(t0.len_of(a) == t0.sub_of(a).len());
    assert(t0.len_of(c) == t0.sub_of(c).len());
    assert(t0.len_of(o) == t0.sub_of(o).len());
    lemma_len_three(p, t0.sub_of(c), t0.sub_of(o));
    lemma_len_three(v, t0.sub_of(a), t0.sub_of(c));
    lemma_len_three(p, t0.sub_of(Some(v as usize)), t0.sub_of(o));
    let n1 = t1.nodes()[x];
    assert(t1.sub_of(a) == t0.sub_of(a));
    assert(t1.sub_of(c) == t0.sub_of(c));
    assert(t1.sub_of(o) == t0.sub_of(o));
    assert(t1.sub()[x] =~= set![x].union(t1.sub_of(n1.left)).union(t1.sub_of(n1.right)));
}

#[verifier::rlimit(100)]
proof fn lemma_rotate_rest(t0: LinkCutTree, t1: LinkCutTree, v: int, x: int)
    requires
        t0.wf(),
        0 <= v < t0.size(),
        !t0.is_root_spec(v),
        LinkCutTree::rotated(t0, t1, v),
        0 <= x < t0.size(),
        !(x == t0.nodes()[v].parent->0 as int || x == v)
        && !(t0.dir_spec(t0.nodes()[v].parent->0 as int) is Some && Some(x as usize) == t0.nodes()[t0.nodes()[v].parent->0 as int].parent),
    ensures
        t1.node_wf(x),
{
    let p = t0.nodes()[v].parent->0 as int;
    let d = t0.dir_spec(v)->0 as int;
    let a = t0.nodes()[v].child_spec(d);
    let c = t0.nodes()[v].child_spec(1 - d);
    let o = t0.nodes()[p].child_spec(1 - d);
    let g = t0.nodes()[p].parent;
    lemma_wf_near(&t0, v);
    lemma_wf_near(&t0, p);
    lemma_wf_near(&t0, x);
    lemma_child_sub(&t0, v);
    if t0.dir_spec(p) is Some {
        lemma_child_sub(&t0, p);
    }
    assert(t0.len_of(a) == t0.sub_of(a).len());
    assert(t0.len_of(c) == t0.sub_of(c).len());
    assert(t0.len_of(o) == t0.sub_of(o).len());
    lemma_len_three(p, t0.sub_of(c), t0.sub_of(o));
    lemma_len_three(v, t0.sub_of(a), t0.sub_of(c));
    lemma_len_three(p, t0.sub_of(Some(v as usize)), t0.sub_of(o));
    let n1 = t1.nodes()[x];
    assert(t1.sub_of(a) == t0.sub_of(a));
    assert(t1.sub_of(c) == t0.sub_of(c));
    assert(t1.sub_of(o) == t0.sub_of(o));
}

/// The consistency of `x` and of its parent and children, together.
pub proof fn lemma_wf_near(t: &LinkCutTree, x: int)
    requires
        t.wf(),
        0 <= x < t.size(),
    ensures
        t.node_wf(x),
        t.sub()[x].contains(x),
        t.nodes()[x].left is Some ==> {
            let l = t.nodes()[x].left->0 as int;
            t.node_wf(l) && t.sub()[l].contains(l)
        },
        t.nodes()[x].right is Some ==> {
            let r = t.nodes()[x].right->0 as int;
            t.node_wf(r) && t.sub()[r].contains(r)
        },
        t.nodes()[x].parent is Some ==> t.node_wf(t.nodes()[x].parent->0 as int),
{
    lemma_sub_self(t, x);
    assert(t.node_wf(x));
    let nd = t.nodes()[x];
    if nd.left is Some {
        lemma_sub_self(t, nd.left->0 as int);
    }
    if nd.right is Some {
        lemma_sub_self(t, nd.right->0 as int);
    }
    if nd.parent is Some {
        assert(t.node_wf(nd.parent->0 as int));
    }
}

/// Climbing `k1` steps and then `k2` more is climbing `k1 + k2` steps.
pub proof fn lemma_above_add(t: &LinkCutTree, x: int, k1: nat, k2: nat)
    requires
        t.above(x, k1) is Some,
    ensures
        t.above(x, k1 + k2) == t.above(t.above(x, k1)->0, k2),
    decreases k2,
{
    if k2 > 0 {
        lemma_above_add(t, x, k1, (k2 - 1) as nat);
        assert((k1 + k2 - 1) as nat == k1 + (k2 - 1) as nat);
    }
}

/// Inside a splay subtree, every node but the first has its real parent
/// in the same subtree.
pub proof fn lemma_up_inside(t: &LinkCutTree, x: int, y: int)
    requires
        t.wf(),
        0 <= x < t.size(),
        t.sub()[x].contains(y),
        y != t.first()[x],
    ensures
        t.up()[y] is Some,
        t.sub()[x].contains(t.up()[y]->0 as int),
    decreases t.sub()[x].len(),
{
    lemma_wf_near(t, x);
    let nd = t.nodes()[x];
    if y != x {
        if t.sub_of(nd.left).contains(y) {
            let l = nd.left->0 as int;
            lemma_child_sub(t, l);
            if y != t.first()[l] {
                lemma_up_inside(t, l, y);
            }
        } else {
            let r = nd.right->0 as int;
            lemma_child_sub(t, r);
            if y != t.first()[r] {
                lemma_up_inside(t, r, y);
            }
        }
    }
}

/// Every node of a splay subtree lies on the real path above its last node.
pub proof fn lemma_on_path_of_last(t: &LinkCutTree, x: int, y: int) -> (k: nat)
    requires
        t.wf(),
        0 <= x < t.size(),
        t.sub()[x].contains(y),
    ensures
        t.above(t.last()[x], k) == Some(y),
    decreases t.sub()[x].len(),
{
    lemma_wf_near(t, x);
    let nd = t.nodes()[x];
    let kx: nat = if nd.right is Some {
        let r = nd.right->0 as int;
        lemma_child_sub(t, r);
        let k = lemma_on_path_of_last(t, r, t.first()[r]);
        (k + 1) as nat
    } else {
        0
    };
    assert(t.above(t.last()[x], kx) == Some(x));
    if y == x {
        kx
    } else if t.sub_of(nd.left).contains(y) {
        let l = nd.left->0 as int;
        lemma_child_sub(t, l);
        let k1 = lemma_on_path_of_last(t, l, y);
        assert(t.above(t.last()[x], kx + 1) == Some(t.last()[l]));
        lemma_above_add(t, t.last()[x], kx + 1, k1);
        (kx + 1 + k1) as nat
    } else {
        let r = nd.right->0 as int;
        lemma_child_sub(t, r);
        lemma_on_path_of_last(t, r, y)
    }
}

/// The real root path depends on the real forest alone.
pub proof fn lemma_same_up_same_path(t0: LinkCutTree, t1: LinkCutTree, v: int)
    requires
        t0.up() == t1.up(),
    ensures
        t0.path_to_root(v) == t1.path_to_root(v),
{
    assert forall|a: int| t0.path_to_root(v).contains(a) implies t1.path_to_root(v).contains(a) by {
        let k = choose|k: nat| t0.above(v, k) == Some(a);
        lemma_same_up_above(t0, t1, v, k);
    }
    assert forall|a: int| t1.path_to_root(v).contains(a) implies t0.path_to_root(v).contains(a) by {
        let k = choose|k: nat| t1.above(v, k) == Some(a);
        lemma_same_up_above(t0, t1, v, k);
    }
    assert(t0.path_to_root(v) =~= t1.path_to_root(v));
}

proof fn lemma_same_up_above(t0: LinkCutTree, t1: LinkCutTree, v: int, k: nat)
    requires
        t0.up() == t1.up(),
    ensures
        t0.above(v, k) == t1.above(v, k),
    decreases k,
{
    if k > 0 {
        lemma_same_up_above(t0, t1, v, (k - 1) as nat);
    }
}

/// Cutting `v` and then linking it back below its former parent restores
/// the real forest, and with it every real root path, so every aggregate
/// that `expose` reports.
pub proof fn lemma_cut_relink_restores(t0: LinkCutTree, t1: LinkCutTree, t2: LinkCutTree, v: int)
    requires
        0 <= v < t0.up().len(),
        t0.up()[v] is Some,
        t1.up() == t0.up().update(v, None),
        t2.up() == t1.up().update(v, t0.up()[v]),
    ensures
        t2.up() == t0.up(),
        forall|x: int| #[trigger] t2.path_to_root(x) == t0.path_to_root(x),
{
    assert(t2.up() =~= t0.up());
    assert forall|x: int| #[trigger] t2.path_to_root(x) == t0.path_to_root(x) by {
        lemma_same_up_same_path(t2, t0, x);
    }
}

proof fn lemma_above_none(t: LinkCutTree, x: int, j: nat, k: nat)
    requires
        j <= k,
        t.above(x, j) is None,
    ensures
        t.above(x, k) is None,
    decreases k - j,
{
    if j < k {
        lemma_above_none(t, x, j, (k - 1) as nat);
    }
}

proof fn lemma_above_agree(t0: LinkCutTree, t1: LinkCutTree, a: int, x: int, k: nat)
    requires
        0 <= a < t0.up().len(),
        t1.up() == t0.up().update(a, t1.up()[a]),
        forall|j: nat| j < k ==> t0.above(x, j) != Some(a),
    ensures
        t1.above(x, k) == t0.above(x, k),
    decreases k,
{
    if k > 0 {
        lemma_above_agree(t0, t1, a, x, (k - 1) as nat);
        assert(t0.above(x, (k - 1) as nat) != Some(a));
    }
}

/// Linking the real root `a` below `b`, of another tree, puts `b`'s whole
/// real root path above every node of `a`'s tree.
pub proof fn lemma_link_joins(t0: LinkCutTree, t1: LinkCutTree, a: int, b: int, x: int)
    requires
        0 <= a < t0.up().len(),
        t0.up()[a] is None,
        !t0.path_to_root(b).contains(a),
        t1.up() == t0.up().update(a, Some(b as usize)),
        0 <= b < t0.up().len(),
        b <= usize::MAX,
        t0.path_to_root(x).contains(a),
    ensures
        t1.path_to_root(x).contains(a),
        t0.path_to_root(b).subset_of(t1.path_to_root(x)),
{
    let k = choose|k: nat| t0.above(x, k) == Some(a);
    assert forall|j: nat| j < k implies t0.above(x, j) != Some(a) by {
        if t0.above(x, j) == Some(a) {
            assert(t0.above(x, j + 1) is None);
            lemma_above_none(t0, x, j + 1, k);
        }
    }
    lemma_above_agree(t0, t1, a, x, k);
    assert(t1.above(x, k) == Some(a));
    assert(t1.up()[a] == Some(b as usize));
    assert(t1.above(x, k + 1) == Some(b));
    assert forall|y: int| t0.path_to_root(b).contains(y) implies t1.path_to_root(x).contains(y) by {
        let m = choose|m: nat| t0.above(b, m) == Some(y);
        assert forall|j: nat| j < m implies t0.above(b, j) != Some(a) by {
            if t0.above(b, j) == Some(a) {
                assert(t0.path_to_root(b).contains(a));
            }
        }
        lemma_above_agree(t0, t1, a, b, m);
        lemma_above_add(&t1, x, k + 1, m);
        assert(t1.above(x, k + 1 + m) == Some(y));
    }
}

/// The splay tree of an exposed node is exactly its real root path.
pub proof fn lemma_exposed_path(t: &LinkCutTree, v: int)
    requires
        t.wf(),
        0 <= v < t.size(),
        t.is_root_spec(v),
        t.nodes()[v].parent is None,
        t.nodes()[v].right is None,
    ensures
        t.path_to_root(v) == t.sub()[v],
{
    assert(t.node_wf(v));
    assert forall|a: int| t.sub()[v].contains(a) implies t.path_to_root(v).contains(a) by {
        let k = lemma_on_path_of_last(t, v, a);
    }
    assert forall|a: int| t.path_to_root(v).contains(a) implies t.sub()[v].contains(a) by {
        let k = choose|k: nat| t.above(v, k) == Some(a);
        lemma_path_in_sub(t, v, k);
    }
    assert(t.path_to_root(v) =~= t.sub()[v]);
}

proof fn lemma_path_in_sub(t: &LinkCutTree, v: int, k: nat)
    requires
        t.wf(),
        0 <= v < t.size(),
        t.is_root_spec(v),
        t.nodes()[v].parent is None,
    ensures
        t.above(v, k) is Some ==> t.sub()[v].contains(t.above(v, k)->0),
    decreases k,
{
    assert(t.node_wf(v));
    lemma_sub_self(t, v);
    if k > 0 {
        lemma_path_in_sub(t, v, (k - 1) as nat);
        if let Some(y) = t.above(v, (k - 1) as nat) {
            if y != t.first()[v] {
                lemma_up_inside(t, v, y);
            }
        }
    }
}

/// The nodes that a rotation of `v` touches are distinct and in range, and
/// their aggregates add up.
pub proof fn lemma_rotate_pre(t0: LinkCutTree, v: int)
    requires
        t0.wf(),
        0 <= v < t0.size(),
        !t0.is_root_spec(v),
    ensures
        ({
            let p = t0.nodes()[v].parent->0 as int;
            let d = t0.dir_spec(v)->0 as int;
            let a = t0.nodes()[v].child_spec(d);
            let c = t0.nodes()[v].child_spec(1 - d);
            let o = t0.nodes()[p].child_spec(1 - d);
            let g = t0.nodes()[p].parent;
            &&& 0 <= p < t0.size()
            &&& p != v
            &&& t0.nodes()[p].child_spec(d) == Some(v as usize)
            &&& (c is Some ==> c->0 < t0.size() && c->0 != v && c->0 != p)
            &&& (a is Some ==> a->0 < t0.size())
            &&& (o is Some ==> o->0 < t0.size())
            &&& (g is Some ==> g->0 < t0.size() && g->0 != v && g->0 != p && Some(g->0) != c)
            &&& 2 + t0.len_of(a) + t0.len_of(c) + t0.len_of(o) == t0.nodes()[p].len
            &&& t0.nodes()[p].len <= t0.size()
            &&& t0.nodes()[v].len == 1 + t0.len_of(a) + t0.len_of(c)
        }),
{
    let p = t0.nodes()[v].parent->0 as int;
    let d = t0.dir_spec(v)->0 as int;
    let a = t0.nodes()[v].child_spec(d);
    let c = t0.nodes()[v].child_spec(1 - d);
    let o = t0.nodes()[p].child_spec(1 - d);
    let g = t0.nodes()[p].parent;
    assert(t0.node_wf(v));
    assert(t0.node_wf(p));
    lemma_sub_self(&t0, v);
    lemma_sub_self(&t0, p);
    lemma_child_sub(&t0, v);
    lemma_aggregate_sum(&t0, v);
    lemma_aggregate_sum(&t0, p);
    if c is Some {
        assert(t0.node_wf(c->0 as int));
        lemma_sub_self(&t0, c->0 as int);
    }
    lemma_parent_outside(&t0, p);
    if g is Some {
        if t0.dir_spec(p) is Some {
            lemma_child_sub(&t0, p);
        }
        assert(t0.node_wf(g->0 as int));
    }
}

/// Every node lies in the splay tree of some splay root.
pub proof fn lemma_root_of(t: &LinkCutTree, v: int) -> (r: int)
    requires
        t.wf(),
        0 <= v < t.size(),
    ensures
        0 <= r < t.size(),
        t.is_root_spec(r),
        t.sub()[r].contains(v),
    decreases t.size() - t.sub()[v].len(),
{
    lemma_sub_self(t, v);
    if t.is_root_spec(v) {
        v
    } else {
        lemma_child_sub(t, v);
        let q = t.nodes()[v].parent->0 as int;
        lemma_sub_self(t, q);
        let r = lemma_root_of(t, q);
        lemma_nested(t, r, q);
        r
    }
}

/// Any splay subtree that holds `v` lies inside the splay tree of `v`'s root.
pub proof fn lemma_within_root(t: &LinkCutTree, x: int, v: int, r: int)
    requires
        t.wf(),
        0 <= x < t.size(),
        0 <= v < t.size(),
        0 <= r < t.size(),
        t.is_root_spec(r),
        t.sub()[x].contains(v),
        t.sub()[r].contains(v),
    ensures
        t.sub()[x].subset_of(t.sub()[r]),
    decreases t.size() - t.sub()[v].len(),
{
    lemma_sub_self(t, v);
    if x != v {
        lemma_descend(t, x, v);
        if v == r {
        } else {
            lemma_descend(t, r, v);
            lemma_child_sub(t, v);
            let q = t.nodes()[v].parent->0 as int;
            lemma_sub_self(t, q);
            lemma_within_root(t, x, q, r);
        }
    } else {
        lemma_nested(t, r, v);
    }
}

/// A rotation only touches the splay tree it happens in, which keeps its
/// node set and its path parent, under a root that may now be `u`.
pub proof fn lemma_rotate_frame(t0: LinkCutTree, t1: LinkCutTree, u: int, r: int) -> (r1: int)
    requires
        t0.wf(),
        t1.wf(),
        0 <= u < t0.size(),
        !t0.is_root_spec(u),
        LinkCutTree::rotated(t0, t1, u),
        0 <= r < t0.size(),
        t0.is_root_spec(r),
        t0.sub()[r].contains(u),
    ensures
        0 <= r1 < t0.size(),
        t1.is_root_spec(r1),
        t1.sub()[r1] == t0.sub()[r],
        t1.nodes()[r1].parent == t0.nodes()[r].parent,
        LinkCutTree::unchanged_outside(t0, t1, t0.sub()[r]),
{
    lemma_rotate_pre(t0, u);
    let p = t0.nodes()[u].parent->0 as int;
    let d = t0.dir_spec(u)->0 as int;
    let c = t0.nodes()[u].child_spec(1 - d);
    let g = t0.nodes()[p].parent;
    lemma_descend(&t0, r, u);
    lemma_nested(&t0, r, u);
    lemma_nested(&t0, r, p);
    assert(t0.node_wf(u));
    assert(t0.node_wf(r));
    lemma_sub_self(&t0, u);
    lemma_sub_self(&t0, r);
    if c is Some {
        lemma_sub_self(&t0, c->0 as int);
    }
    if p != r {
        lemma_descend(&t0, r, p);
    }
    if t0.sub()[u].contains(r) {
        lemma_descend(&t0, u, r);
    }
    lemma_parent_outside(&t0, r);
    let r1 = if p == r { u } else { r };
    if p == r {
        if g is Some {
            assert(t0.node_wf(g->0 as int));
            assert(t1.nodes()[g->0 as int] == t0.nodes()[g->0 as int]);
        }
    } else {
        let h = t0.nodes()[r].parent;
        if h is Some {
            assert(t0.node_wf(h->0 as int));
            assert(t1.nodes()[h->0 as int] == t0.nodes()[h->0 as int]);
        }
    }
    r1
}

/// Rotating the rightmost node, or its parent, keeps it rightmost.
#[verifier::rlimit(100)]
pub proof fn lemma_rotate_rightmost(t0: LinkCutTree, t1: LinkCutTree, u: int, v: int)
    requires
        t0.wf(),
        t1.wf(),
        0 <= u < t0.size(),
        0 <= v < t0.size(),
        !t0.is_root_spec(u),
        LinkCutTree::rotated(t0, t1, u),
        t0.rightmost(v),
        u == v || t0.nodes()[u].right == Some(v as usize),
    ensures
        t1.rightmost(v),
        t0.dir_spec(u) == Some(1usize),
{
    lemma_rotate_pre(t0, u);
    let p = t0.nodes()[u].parent->0 as int;
    let c = t0.nodes()[u].left;
    let o = t0.nodes()[p].left;
    let g = t0.nodes()[p].parent;
    assert(t0.node_wf(u));
    assert(t0.node_wf(p));
    assert(t0.node_wf(v));
    lemma_sub_self(&t0, u);
    lemma_sub_self(&t0, v);
    lemma_sub_self(&t0, p);
    lemma_child_sub(&t0, u);
    if u != v {
        lemma_child_sub(&t0, v);
    }
    assert(t0.sub()[p].contains(v));
    assert(t0.dir_spec(u) == Some(1usize));
    if t0.dir_spec(p) is Some {
        lemma_child_sub(&t0, p);
        assert(t0.node_wf(g->0 as int));
    }
    assert forall|x: int|
        0 <= x < t1.size() && x != v && #[trigger] t1.sub()[x].contains(v) implies t1.sub_of(
            t1.nodes()[x].right,
        ).contains(v) by {
        assert(t0.node_wf(x));
        let rx = t0.nodes()[x].right;
        if rx is Some {
            assert(t0.node_wf(rx->0 as int));
        }
        if x == u {
        } else if x == p {
            if c is Some {
                assert(t0.node_wf(c->0 as int));
            }
            if o is Some {
                assert(t0.node_wf(o->0 as int));
            }
        } else {
            assert(t0.sub()[x].contains(v));
        }
    }
}

/// Rotation keeps each node consistent.
pub proof fn lemma_rotate_node_wf(t0: LinkCutTree, t1: LinkCutTree, v: int, x: int)
    requires
        t0.wf(),
        0 <= v < t0.size(),
        !t0.is_root_spec(v),
        LinkCutTree::rotated(t0, t1, v),
        0 <= x < t0.size(),
    ensures
        t1.node_wf(x),
{
    let p = t0.nodes()[v].parent->0 as int;
    if x == p || x == v {
        lemma_rotate_vp(t0, t1, v, x);
    } else if t0.dir_spec(p) is Some && Some(x as usize) == t0.nodes()[p].parent {
        lemma_rotate_top(t0, t1, v, x);
    } else {
        lemma_rotate_rest(t0, t1, v, x);
    }
}

} // verus!
