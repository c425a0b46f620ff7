use vstd::prelude::*;
use vstd::set_lib::{lemma_len_subset, lemma_int_range, set_int_range};
use crate::node::LCTNode;
use crate::lemmas::{lemma_sub_self, lemma_child_sub, lemma_len_three, lemma_roots_disjoint, lemma_aggregate_sum, lemma_rotate_node_wf, lemma_rotate_pre, lemma_root_of,
    lemma_within_root, lemma_rotate_frame, lemma_descend,
    lemma_rotate_rightmost, lemma_parent_outside, lemma_wf_near,
    lemma_exposed_path, lemma_same_up_same_path, lemma_up_inside};

verus! {

/// A forest of rooted trees, kept as splay trees of preferred paths.
///
/// Nodes live in an arena and are named by their index. The ghost field
/// `sub` holds, for each node, the set of nodes in its splay subtree; the
/// ghost field `rank` grows strictly along every parent pointer, so that
/// following parents, across heavy or light edges, always ends.
///
/// The ghost field `up` is the real forest: each node's parent in its real
/// tree. A node's real parent is the node before it on its preferred path:
/// its in-order predecessor in its splay tree, or, for the first node of the
/// path, the parent link of the splay root. `first` and `last` give the
/// first and last node, in order, of each splay subtree.
pub struct LinkCutTree {
    nodes: Vec<LCTNode>,
    sub: Ghost<Seq<Set<int>>>,
    rank: Ghost<Seq<int>>,
    up: Ghost<Seq<Option<usize>>>,
    first: Ghost<Seq<int>>,
    last: Ghost<Seq<int>>,
}

/// Why `link` refused to join two nodes.
#[derive(Clone, Copy, Debug, PartialEq, Eq)]
pub enum LinkError {
    /// The node to hang below another already has a parent in the real forest.
    AlreadyLinked,
    /// Both nodes lie in one real tree: linking them would close a cycle.
    SameTree,
}

/// Why `cut` refused to detach a node.
#[derive(Clone, Copy, Debug, PartialEq, Eq)]
pub enum CutError {
    /// The node is the root of its real tree: there is no edge above it.
    NoParentEdge,
}

impl LinkCutTree {
    /// The node records, by index.
    pub closed spec fn nodes(&self) -> Seq<LCTNode> {
        self.nodes@
    }

    /// For each node, the set of nodes in its splay subtree.
    pub closed spec fn sub(&self) -> Seq<Set<int>> {
        self.sub@
    }

    /// A ghost rank per node, larger at every parent than at its children.
    pub closed spec fn rank(&self) -> Seq<int> {
        self.rank@
    }

    /// The real forest: the parent of each node in its real tree.
    pub closed spec fn up(&self) -> Seq<Option<usize>> {
        self.up@
    }

    /// The first node, in order, of each splay subtree.
    pub closed spec fn first(&self) -> Seq<int> {
        self.first@
    }

    /// The last node, in order, of each splay subtree.
    pub closed spec fn last(&self) -> Seq<int> {
        self.last@
    }

    pub open spec fn first_of(&self, o: Option<usize>, x: int) -> int {
        match o {
            Some(c) => self.first()[c as int],
            None => x,
        }
    }

    pub open spec fn last_of(&self, o: Option<usize>, x: int) -> int {
        match o {
            Some(c) => self.last()[c as int],
            None => x,
        }
    }

    /// The node `k` steps above `x` in the real forest, if the path reaches
    /// that far.
    pub open spec fn above(&self, x: int, k: nat) -> Option<int>
        decreases k,
    {
        if k == 0 {
            Some(x)
        } else {
            match self.above(x, (k - 1) as nat) {
                Some(y) => if 0 <= y < self.up().len() {
                    match self.up()[y] {
                        Some(z) => Some(z as int),
                        None => None,
                    }
                } else {
                    None
                },
                None => None,
            }
        }
    }

    /// The nodes on the real path from `x`'s real root down to `x`, both ends
    /// included.
    pub open spec fn path_to_root(&self, x: int) -> Set<int> {
        Set::new(|a: int| exists|k: nat| self.above(x, k) == Some(a))
    }

    pub open spec fn size(&self) -> int {
        self.nodes().len() as int
    }

    pub open spec fn sub_of(&self, o: Option<usize>) -> Set<int> {
        match o {
            Some(c) => self.sub()[c as int],
            None => Set::empty(),
        }
    }

    /// The aggregate of an optional child, zero when absent.
    pub open spec fn len_of(&self, o: Option<usize>) -> int {
        match o {
            Some(c) => self.nodes()[c as int].len as int,
            None => 0,
        }
    }

    /// An optional child of `x` that is in range and points back to `x`.
    pub open spec fn child_ok(&self, x: int, o: Option<usize>) -> bool {
        match o {
            Some(c) => c < self.size() && self.nodes()[c as int].parent == Some(x as usize),
            None => true,
        }
    }

    /// The slot at which the parent of `x` holds `x`; none across a light edge.
    pub open spec fn dir_spec(&self, x: int) -> Option<usize> {
        match self.nodes()[x].parent {
            Some(p) => if self.nodes()[p as int].left == Some(x as usize) {
                Some(0usize)
            } else if self.nodes()[p as int].right == Some(x as usize) {
                Some(1usize)
            } else {
                None
            },
            None => None,
        }
    }

    /// `x` is the root of its splay tree.
    pub open spec fn is_root_spec(&self, x: int) -> bool {
        self.dir_spec(x) is None
    }

    pub open spec fn node_wf(&self, x: int) -> bool {
        let nd = self.nodes()[x];
        &&& (nd.parent is Some ==> nd.parent->0 < self.size())
        &&& self.child_ok(x, nd.left)
        &&& self.child_ok(x, nd.right)
        &&& self.sub()[x] == set![x].union(self.sub_of(nd.left)).union(self.sub_of(nd.right))
        &&& !self.sub_of(nd.left).contains(x)
        &&& !self.sub_of(nd.right).contains(x)
        &&& self.sub_of(nd.left).disjoint(self.sub_of(nd.right))
        &&& self.sub()[x].finite()
        &&& (forall|e: int| #[trigger] self.sub()[x].contains(e) ==> 0 <= e < self.size())
        &&& nd.len == self.sub()[x].len()
        &&& (nd.parent is Some ==> self.rank()[nd.parent->0 as int] > self.rank()[x])
        &&& self.first()[x] == self.first_of(nd.left, x)
        &&& self.last()[x] == self.last_of(nd.right, x)
        &&& self.sub()[x].contains(self.first()[x])
        &&& self.sub()[x].contains(self.last()[x])
        &&& (nd.left is Some ==> self.up()[x] == Some(self.last()[nd.left->0 as int] as usize))
        &&& (nd.right is Some ==> self.up()[self.first()[nd.right->0 as int]] == Some(x as usize))
        &&& (self.is_root_spec(x) ==> self.up()[self.first()[x]] == nd.parent)
    }

    /// The structure is consistent: children point back to their parent,
    /// splay trees are acyclic, and every aggregate counts its splay subtree.
    pub open spec fn wf(&self) -> bool {
        &&& self.sub().len() == self.size()
        &&& self.rank().len() == self.size()
        &&& self.up().len() == self.size()
        &&& self.first().len() == self.size()
        &&& self.last().len() == self.size()
        &&& self.size() < usize::MAX
        &&& forall|x: int| 0 <= x < self.size() ==> #[trigger] self.node_wf(x)
    }

    /// An empty forest.
    pub fn new() -> (r: LinkCutTree)
        ensures
            r.wf(),
            r.size() == 0,
    {
        LinkCutTree { nodes: Vec::new(), sub: Ghost(Seq::empty()), rank: Ghost(Seq::empty()),
            up: Ghost(Seq::empty()), first: Ghost(Seq::empty()), last: Ghost(Seq::empty()) }
    }

    /// Adds a singleton tree and returns its node.
    pub fn new_node(&mut self) -> (r: usize)
        requires
            old(self).wf(),
            old(self).size() + 1 < usize::MAX,
        ensures
            final(self).wf(),
            r == old(self).size(),
            final(self).nodes() == old(self).nodes().push(
                LCTNode { parent: None, left: None, right: None, len: 1 },
            ),
            final(self).sub() == old(self).sub().push(set![r as int]),
            final(self).up() == old(self).up().push(None),
    {
        let r = self.nodes.len();
        self.nodes.push(LCTNode { parent: None, left: None, right: None, len: 1 });
        self.sub = Ghost(self.sub@.push(set![r as int]));
        self.rank = Ghost(self.rank@.push(0));
        self.up = Ghost(self.up@.push(None));
        self.first = Ghost(self.first@.push(r as int));
        self.last = Ghost(self.last@.push(r as int));
        proof {
            assert forall|x: int| 0 <= x < self.size() implies #[trigger] self.node_wf(x) by {
                if x < r {
                    assert(old(self).node_wf(x));
                    assert(self.nodes()[x] == old(self).nodes()[x]);
                    assert(self.sub_of(self.nodes()[x].left) == old(self).sub_of(self.nodes()[x].left));
                    assert(self.sub_of(self.nodes()[x].right) == old(self).sub_of(self.nodes()[x].right));
                    if self.nodes()[x].parent is Some {
                        assert(self.rank()[self.nodes()[x].parent->0 as int] == old(self).rank()[self.nodes()[x].parent->0 as int]);
                    }
                    let nd = self.nodes()[x];
                    if nd.left is Some {
                        assert(old(self).node_wf(nd.left->0 as int));
                    }
                    if nd.right is Some {
                        assert(old(self).node_wf(nd.right->0 as int));
                        assert(self.first()[nd.right->0 as int] == old(self).first()[nd.right->0 as int]);
                    }
                    if nd.parent is Some {
                        assert(old(self).node_wf(nd.parent->0 as int));
                    }
                    assert(self.first()[x] == old(self).first()[x]);
                    assert(self.last()[x] == old(self).last()[x]);
                    assert(self.is_root_spec(x) == old(self).is_root_spec(x));
                } else {
                    assert(set![x].union(Set::<int>::empty()).union(Set::<int>::empty()) =~= set![x]);
                }
            }
        }
        r
    }

    /// Number of nodes in the forest.
    pub fn num_nodes(&self) -> (r: usize)
        ensures
            r == self.size(),
    {
        self.nodes.len()
    }

    /// The size of `v`'s splay subtree, `v` included.
    pub fn aggregate(&self, v: usize) -> (r: usize)
        requires
            v < self.size(),
        ensures
            r == self.nodes()[v as int].len,
    {
        self.nodes[v].len
    }

    /// The parent of `v`, across a heavy or a light edge.
    pub fn parent(&self, v: usize) -> (r: Option<usize>)
        requires
            v < self.size(),
        ensures
            r == self.nodes()[v as int].parent,
    {
        self.nodes[v].parent
    }

    /// The child of `v` in slot `dir`.
    pub fn child(&self, v: usize, dir: usize) -> (r: Option<usize>)
        requires
            v < self.size(),
            dir < 2,
        ensures
            r == self.nodes()[v as int].child_spec(dir as int),
    {
        self.nodes[v].get_child(dir)
    }

    /// The slot at which `v`'s parent holds `v`, or none across a light edge
    /// or at a node without parent.
    pub fn dir(&self, v: usize) -> (r: Option<usize>)
        requires
            self.wf(),
            v < self.size(),
        ensures
            r == self.dir_spec(v as int),
    {
        proof {
            assert(self.node_wf(v as int));
        }
        match self.nodes[v].parent {
            Some(p) => {
                if self.nodes[p].left == Some(v) {
                    Some(0)
                } else if self.nodes[p].right == Some(v) {
                    Some(1)
                } else {
                    None
                }
            },
            None => None,
        }
    }

    /// Whether `v` is the root of its splay tree.
    pub fn is_path_root(&self, v: usize) -> (r: bool)
        requires
            self.wf(),
            v < self.size(),
        ensures
            r == self.is_root_spec(v as int),
    {
        self.dir(v).is_none()
    }

    /// The parent of `v`, only across a heavy edge.
    pub fn path_parent(&self, v: usize) -> (r: Option<usize>)
        requires
            self.wf(),
            v < self.size(),
        ensures
            r == (if self.is_root_spec(v as int) {
                None
            } else {
                self.nodes()[v as int].parent
            }),
    {
        match self.dir(v) {
            Some(_) => self.nodes[v].parent,
            None => None,
        }
    }

    /// Recomputes the aggregate of `x` from its two children.
    fn update(&mut self, x: usize)
        requires
            x < old(self).size(),
            old(self).nodes()[x as int].left is Some ==> old(self).nodes()[x as int].left->0
                < old(self).size(),
            old(self).nodes()[x as int].right is Some ==> old(self).nodes()[x as int].right->0
                < old(self).size(),
            1 + old(self).len_of(old(self).nodes()[x as int].left) + old(self).len_of(
                old(self).nodes()[x as int].right,
            ) <= usize::MAX,
        ensures
            final(self).nodes() == old(self).nodes().update(
                x as int,
                LCTNode {
                    len: (1 + old(self).len_of(old(self).nodes()[x as int].left) + old(self).len_of(
                        old(self).nodes()[x as int].right,
                    )) as usize,
                    ..old(self).nodes()[x as int]
                },
            ),
            final(self).sub() == old(self).sub(),
            final(self).rank() == old(self).rank(),
            final(self).up() == old(self).up(),
            final(self).first() == old(self).first(),
            final(self).last() == old(self).last(),
    {
        let mut nd = self.nodes[x];
        let l: usize = match nd.left {
            Some(c) => self.nodes[c].len,
            None => 0,
        };
        let r: usize = match nd.right {
            Some(c) => self.nodes[c].len,
            None => 0,
        };
        nd.len = 1 + l + r;
        self.nodes.set(x, nd);
    }

    /// Rotates `v` above its heavy parent `p`; a no-op at a splay root.
    ///
    /// `v`'s inner child moves under `p`, `p` becomes `v`'s child, and `v`
    /// takes `p`'s place, heavy or light, below `p`'s parent.
    #[verifier::rlimit(100)]
    pub fn rotate(&mut self, v: usize)
        requires
            old(self).wf(),
            v < old(self).size(),
        ensures
            final(self).wf(),
            final(self).size() == old(self).size(),
            old(self).is_root_spec(v as int) ==> *final(self) == *old(self),
            !old(self).is_root_spec(v as int) ==> Self::rotated(*old(self), *final(self), v as int),
    {
        let d = match self.dir(v) {
            Some(d) => d,
            None => return ,
        };
        let ghost t0 = *self;
        proof {
            lemma_rotate_pre(t0, v as int);
        }
        let p = self.nodes[v].parent.unwrap();
        let pd = self.dir(p);
        let nv0 = self.nodes[v];
        let np0 = self.nodes[p];
        let g = np0.parent;
        let c = nv0.get_child(1 - d);
        let ghost a = nv0.child_spec(d as int);
        let ghost o = np0.child_spec(1 - d);
        let mut np = np0;
        np.set_child(d, c);
        np.parent = Some(v);
        let mut nv = nv0;
        nv.set_child(1 - d, Some(p));
        nv.parent = g;
        self.nodes.set(p, np);
        self.nodes.set(v, nv);
        if let Some(ci) = c {
            let mut nc = self.nodes[ci];
            nc.parent = Some(p);
            self.nodes.set(ci, nc);
        }
        if let Some(gd) = pd {
            let gi = g.unwrap();
            let mut ng = self.nodes[gi];
            ng.set_child(gd, Some(v));
            self.nodes.set(gi, ng);
        }
        let ghost sp = set![p as int].union(t0.sub_of(c)).union(t0.sub_of(o));
        self.sub = Ghost(t0.sub().update(p as int, sp).update(v as int, t0.sub()[p as int]));
        self.rank = Ghost(
            Seq::new(
                t0.size() as nat,
                |x: int|
                    if x == v as int {
                        2 * t0.rank()[p as int]
                    } else if x == p as int {
                        2 * t0.rank()[p as int] - 1
                    } else {
                        2 * t0.rank()[x]
                    },
            ),
        );
        let ghost np1 = t0.nodes()[p as int].with_child(d as int, c);
        self.first = Ghost(
            t0.first().update(p as int, t0.first_of(np1.left, p as int)).update(
                v as int,
                t0.first()[p as int],
            ),
        );
        self.last = Ghost(
            t0.last().update(p as int, t0.last_of(np1.right, p as int)).update(
                v as int,
                t0.last()[p as int],
            ),
        );
        proof {
            assert(self.len_of(c) == t0.len_of(c));
            assert(self.len_of(o) == t0.len_of(o));
            assert(self.nodes()[p as int].child_spec(d as int) == c);
            assert(self.nodes()[p as int].child_spec(1 - d as int) == o);
        }
        self.update(p);
        proof {
            assert(self.len_of(a) == t0.len_of(a));
            assert(self.nodes()[v as int].child_spec(d as int) == a);
            assert(self.nodes()[v as int].child_spec(1 - d as int) == Some(p));
        }
        self.update(v);
        proof {
            let t1 = *self;
            assert(t1.rank()[v as int] == 2 * t0.rank()[p as int]);
            assert(t1.rank()[p as int] == 2 * t0.rank()[p as int] - 1);
            assert(Self::rotated(t0, t1, v as int));
            assert forall|x: int| 0 <= x < t1.size() implies #[trigger] t1.node_wf(x) by {
                lemma_rotate_node_wf(t0, t1, v as int, x);
            }
        }
    }

    /// Rotates `v` up to the root of its splay tree, never across a light
    /// edge: zig at the top, zig-zig when `v` and its parent lean the same
    /// way, zig-zag otherwise.
    ///
    /// The splay tree keeps its node set and its path parent; nodes of other
    /// splay trees are untouched.
    pub fn splay(&mut self, v: usize)
        requires
            old(self).wf(),
            v < old(self).size(),
        ensures
            final(self).wf(),
            final(self).size() == old(self).size(),
            final(self).is_root_spec(v as int),
            forall|r: int|
                0 <= r < old(self).size() && old(self).is_root_spec(r)
                    && old(self).sub()[r].contains(v as int) ==> {
                    &&& final(self).sub()[v as int] == old(self).sub()[r]
                    &&& final(self).nodes()[v as int].parent == old(self).nodes()[r].parent
                    &&& Self::unchanged_outside(*old(self), *final(self), old(self).sub()[r])
                },
            forall|x: int|
                0 <= x < old(self).size() && #[trigger] old(self).sub()[x].contains(v as int)
                    ==> old(self).sub()[x].subset_of(final(self).sub()[v as int]),
            old(self).rightmost(v as int) ==> final(self).nodes()[v as int].right is None,
            old(self).is_root_spec(v as int) ==> *final(self) == *old(self),
            final(self).up() == old(self).up(),
    {
        let ghost t0 = *self;
        let ghost r0 = lemma_root_of(&t0, v as int);
        let ghost mut r = r0;
        loop
            invariant
                self.wf(),
                self.size() == t0.size(),
                v < self.size(),
                0 <= r < self.size(),
                self.is_root_spec(r),
                self.sub()[r] == t0.sub()[r0],
                self.sub()[r].contains(v as int),
                self.nodes()[r].parent == t0.nodes()[r0].parent,
                Self::unchanged_outside(t0, *self, t0.sub()[r0]),
                t0.rightmost(v as int) ==> self.rightmost(v as int),
                t0.is_root_spec(v as int) ==> *self == t0,
                self.up() == t0.up(),
            ensures
                self.is_root_spec(v as int),
            decreases self.size() - self.sub()[v as int].len(),
        {
            proof {
                lemma_sub_self(self, v as int);
            }
            let pp = self.path_parent(v);
            let p = match pp {
                Some(p) => p,
                None => break,
            };
            let ghost len0 = self.sub()[v as int].len();
            proof {
                lemma_child_sub(self, v as int);
                lemma_descend(self, r, v as int);
            }
            if self.is_path_root(p) {
            } else if self.dir(v) == self.dir(p) {
                let ghost ta = *self;
                proof {
                    lemma_child_sub(self, p as int);
                    lemma_sub_self(self, v as int);
                    assert(self.node_wf(p as int));
                }
                self.rotate(p);
                proof {
                    if t0.rightmost(v as int) {
                        lemma_rotate_rightmost(ta, *self, p as int, v as int);
                    }
                    r = lemma_rotate_frame(ta, *self, p as int, r);
                    assert(self.sub()[v as int] == ta.sub()[v as int]);
                    Self::lemma_frame_step(t0, ta, *self, t0.sub()[r0]);
                }
            } else {
                let ghost ta = *self;
                self.rotate(v);
                proof {
                    if t0.rightmost(v as int) {
                        lemma_rotate_rightmost(ta, *self, v as int, v as int);
                    }
                    r = lemma_rotate_frame(ta, *self, v as int, r);
                    Self::lemma_frame_step(t0, ta, *self, t0.sub()[r0]);
                }
            }
            proof {
                lemma_sub_self(self, v as int);
                assert(self.sub()[v as int].len() >= len0);
            }
            if !self.is_path_root(v) {
                let ghost tb = *self;
                proof {
                    lemma_child_sub(self, v as int);
                }
                self.rotate(v);
                proof {
                    if t0.rightmost(v as int) {
                        lemma_rotate_rightmost(tb, *self, v as int, v as int);
                    }
                    r = lemma_rotate_frame(tb, *self, v as int, r);
                    Self::lemma_frame_step(t0, tb, *self, t0.sub()[r0]);
                }
            }
            proof {
                lemma_sub_self(self, v as int);
                assert(self.sub()[v as int].len() > len0);
            }
        }
        proof {
            if r != v as int {
                lemma_roots_disjoint(self, r, v as int);
                lemma_sub_self(self, v as int);
            }
            assert forall|r2: int|
                0 <= r2 < t0.size() && t0.is_root_spec(r2) && t0.sub()[r2].contains(v as int)
                implies r2 == r0 by {
                if r2 != r0 {
                    lemma_roots_disjoint(&t0, r2, r0);
                }
            }
            assert forall|x: int|
                0 <= x < t0.size() && #[trigger] t0.sub()[x].contains(v as int)
                implies t0.sub()[x].subset_of(self.sub()[v as int]) by {
                lemma_within_root(&t0, x, v as int, r0);
            }
        }
    }

    /// Makes the path from `v`'s real root down to `v` one splay tree with
    /// `v` at its root: `v` ends with no parent and no right child, and
    /// every deeper node of the old path hangs from it by a light edge.
    pub fn expose(&mut self, v: usize)
        requires
            old(self).wf(),
            v < old(self).size(),
        ensures
            final(self).wf(),
            final(self).size() == old(self).size(),
            final(self).is_root_spec(v as int),
            final(self).nodes()[v as int].parent is None,
            final(self).nodes()[v as int].right is None,
            final(self).nodes()[v as int].len == 1 + final(self).len_of(
                final(self).nodes()[v as int].left,
            ),
            final(self).up() == old(self).up(),
            final(self).nodes()[v as int].len == old(self).path_to_root(v as int).len(),
            final(self).sub()[v as int] == old(self).path_to_root(v as int),
            old(self).nodes()[v as int].parent is None && old(self).nodes()[v as int].right is None
                ==> *final(self) == *old(self),
    {
        let ghost n0 = self.size();
        let ghost up0 = self.up();
        let ghost t_in = *self;
        self.splay(v);
        self.drop_right(v);
        loop
            invariant
                self.wf(),
                self.size() == n0,
                self.up() == up0,
                (t_in.nodes()[v as int].parent is None && t_in.nodes()[v as int].right is None)
                    ==> *self == t_in,
                v < self.size(),
                self.is_root_spec(v as int),
                self.nodes()[v as int].right is None,
            ensures
                self.nodes()[v as int].parent is None,
            decreases self.size() - self.sub()[v as int].len(),
        {
            let p = match self.nodes[v].parent {
                Some(p) => p,
                None => break,
            };
            let ghost t0 = *self;
            let ghost mut rp: int = 0;
            proof {
                assert(self.node_wf(v as int));
                lemma_sub_self(self, v as int);
                lemma_parent_outside(self, v as int);
                rp = lemma_root_of(self, p as int);
                if rp != v as int {
                    lemma_roots_disjoint(self, rp, v as int);
                }
                assert(!self.sub()[rp].contains(v as int));
            }
            self.splay(p);
            let ghost t1 = *self;
            proof {
                assert(t1.nodes()[v as int] == t0.nodes()[v as int]);
                assert(t1.sub()[v as int] == t0.sub()[v as int]);
                assert(t1.sub()[p as int] == t0.sub()[rp]);
                if !t1.is_root_spec(v as int) {
                    lemma_child_sub(&t1, v as int);
                }
            }
            self.attach_right(p, v);
            proof {
                lemma_sub_self(self, p as int);
                assert(self.sub()[p as int].contains(v as int));
                assert(self.sub()[p as int].contains(p as int));
                assert(!t0.sub()[v as int].contains(p as int));
            }
            self.splay(v);
            proof {
                assert(self.nodes()[v as int].right is None);
            }
            self.drop_right(v);
            proof {
                lemma_sub_self(self, v as int);
                lemma_len_subset(t0.sub()[v as int].insert(p as int), self.sub()[v as int]);
            }
        }
        proof {
            lemma_aggregate_sum(self, v as int);
            lemma_exposed_path(self, v as int);
            assert(self.node_wf(v as int));
            lemma_same_up_same_path(t_in, *self, v as int);
        }
    }

    /// Hangs `v`'s tree below `new_parent`.
    ///
    /// `v` must be the root of its real tree (else `AlreadyLinked`: after
    /// exposing `v`, some node lies above it), and `new_parent` must lie in
    /// another tree (else `SameTree`: exposing `new_parent` pulled `v` onto
    /// its path). On success `v` becomes the preferred child of the exposed
    /// `new_parent`.
    #[verifier::rlimit(100)]
    pub fn link(&mut self, v: usize, new_parent: usize) -> (r: Result<(), LinkError>)
        requires
            old(self).wf(),
            v < old(self).size(),
            new_parent < old(self).size(),
        ensures
            final(self).wf(),
            final(self).size() == old(self).size(),
            r is Ok ==> {
                &&& final(self).nodes()[v as int].parent == Some(new_parent)
                &&& final(self).nodes()[new_parent as int].right == Some(v)
                &&& final(self).nodes()[new_parent as int].parent is None
                &&& v != new_parent
            },
            (r == Err::<(), LinkError>(LinkError::AlreadyLinked)) == (old(self).up()[v as int] is Some),
            r is Ok ==> final(self).up() == old(self).up().update(v as int, Some(new_parent)),
            r is Err ==> final(self).up() == old(self).up(),
            (r == Err::<(), LinkError>(LinkError::SameTree)) == (old(self).up()[v as int] is None
                && old(self).path_to_root(new_parent as int).contains(v as int)),
    {
        let ghost up0 = self.up();
        self.expose(v);
        proof {
            assert(self.node_wf(v as int));
            if self.nodes()[v as int].left is Some {
                assert(self.node_wf(self.nodes()[v as int].left->0 as int));
            }
        }
        if self.nodes[v].left.is_some() {
            return Err(LinkError::AlreadyLinked);
        }
        proof {
            assert(self.node_wf(v as int));
        }
        let ghost ta = *self;
        self.expose(new_parent);
        proof {
            lemma_same_up_same_path(ta, *self, new_parent as int);
            lemma_same_up_same_path(*old(self), ta, new_parent as int);
            assert(self.node_wf(new_parent as int));
            lemma_sub_self(self, new_parent as int);
            if self.sub()[new_parent as int].contains(v as int) && v as int != self.first()[new_parent as int] {
                lemma_up_inside(self, new_parent as int, v as int);
            }
        }
        // `v` is a real root, so it shares a tree with `new_parent` exactly
        // when it begins the path just exposed.
        if self.path_first(new_parent) == v {
            return Err(LinkError::SameTree);
        }
        let ghost tb = *self;
        proof {
            let rv = lemma_root_of(self, v as int);
            if v as int != self.first()[rv] {
                lemma_up_inside(self, rv, v as int);
            }
            assert(self.node_wf(rv));
            if rv == new_parent as int {
                lemma_sub_self(self, rv);
            } else {
                lemma_roots_disjoint(self, rv, new_parent as int);
            }
            lemma_sub_self(self, new_parent as int);
        }
        // `v` begins its own path, whose splay root has no parent: bring it
        // to the top of that splay tree.
        self.splay(v);
        proof {
            assert(self.node_wf(v as int));
            lemma_sub_self(self, v as int);
            if v as int != self.first()[v as int] {
                lemma_up_inside(self, v as int, v as int);
            }
            if self.nodes()[v as int].left is Some {
                assert(self.node_wf(self.nodes()[v as int].left->0 as int));
            }
            assert(self.nodes()[new_parent as int] == tb.nodes()[new_parent as int]);
        }
        let ghost t0 = *self;
        let w = new_parent;
        proof {
            assert(t0.node_wf(v as int));
            assert(t0.node_wf(w as int));
            lemma_sub_self(&t0, v as int);
            lemma_sub_self(&t0, w as int);
            lemma_roots_disjoint(&t0, w as int, v as int);
            lemma_aggregate_sum(&t0, v as int);
        }
        let mut nv = self.nodes[v];
        nv.parent = Some(w);
        self.nodes.set(v, nv);
        let mut nw = self.nodes[w];
        nw.right = Some(v);
        self.nodes.set(w, nw);
        let ghost l = t0.nodes()[w as int].left;
        let ghost sw = set![w as int].union(t0.sub_of(l)).union(t0.sub()[v as int]);
        self.sub = Ghost(t0.sub().update(w as int, sw));
        self.last = Ghost(t0.last().update(w as int, t0.last()[v as int]));
        self.up = Ghost(t0.up().update(v as int, Some(w)));
        self.rank = Ghost(
            t0.rank().update(
                w as int,
                if t0.rank()[w as int] > t0.rank()[v as int] {
                    t0.rank()[w as int]
                } else {
                    t0.rank()[v as int] + 1
                },
            ),
        );
        proof {
            if l is Some {
                assert(t0.node_wf(l->0 as int));
            }
            lemma_len_three(w as int, t0.sub_of(l), t0.sub()[v as int]);
            lemma_int_range(0, t0.size());
            assert(sw.subset_of(set_int_range(0, t0.size())));
            lemma_len_subset(sw, set_int_range(0, t0.size()));
            assert(self.len_of(l) == t0.len_of(l));
            assert(self.len_of(Some(v)) == t0.nodes()[v as int].len);
        }
        self.update(w);
        proof {
            let t1 = *self;
            assert forall|x: int| 0 <= x < t1.size() implies #[trigger] t1.node_wf(x) by {
                lemma_wf_near(&t0, x);
                if x != w as int && t0.sub()[x].contains(w as int) {
                    lemma_descend(&t0, x, w as int);
                }
                if x != v as int && t0.sub()[x].contains(v as int) {
                    lemma_descend(&t0, x, v as int);
                }
                Self::lemma_not_first_below(&t0, x, v as int);
                if x == w as int {
                    assert(t1.sub()[x] =~= set![x].union(t1.sub_of(t1.nodes()[x].left)).union(
                        t1.sub_of(t1.nodes()[x].right)));
                    Self::lemma_not_first_below(&t0, w as int, v as int);
                    assert(t0.first()[v as int] == v);
                    assert(t1.up()[t1.first()[v as int]] == Some(w));
                    assert(t1.last()[x] == t1.last_of(t1.nodes()[x].right, x));
                    assert(t1.sub()[x].contains(t1.last()[x]));
                    assert(t1.up()[t1.first()[x]] == t0.up()[t0.first()[x]]);
                } else if x == v as int {
                } else {
                    assert(t1.is_root_spec(x) == t0.is_root_spec(x));
                }
            }
        }
        Ok(())
    }

    /// Detaches `v` and its subtree from the node above it.
    ///
    /// After exposing `v`, its left splay subtree is the path above it; that
    /// subtree is split off. When there is none, `v` is the root of its real
    /// tree and `NoParentEdge` comes back.
    #[verifier::rlimit(100)]
    pub fn cut(&mut self, v: usize) -> (r: Result<(), CutError>)
        requires
            old(self).wf(),
            v < old(self).size(),
        ensures
            final(self).wf(),
            final(self).size() == old(self).size(),
            final(self).nodes()[v as int].parent is None,
            final(self).nodes()[v as int].left is None,
            final(self).nodes()[v as int].right is None,
            final(self).nodes()[v as int].len == 1,
            (r is Ok) == (old(self).up()[v as int] is Some),
            r is Ok ==> final(self).up() == old(self).up().update(v as int, None),
            r is Err ==> final(self).up() == old(self).up(),
    {
        self.expose(v);
        proof {
            assert(self.node_wf(v as int));
            if self.nodes()[v as int].left is Some {
                assert(self.node_wf(self.nodes()[v as int].left->0 as int));
            }
        }
        let l = match self.nodes[v].left {
            Some(l) => l,
            None => {
                proof {
                    lemma_aggregate_sum(self, v as int);
                }
                return Err(CutError::NoParentEdge);
            },
        };
        let ghost t0 = *self;
        proof {
            assert(t0.node_wf(v as int));
            assert(t0.node_wf(l as int));
            lemma_sub_self(&t0, v as int);
            lemma_sub_self(&t0, l as int);
        }
        let mut nv = self.nodes[v];
        nv.left = None;
        self.nodes.set(v, nv);
        let mut nl = self.nodes[l];
        nl.parent = None;
        self.nodes.set(l, nl);
        self.sub = Ghost(t0.sub().update(v as int, set![v as int]));
        self.first = Ghost(t0.first().update(v as int, v as int));
        self.up = Ghost(t0.up().update(v as int, None));
        self.update(v);
        proof {
            let t1 = *self;
            assert forall|x: int| 0 <= x < t1.size() implies #[trigger] t1.node_wf(x) by {
                lemma_wf_near(&t0, x);
                if x != v as int && t0.sub()[x].contains(v as int) {
                    lemma_descend(&t0, x, v as int);
                }
                if x == v as int {
                    assert(t1.sub()[x] =~= set![x].union(t1.sub_of(t1.nodes()[x].left)).union(
                        t1.sub_of(t1.nodes()[x].right)));
                }
                Self::lemma_not_first_below(&t0, x, v as int);
            }
        }
        Ok(())
    }

    /// The first node, in order, of `x`'s splay subtree.
    fn path_first(&self, x: usize) -> (r: usize)
        requires
            self.wf(),
            x < self.size(),
        ensures
            r == self.first()[x as int],
    {
        let mut y = x;
        loop
            invariant
                self.wf(),
                y < self.size(),
                self.first()[y as int] == self.first()[x as int],
            decreases self.sub()[y as int].len(),
        {
            proof {
                assert(self.node_wf(y as int));
            }
            match self.nodes[y].left {
                Some(l) => {
                    proof {
                        lemma_child_sub(self, l as int);
                    }
                    y = l;
                },
                None => return y,
            }
        }
    }

    /// Turns the right child of the splay root `v` into a light child.
    fn drop_right(&mut self, v: usize)
        requires
            old(self).wf(),
            v < old(self).size(),
            old(self).is_root_spec(v as int),
        ensures
            final(self).wf(),
            final(self).size() == old(self).size(),
            final(self).is_root_spec(v as int),
            final(self).nodes()[v as int] == (LCTNode {
                right: None,
                len: (1 + old(self).len_of(old(self).nodes()[v as int].left)) as usize,
                ..old(self).nodes()[v as int]
            }),
            final(self).sub()[v as int] == set![v as int].union(
                old(self).sub_of(old(self).nodes()[v as int].left),
            ).union(Set::<int>::empty()),
            old(self).nodes()[v as int].right is None ==> *final(self) == *old(self),
            Self::unchanged_outside(*old(self), *final(self), set![v as int]),
            final(self).up() == old(self).up(),
    {
        let ghost t0 = *self;
        let ghost l = t0.nodes()[v as int].left;
        let ghost rc = t0.nodes()[v as int].right;
        proof {
            assert(t0.node_wf(v as int));
            lemma_sub_self(&t0, v as int);
            if l is Some {
                assert(t0.node_wf(l->0 as int));
            }
            if rc is Some {
                assert(t0.node_wf(rc->0 as int));
            }
            lemma_len_three(v as int, t0.sub_of(l), Set::empty());
            assert(set![v as int].union(t0.sub_of(l)).union(Set::<int>::empty()).subset_of(
                t0.sub()[v as int],
            ));
            lemma_len_subset(
                set![v as int].union(t0.sub_of(l)).union(Set::<int>::empty()),
                t0.sub()[v as int],
            );
        }
        if self.nodes[v].right.is_none() {
            proof {
                assert(set![v as int].union(t0.sub_of(l)).union(Set::<int>::empty()) =~= t0.sub()[v as int]);
                lemma_aggregate_sum(&t0, v as int);
            }
            return ;
        }
        let mut nd = self.nodes[v];
        nd.right = None;
        self.nodes.set(v, nd);
        self.sub = Ghost(
            t0.sub().update(v as int, set![v as int].union(t0.sub_of(l)).union(Set::empty())),
        );
        self.last = Ghost(t0.last().update(v as int, v as int));
        self.update(v);
        proof {
            let t1 = *self;
            assert forall|x: int| 0 <= x < t1.size() implies #[trigger] t1.node_wf(x) by {
                lemma_wf_near(&t0, x);
                let nx = t0.nodes()[x];
                if x != v as int && t0.sub()[x].contains(v as int) {
                    lemma_descend(&t0, x, v as int);
                }
                assert(t1.nodes()[x].parent == nx.parent);
            }
        }
    }

    /// Hangs the splay root `v` as the right child of its light parent `p`,
    /// itself a splay root; `p`'s old right child becomes a light child.
    fn attach_right(&mut self, p: usize, v: usize)
        requires
            old(self).wf(),
            v < old(self).size(),
            p < old(self).size(),
            old(self).is_root_spec(v as int),
            old(self).is_root_spec(p as int),
            old(self).nodes()[v as int].parent == Some(p),
            old(self).nodes()[v as int].right is None,
        ensures
            final(self).wf(),
            final(self).size() == old(self).size(),
            final(self).is_root_spec(p as int),
            final(self).nodes()[p as int] == (LCTNode {
                right: Some(v),
                len: (1 + old(self).len_of(old(self).nodes()[p as int].left) + old(self).nodes()[v as int].len) as usize,
                ..old(self).nodes()[p as int]
            }),
            final(self).sub()[p as int] == set![p as int].union(
                old(self).sub_of(old(self).nodes()[p as int].left),
            ).union(old(self).sub()[v as int]),
            Self::unchanged_outside(*old(self), *final(self), set![p as int]),
            final(self).rightmost(v as int),
            final(self).up() == old(self).up(),
    {
        let ghost t0 = *self;
        let ghost l = t0.nodes()[p as int].left;
        let ghost rc = t0.nodes()[p as int].right;
        let ghost sp = set![p as int].union(t0.sub_of(l)).union(t0.sub()[v as int]);
        proof {
            assert(t0.node_wf(v as int));
            assert(t0.node_wf(p as int));
            lemma_sub_self(&t0, v as int);
            lemma_sub_self(&t0, p as int);
            lemma_roots_disjoint(&t0, p as int, v as int);
            if l is Some {
                assert(t0.node_wf(l->0 as int));
            }
            if rc is Some {
                assert(t0.node_wf(rc->0 as int));
            }
            lemma_len_three(p as int, t0.sub_of(l), t0.sub()[v as int]);
            lemma_int_range(0, t0.size());
            assert(sp.subset_of(set_int_range(0, t0.size())));
            lemma_len_subset(sp, set_int_range(0, t0.size()));
        }
        let mut nd = self.nodes[p];
        nd.right = Some(v);
        self.nodes.set(p, nd);
        self.sub = Ghost(t0.sub().update(p as int, sp));
        self.last = Ghost(t0.last().update(p as int, t0.last()[v as int]));
        proof {
            assert(self.len_of(Some(v)) == t0.nodes()[v as int].len);
            assert(self.len_of(l) == t0.len_of(l));
        }
        self.update(p);
        proof {
            let t1 = *self;
            assert forall|x: int| 0 <= x < t1.size() implies #[trigger] t1.node_wf(x) by {
                lemma_wf_near(&t0, x);
                let nx = t0.nodes()[x];
                let n1 = t1.nodes()[x];
                if x == p as int {
                    assert(t1.sub()[x] =~= set![x].union(t1.sub_of(n1.left)).union(t1.sub_of(n1.right)));
                }
                if x != p as int && t0.sub()[x].contains(p as int) {
                    lemma_descend(&t0, x, p as int);
                }
                assert(t1.nodes()[x].parent == nx.parent);
            }
            assert forall|x: int|
                0 <= x < t1.size() && x != v && #[trigger] t1.sub()[x].contains(v as int)
                implies t1.sub_of(t1.nodes()[x].right).contains(v as int) by {
                if x != p as int {
                    lemma_descend(&t0, x, v as int);
                }
            }
        }
    }

    /// `v` has no right child and lies in the right subtree of each of its
    /// splay ancestors: it is the last node of its preferred path.
    pub open spec fn rightmost(&self, v: int) -> bool {
        &&& self.nodes()[v].right is None
        &&& forall|x: int|
            0 <= x < self.size() && x != v && #[trigger] self.sub()[x].contains(v) ==> self.sub_of(
                self.nodes()[x].right,
            ).contains(v)
    }

    /// Every node outside `s` has the same record and splay subtree in `t1`
    /// as in `t0`.
    pub open spec fn unchanged_outside(t0: LinkCutTree, t1: LinkCutTree, s: Set<int>) -> bool {
        forall|x: int|
            0 <= x < t0.size() && !s.contains(x) ==> #[trigger] t1.nodes()[x] == t0.nodes()[x]
                && t1.sub()[x] == t0.sub()[x]
    }

    proof fn lemma_frame_step(t0: LinkCutTree, ta: LinkCutTree, tb: LinkCutTree, s: Set<int>)
        requires
            ta.size() == t0.size(),
            Self::unchanged_outside(t0, ta, s),
            Self::unchanged_outside(ta, tb, s),
        ensures
            Self::unchanged_outside(t0, tb, s),
    {
        assert forall|x: int| 0 <= x < t0.size() && !s.contains(x) implies #[trigger] tb.nodes()[x]
            == t0.nodes()[x] && tb.sub()[x] == t0.sub()[x] by {
            assert(ta.nodes()[x] == t0.nodes()[x]);
            assert(tb.nodes()[x] == ta.nodes()[x]);
        }
    }

    /// A splay root `v` is not the first node of any splay subtree but its
    /// own, and not the last node of a subtree hanging below another node.
    proof fn lemma_not_first_below(t: &LinkCutTree, x: int, v: int)
        requires
            t.wf(),
            0 <= x < t.size(),
            0 <= v < t.size(),
            t.is_root_spec(v),
        ensures
            x != v ==> t.first()[x] != v || !t.sub()[x].contains(v),
            t.nodes()[x].left is Some ==> t.last()[t.nodes()[x].left->0 as int] != v,
            t.nodes()[x].right is Some ==> t.first()[t.nodes()[x].right->0 as int] != v,
    {
        lemma_wf_near(t, x);
        let nd = t.nodes()[x];
        if x != v && t.sub()[x].contains(v) {
            lemma_descend(t, x, v);
        }
        if nd.left is Some {
            let l = nd.left->0 as int;
            if t.sub()[l].contains(v) && l != v {
                lemma_descend(t, l, v);
            }
            lemma_child_sub(t, l);
        }
        if nd.right is Some {
            let r = nd.right->0 as int;
            if t.sub()[r].contains(v) && r != v {
                lemma_descend(t, r, v);
            }
            lemma_child_sub(t, r);
        }
    }

    /// `t1` is `t0` after rotating `v` above its heavy parent.
    pub open spec fn rotated(t0: LinkCutTree, t1: LinkCutTree, v: int) -> bool {
        let p = t0.nodes()[v].parent->0 as int;
        let d = t0.dir_spec(v)->0 as int;
        let c = t0.nodes()[v].child_spec(1 - d);
        let o = t0.nodes()[p].child_spec(1 - d);
        let g = t0.nodes()[p].parent;
        &&& t1.size() == t0.size()
        &&& t1.sub().len() == t0.sub().len()
        &&& t1.nodes()[p] == LCTNode {
            parent: Some(v as usize),
            len: (1 + t0.len_of(c) + t0.len_of(o)) as usize,
            ..t0.nodes()[p].with_child(d, c)
        }
        &&& t1.nodes()[v] == LCTNode {
            parent: g,
            len: t0.nodes()[p].len,
            ..t0.nodes()[v].with_child(1 - d, Some(p as usize))
        }
        &&& c is Some ==> t1.nodes()[c->0 as int] == LCTNode {
            parent: Some(p as usize),
            ..t0.nodes()[c->0 as int]
        }
        &&& t0.dir_spec(p) is Some ==> t1.nodes()[g->0 as int] == t0.nodes()[g->0 as int].with_child(
            t0.dir_spec(p)->0 as int,
            Some(v as usize),
        )
        &&& forall|x: int|
            0 <= x < t0.size() && x != v && x != p && Some(x as usize) != c && !(t0.dir_spec(p) is Some
                && Some(x as usize) == g) ==> #[trigger] t1.nodes()[x] == t0.nodes()[x]
        &&& t1.sub()[v] == t0.sub()[p]
        &&& t1.sub()[p] == set![p].union(t0.sub_of(c)).union(t0.sub_of(o))
        &&& forall|x: int| 0 <= x < t0.size() && x != v && x != p ==> #[trigger] t1.sub()[x] == t0.sub()[x]
        &&& t1.rank().len() == t0.size()
        &&& t1.rank()[v] == 2 * t0.rank()[p]
        &&& t1.rank()[p] == 2 * t0.rank()[p] - 1
        &&& forall|x: int| 0 <= x < t0.size() && x != v && x != p ==> #[trigger] t1.rank()[x] == 2 * t0.rank()[x]
        &&& t1.up() == t0.up()
        &&& t1.first().len() == t0.size()
        &&& t1.last().len() == t0.size()
        &&& t1.first()[v] == t0.first()[p]
        &&& t1.last()[v] == t0.last()[p]
        &&& t1.first()[p] == t0.first_of(t0.nodes()[p].with_child(d, c).left, p)
        &&& t1.last()[p] == t0.last_of(t0.nodes()[p].with_child(d, c).right, p)
        &&& forall|x: int| 0 <= x < t0.size() && x != v && x != p ==> #[trigger] t1.first()[x] == t0.first()[x]
        &&& forall|x: int| 0 <= x < t0.size() && x != v && x != p ==> #[trigger] t1.last()[x] == t0.last()[x]
    }
}

} // verus!
