use link_cut_tree::{CutError, LinkCutTree, LinkError};

fn forest(n: usize) -> (LinkCutTree, Vec<usize>) {
    let mut t = LinkCutTree::new();
    let ids = (0..n).map(|_| t.new_node()).collect();
    (t, ids)
}

fn child_len(t: &LinkCutTree, v: usize, dir: usize) -> usize {
    match t.child(v, dir) {
        Some(c) => t.aggregate(c),
        None => 0,
    }
}

fn assert_aggregates(t: &LinkCutTree) {
    for v in 0..t.num_nodes() {
        assert_eq!(t.aggregate(v), 1 + child_len(t, v, 0) + child_len(t, v, 1));
        for dir in 0..2 {
            if let Some(c) = t.child(v, dir) {
                assert_eq!(t.parent(c), Some(v));
            }
        }
    }
}

/// The real root of `v`'s tree: the first node of the exposed path.
fn find_root(t: &mut LinkCutTree, v: usize) -> usize {
    t.expose(v);
    let mut r = v;
    while let Some(l) = t.child(r, 0) {
        r = l;
    }
    r
}

fn model_root(parent: &[Option<usize>], mut v: usize) -> usize {
    while let Some(p) = parent[v] {
        v = p;
    }
    v
}

fn model_depth(parent: &[Option<usize>], mut v: usize) -> usize {
    let mut d = 1;
    while let Some(p) = parent[v] {
        v = p;
        d += 1;
    }
    d
}

#[test]
fn it_works() {
    let result = 2 + 2;
    assert_eq!(result, 4);
}

#[test]
fn new_nodes_are_singletons() {
    let (t, ids) = forest(3);
    assert_eq!(t.num_nodes(), 3);
    for &v in &ids {
        assert_eq!(t.aggregate(v), 1);
        assert_eq!(t.parent(v), None);
        assert_eq!(t.child(v, 0), None);
        assert_eq!(t.child(v, 1), None);
        assert!(t.is_path_root(v));
        assert_eq!(t.dir(v), None);
        assert_eq!(t.path_parent(v), None);
    }
}

#[test]
fn three_node_link_cut_scenario() {
    let (mut t, ids) = forest(3);
    let (a, b, c) = (ids[0], ids[1], ids[2]);
    assert_eq!(t.link(b, a), Ok(()));
    assert_eq!(t.link(c, b), Ok(()));
    t.expose(c);
    assert_eq!(t.aggregate(c), 3);
    assert_eq!(t.cut(c), Ok(()));
    t.expose(b);
    assert_eq!(t.aggregate(b), 2);
    t.expose(c);
    assert_eq!(t.aggregate(c), 1);
    assert_aggregates(&t);
}

#[test]
fn chain_of_five() {
    let (mut t, ids) = forest(5);
    for i in 1..5 {
        assert_eq!(t.link(ids[i], ids[i - 1]), Ok(()));
    }
    t.expose(ids[4]);
    assert_eq!(t.aggregate(ids[4]), 5);
    t.expose(ids[1]);
    assert_eq!(t.aggregate(ids[1]), 2);
    assert_aggregates(&t);
}

#[test]
fn link_sets_heavy_child() {
    let (mut t, ids) = forest(2);
    assert_eq!(t.link(ids[1], ids[0]), Ok(()));
    assert_eq!(t.parent(ids[1]), Some(ids[0]));
    assert_eq!(t.child(ids[0], 1), Some(ids[1]));
    assert_eq!(t.dir(ids[1]), Some(1));
    assert!(!t.is_path_root(ids[1]));
    assert_eq!(t.path_parent(ids[1]), Some(ids[0]));
    assert_eq!(t.aggregate(ids[0]), 2);
}

#[test]
fn rotate_lifts_child() {
    let (mut t, ids) = forest(2);
    let (a, b) = (ids[0], ids[1]);
    assert_eq!(t.link(b, a), Ok(()));
    t.rotate(b);
    assert_eq!(t.parent(b), None);
    assert_eq!(t.parent(a), Some(b));
    assert_eq!(t.child(b, 0), Some(a));
    assert_eq!(t.child(a, 1), None);
    assert_eq!(t.aggregate(b), 2);
    assert_eq!(t.aggregate(a), 1);
    assert!(t.is_path_root(b));
    // A splay root does not move.
    t.rotate(b);
    assert_eq!(t.child(b, 0), Some(a));
    assert_eq!(t.aggregate(b), 2);
}

#[test]
fn splay_twice_changes_nothing() {
    let (mut t, ids) = forest(6);
    for i in 1..6 {
        assert_eq!(t.link(ids[i], ids[i - 1]), Ok(()));
    }
    t.expose(ids[5]);
    t.splay(ids[2]);
    assert!(t.is_path_root(ids[2]));
    let snapshot: Vec<_> = (0..6)
        .map(|v| (t.parent(v), t.child(v, 0), t.child(v, 1), t.aggregate(v)))
        .collect();
    t.splay(ids[2]);
    let again: Vec<_> = (0..6)
        .map(|v| (t.parent(v), t.child(v, 0), t.child(v, 1), t.aggregate(v)))
        .collect();
    assert_eq!(snapshot, again);
    assert_aggregates(&t);
}

#[test]
fn expose_makes_path_root() {
    let (mut t, ids) = forest(4);
    assert_eq!(t.link(ids[1], ids[0]), Ok(()));
    assert_eq!(t.link(ids[2], ids[1]), Ok(()));
    assert_eq!(t.link(ids[3], ids[1]), Ok(()));
    for &v in &ids {
        t.expose(v);
        assert!(t.is_path_root(v));
        assert_eq!(t.parent(v), None);
        assert_eq!(t.child(v, 1), None);
    }
    t.expose(ids[3]);
    assert_eq!(t.aggregate(ids[3]), 3);
    t.expose(ids[0]);
    assert_eq!(t.aggregate(ids[0]), 1);
}

#[test]
fn link_refuses_non_root() {
    let (mut t, ids) = forest(3);
    assert_eq!(t.link(ids[1], ids[0]), Ok(()));
    assert_eq!(t.link(ids[1], ids[2]), Err(LinkError::AlreadyLinked));
    assert_aggregates(&t);
}

#[test]
fn link_refuses_same_tree() {
    let (mut t, ids) = forest(3);
    assert_eq!(t.link(ids[1], ids[0]), Ok(()));
    assert_eq!(t.link(ids[0], ids[1]), Err(LinkError::SameTree));
    assert_eq!(t.link(ids[2], ids[2]), Err(LinkError::SameTree));
    assert_aggregates(&t);
}

#[test]
fn cut_refuses_root() {
    let (mut t, ids) = forest(2);
    assert_eq!(t.cut(ids[0]), Err(CutError::NoParentEdge));
    assert_eq!(t.link(ids[1], ids[0]), Ok(()));
    assert_eq!(t.cut(ids[0]), Err(CutError::NoParentEdge));
    assert_eq!(t.cut(ids[1]), Ok(()));
    assert_eq!(t.cut(ids[1]), Err(CutError::NoParentEdge));
}

#[test]
fn link_joins_trees() {
    let (mut t, ids) = forest(5);
    assert_eq!(t.link(ids[1], ids[0]), Ok(()));
    assert_eq!(t.link(ids[3], ids[2]), Ok(()));
    assert_eq!(t.link(ids[4], ids[3]), Ok(()));
    assert_eq!(t.link(ids[2], ids[1]), Ok(()));
    for &v in &ids {
        assert_eq!(find_root(&mut t, v), ids[0]);
    }
    t.expose(ids[4]);
    assert_eq!(t.aggregate(ids[4]), 5);
}

#[test]
fn cut_then_relink_restores() {
    let (mut t, ids) = forest(5);
    for i in 1..5 {
        assert_eq!(t.link(ids[i], ids[i - 1]), Ok(()));
    }
    let before: Vec<usize> = ids
        .iter()
        .map(|&v| {
            t.expose(v);
            t.aggregate(v)
        })
        .collect();
    assert_eq!(t.cut(ids[2]), Ok(()));
    assert_eq!(find_root(&mut t, ids[4]), ids[2]);
    assert_eq!(find_root(&mut t, ids[1]), ids[0]);
    assert_eq!(t.link(ids[2], ids[1]), Ok(()));
    let after: Vec<usize> = ids
        .iter()
        .map(|&v| {
            t.expose(v);
            t.aggregate(v)
        })
        .collect();
    assert_eq!(before, after);
    assert_eq!(after, vec![1, 2, 3, 4, 5]);
}

#[test]
fn random_operations_match_model() {
    let n = 24;
    let (mut t, ids) = forest(n);
    let mut parent: Vec<Option<usize>> = vec![None; n];
    let mut seed: u64 = 0x2545_f491_4f6c_dd1d;
    let mut next = move |m: usize| {
        seed = seed.wrapping_mul(6364136223846793005).wrapping_add(1442695040888963407);
        ((seed >> 33) as usize) % m
    };
    for _ in 0..2000 {
        let v = ids[next(n)];
        if next(2) == 0 {
            let w = ids[next(n)];
            let got = t.link(v, w);
            if parent[v].is_some() {
                assert_eq!(got, Err(LinkError::AlreadyLinked));
            } else if model_root(&parent, w) == v {
                assert_eq!(got, Err(LinkError::SameTree));
            } else {
                assert_eq!(got, Ok(()));
                parent[v] = Some(w);
            }
        } else {
            let got = t.cut(v);
            if parent[v].is_some() {
                assert_eq!(got, Ok(()));
                parent[v] = None;
            } else {
                assert_eq!(got, Err(CutError::NoParentEdge));
            }
        }
        let a = ids[next(n)];
        let b = ids[next(n)];
        let same = model_root(&parent, a) == model_root(&parent, b);
        assert_eq!(find_root(&mut t, a) == find_root(&mut t, b), same);
        t.expose(a);
        assert_eq!(t.aggregate(a), model_depth(&parent, a));
        assert_aggregates(&t);
    }
}
