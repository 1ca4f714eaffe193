use versioned_dag::{Dag, Node};

fn children_of(
    dag: &Dag<&'static str, &'static str>,
    n: &Node,
) -> Vec<(&'static str, &'static str)> {
    let mut out = Vec::new();
    let mut it = n.children();
    while let Some((e, m)) = it.next(dag) {
        out.push((*dag.edge_data(e), *m.get(dag)));
    }
    out
}

fn parents_of(
    dag: &Dag<&'static str, &'static str>,
    n: &Node,
) -> Vec<(&'static str, &'static str)> {
    let mut out = Vec::new();
    let mut it = n.parents();
    while let Some((e, m)) = it.next(dag) {
        out.push((*dag.edge_data(e), *m.get(dag)));
    }
    out
}

#[test]
fn fresh_node_has_no_edges() {
    let mut dag: Dag<&str, &str> = Dag::new();
    let n = Node::new(&mut dag, "alone");
    assert_eq!(*n.get(&dag), "alone");
    assert_eq!(children_of(&dag, &n).len(), 0);
    assert_eq!(parents_of(&dag, &n).len(), 0);
    // traversals are restartable: a second walk sees the same thing
    assert_eq!(children_of(&dag, &n).len(), 0);
}

#[test]
fn copy_on_write_isolation() {
    let mut dag: Dag<&str, &str> = Dag::new();
    let mut n = Node::new(&mut dag, "n");
    let mut x = Node::new(&mut dag, "x");
    n.add_child(&mut dag, &mut x, "nx");

    let mut m = n.clone(&mut dag);
    let m_children = children_of(&dag, &m);
    let m_parents = parents_of(&dag, &m);

    // mutating n is invisible through m
    n.set(&mut dag, "n-changed");
    let mut y = Node::new(&mut dag, "y");
    n.add_child(&mut dag, &mut y, "ny");
    assert_eq!(children_of(&dag, &m), m_children);
    assert_eq!(parents_of(&dag, &m), m_parents);

    // and mutating m is invisible through n
    let n_children = children_of(&dag, &n);
    let mut z = Node::new(&mut dag, "z");
    m.add_child(&mut dag, &mut z, "mz");
    m.set(&mut dag, "m-changed");
    assert_eq!(children_of(&dag, &n), n_children);
    assert_eq!(*n.get(&dag), "n-changed");
    assert_eq!(*m.get(&dag), "m-changed");
}

#[test]
fn set_replaces_only_this_handle() {
    let mut dag: Dag<&str, &str> = Dag::new();
    let mut a = Node::new(&mut dag, "first");
    assert_eq!(*a.get(&dag), "first");
    a.set(&mut dag, "second");
    assert_eq!(*a.get(&dag), "second");
    let mut b = a.clone(&mut dag);
    b.set(&mut dag, "third");
    assert_eq!(*a.get(&dag), "second");
    assert_eq!(*b.get(&dag), "third");
}

#[test]
fn edge_visibility_follows_lineage() {
    let mut dag: Dag<&str, &str> = Dag::new();
    let mut a = Node::new(&mut dag, "a");
    let mut b = Node::new(&mut dag, "b");
    a.add_child(&mut dag, &mut b, "ab");

    // the mutated handle advanced to the authoring merge version: visible
    assert_eq!(children_of(&dag, &a), vec![("ab", "b")]);

    // b's handle predates the edge: invisible
    assert_eq!(parents_of(&dag, &b).len(), 0);

    // after synchronizing b onto the merge version, the edge appears
    b.sync(&dag, &mut a);
    assert_eq!(parents_of(&dag, &b), vec![("ab", "a")]);
}

#[test]
fn add_child_sync_entangles_both_sides() {
    let mut dag: Dag<&str, &str> = Dag::new();
    let mut a = Node::new(&mut dag, "a");
    let mut b = Node::new(&mut dag, "b");
    a.add_child_sync(&mut dag, &mut b, "ab");
    assert_eq!(children_of(&dag, &a), vec![("ab", "b")]);
    assert_eq!(parents_of(&dag, &b), vec![("ab", "a")]);
}

#[test]
fn traversal_neighbors_carry_the_callers_version() {
    let mut dag: Dag<&str, &str> = Dag::new();
    let mut a = Node::new(&mut dag, "a");
    let mut b = Node::new(&mut dag, "b");
    let mut c = Node::new(&mut dag, "c");
    a.add_child_sync(&mut dag, &mut b, "ab");
    b.add_child_sync(&mut dag, &mut c, "bc");
    a.sync(&dag, &mut b);

    // from a, step to b, then step again to c: the handle returned by the
    // first step shares a's horizon, so the second edge is visible
    let mut it = a.children();
    let (_, via_b) = it.next(&dag).unwrap();
    assert_eq!(*via_b.get(&dag), "b");
    let mut inner = via_b.children();
    let (e, via_c) = inner.next(&dag).unwrap();
    assert_eq!(*dag.edge_data(e), "bc");
    assert_eq!(*via_c.get(&dag), "c");
}

#[test]
fn collected_edges_match_iteration() {
    let mut dag: Dag<&str, &str> = Dag::new();
    let mut a = Node::new(&mut dag, "a");
    let mut b = Node::new(&mut dag, "b");
    let mut c = Node::new(&mut dag, "c");
    a.add_child_sync(&mut dag, &mut b, "ab");
    a.add_child_sync(&mut dag, &mut c, "ac");

    let mut iterated: Vec<usize> = Vec::new();
    let mut it = a.children();
    while let Some((e, _)) = it.next(&dag) {
        iterated.push(e);
    }
    assert_eq!(a.children_edges(&dag), iterated);
    assert_eq!(a.children_edges(&dag).len(), 2);

    let mut b_parents: Vec<usize> = Vec::new();
    let mut pit = b.parents();
    while let Some((e, _)) = pit.next(&dag) {
        b_parents.push(e);
    }
    assert_eq!(b.parents_edges(&dag), b_parents);
    assert_eq!(b.parents_edges(&dag).len(), 1);
}

#[test]
fn node_optimize_keeps_traversals() {
    let mut dag: Dag<&str, &str> = Dag::new();
    let mut a = Node::new(&mut dag, "a");
    let mut b = Node::new(&mut dag, "b");
    let mut c = Node::new(&mut dag, "c");
    a.add_child_sync(&mut dag, &mut b, "ab");
    a.add_child_sync(&mut dag, &mut c, "ac");

    let a_children = children_of(&dag, &a);
    let b_parents = parents_of(&dag, &b);
    a.optimize(&mut dag);
    b.optimize(&mut dag);
    assert_eq!(children_of(&dag, &a), a_children);
    assert_eq!(parents_of(&dag, &b), b_parents);
}
