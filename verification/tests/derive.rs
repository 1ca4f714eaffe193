use versioned_dag::{Dag, Node};

fn child_pairs(
    dag: &Dag<&'static str, &'static str>,
    n: &Node,
) -> Vec<(&'static str, &'static str)> {
    let mut out = Vec::new();
    let mut it = n.children();
    while let Some((e, m)) = it.next(dag) {
        out.push((*dag.edge_data(e), *m.get(dag)));
    }
    out
}

fn parent_pairs(
    dag: &Dag<&'static str, &'static str>,
    n: &Node,
) -> Vec<(&'static str, &'static str)> {
    let mut out = Vec::new();
    let mut it = n.parents();
    while let Some((e, m)) = it.next(dag) {
        out.push((*dag.edge_data(e), *m.get(dag)));
    }
    out
}

#[test]
fn derive_main() {
    let mut dag: Dag<&str, &str> = Dag::new();
    let mut node1 = Node::new(&mut dag, "n1");
    let mut node2 = Node::new(&mut dag, "n2");
    let mut node3 = Node::new(&mut dag, "n3");

    node1.add_child_sync(&mut dag, &mut node2, "e1 2");
    node1.add_child_sync(&mut dag, &mut node3, "e1 3");

    node1.optimize(&mut dag);

    let node1_children = child_pairs(&dag, &node1);
    assert!(node1_children.contains(&("e1 2", "n2")));
    assert!(node1_children.contains(&("e1 3", "n3")));
    assert!(node1_children.len() == 2);
    assert!(parent_pairs(&dag, &node1).len() == 0);

    assert!(child_pairs(&dag, &node2).len() == 0);
    let node2_parents = parent_pairs(&dag, &node2);
    assert!(node2_parents.contains(&("e1 2", "n1")));
    assert!(node2_parents.len() == 1);

    assert!(child_pairs(&dag, &node3).len() == 0);
    let node3_parents = parent_pairs(&dag, &node3);
    assert!(node3_parents.contains(&("e1 3", "n1")));
    assert!(node3_parents.len() == 1);
}
