use versioned_dag::{Dag, Node};

fn child_edges(dag: &Dag<&'static str, &'static str>, n: &Node) -> Vec<&'static str> {
    let mut out = Vec::new();
    let mut it = n.children();
    while let Some((e, _)) = it.next(dag) {
        out.push(*dag.edge_data(e));
    }
    out
}

#[test]
fn clone_main() {
    let mut dag: Dag<&str, &str> = Dag::new();
    let mut node1 = Node::new(&mut dag, "n1");
    let mut node2 = Node::new(&mut dag, "n2 or 3");

    node1.add_child(&mut dag, &mut node2, "e1 2");

    let mut node3 = node2.clone(&mut dag);

    let mut node4 = Node::new(&mut dag, "n4");
    node3.add_child(&mut dag, &mut node4, "e3 4");

    let node2_result: Vec<&str> = child_edges(&dag, &node2);
    assert!(node2_result.len() == 0);

    let node3_result: Vec<&str> = child_edges(&dag, &node3);
    assert!(node3_result.contains(&"e3 4"));
}
