use versioned_dag::{Dag, Node};

#[test]
fn merge_main() {
    let mut dag: Dag<&str, &str> = Dag::new();
    let mut node1 = Node::new(&mut dag, "n1");
    let mut node2 = Node::new(&mut dag, "n2");
    let mut node3 = Node::new(&mut dag, "n3");

    node1.add_child_sync(&mut dag, &mut node3, "e1 3");
    node2.add_child_sync(&mut dag, &mut node3, "e2 3");

    let mut node4 = Node::new(&mut dag, "n4");
    node4.add_child_sync(&mut dag, &mut node1, "e1 4");
    node4.add_child_sync(&mut dag, &mut node2, "e2 4");

    // walking down from node4 through either edge, then down again from
    // that child, reaches n3 on both paths
    let mut result: Vec<&str> = Vec::new();
    let mut it = node4.children();
    while let Some((_, mid)) = it.next(&dag) {
        let mut inner = mid.children();
        let (_, grandchild) = inner.next(&dag).unwrap();
        result.push(*grandchild.get(&dag));
    }
    assert_eq!(result, vec!["n3", "n3"]);
}
