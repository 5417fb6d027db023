use dag_engine::data_struct::{holds, Graph, Node, Record};

#[test]
fn new_node_has_no_links() {
    let node = Node::new(3, 99);
    assert_eq!(3, node.node_id());
    assert_eq!(99, node.timestamp());
    assert!(node.parents().is_empty());
    assert!(node.children().is_empty());
}

#[test]
fn links_are_listed_once() {
    let mut node = Node::new(3, 99);
    node.add_parent(1);
    node.add_parent(2);
    node.add_parent(1);
    assert_eq!(&vec![1, 2], node.parents());
    assert!(node.children().is_empty());
    node.add_child(7);
    node.add_child(7);
    node.add_child(5);
    assert_eq!(&vec![7, 5], node.children());
    assert_eq!(&vec![1, 2], node.parents());
    assert!(holds(node.children(), 5));
    assert!(!holds(node.children(), 1));
}

#[test]
fn graph_collects_nodes() {
    let mut graph = Graph::new();
    assert!(graph.nodes().is_empty());
    graph.add_node(0, 0);
    graph.add_node(1, 42);
    assert_eq!(2, graph.nodes().len());
    assert_eq!(1, graph.nodes()[1].node_id());
    assert_eq!(42, graph.nodes()[1].timestamp());
    assert!(graph.nodes()[1].parents().is_empty());
}

#[test]
fn matrix_of_unlinked_nodes_is_zero() {
    let mut graph = Graph::new();
    graph.add_node(0, 0);
    graph.add_node(1, 1);
    graph.add_node(2, 2);
    assert_eq!(vec![vec![0, 0, 0], vec![0, 0, 0], vec![0, 0, 0]], graph.get_graph_matrix());
    assert_eq!(2, graph.get_num_of_leaves());
    assert_eq!(0, Graph::new().get_num_of_leaves());
    assert_eq!(Vec::<Vec<u32>>::new(), Graph::new().get_graph_matrix());
}

fn sample() -> Graph {
    // 0 <- 1, 0 <- 2, (1, 2) <- 3, (3, 0) <- 4, node 5 alone
    let mut graph = Graph::new();
    for i in 0..6u32 {
        graph.add_node(i, i as u64 * 10);
    }
    graph.connect(1, 0);
    graph.connect(2, 0);
    graph.connect(3, 1);
    graph.connect(3, 2);
    graph.connect(4, 3);
    graph.connect(4, 0);
    graph
}

#[test]
fn connect_links_both_ways_once() {
    let mut graph = sample();
    graph.connect(4, 0);
    assert_eq!(&vec![1, 2, 4], graph.nodes()[0].children());
    assert!(graph.nodes()[0].parents().is_empty());
    assert_eq!(&vec![3, 0], graph.nodes()[4].parents());
    assert_eq!(&vec![1, 2], graph.nodes()[3].parents());
    assert_eq!(&vec![4], graph.nodes()[3].children());
    assert_eq!(6, graph.nodes().len());
    assert_eq!(30, graph.nodes()[3].timestamp());
}

#[test]
fn matrix_marks_children() {
    let mut graph = sample();
    let expected: Vec<Vec<u32>> = vec![
        vec![0, 1, 1, 0, 1, 0],
        vec![0, 0, 0, 1, 0, 0],
        vec![0, 0, 0, 1, 0, 0],
        vec![0, 0, 0, 0, 1, 0],
        vec![0, 0, 0, 0, 0, 0],
        vec![0, 0, 0, 0, 0, 0],
    ];
    assert_eq!(expected, graph.get_graph_matrix());
    assert_eq!(2, graph.get_num_of_leaves());
}

#[test]
fn depth_is_the_shortest_way_up() {
    let graph = sample();
    assert_eq!(0, Graph::get_depth(graph.nodes(), 0));
    assert_eq!(1, Graph::get_depth(graph.nodes(), 1));
    assert_eq!(1, Graph::get_depth(graph.nodes(), 2));
    assert_eq!(2, Graph::get_depth(graph.nodes(), 3));
    assert_eq!(1, Graph::get_depth(graph.nodes(), 4));
    assert_eq!(0, Graph::get_depth(graph.nodes(), 5));
}

#[test]
fn distance_is_the_shortest_way_down() {
    let mut graph = sample();
    assert_eq!(Ok(0), graph.get_depth_between_nodes(3, 3));
    assert_eq!(Ok(1), graph.get_depth_between_nodes(0, 4));
    assert_eq!(Ok(1), graph.get_depth_between_nodes(0, 1));
    assert_eq!(Ok(2), graph.get_depth_between_nodes(0, 3));
    assert_eq!(Ok(2), graph.get_depth_between_nodes(1, 4));
    assert_eq!(Err(0), graph.get_depth_between_nodes(1, 2));
    assert_eq!(Err(0), graph.get_depth_between_nodes(4, 0));
    assert_eq!(Err(0), graph.get_depth_between_nodes(0, 5));
    assert_eq!(Ok(2), Graph::hops_from(graph.nodes(), 2, 4));
}

#[test]
fn records_build_the_graph() {
    let records = vec![
        Record { first: 1, second: 1, timestamp: 11 },
        Record { first: 1, second: 2, timestamp: 22 },
        Record { first: 3, second: 2, timestamp: 33 },
        Record { first: 1, second: 4, timestamp: 44 },
    ];
    let mut graph = Graph::from_records(&records);
    assert_eq!(5, graph.nodes().len());
    assert_eq!(0, graph.nodes()[0].node_id());
    assert_eq!(0, graph.nodes()[0].timestamp());
    assert!(graph.nodes()[0].parents().is_empty());
    assert_eq!(&vec![1, 2, 4], graph.nodes()[0].children());
    assert_eq!(&vec![0], graph.nodes()[1].parents());
    assert_eq!(&vec![2, 3], graph.nodes()[1].children());
    assert_eq!(&vec![0, 1], graph.nodes()[2].parents());
    assert_eq!(&vec![3], graph.nodes()[2].children());
    assert_eq!(&vec![2, 1], graph.nodes()[3].parents());
    assert_eq!(&vec![4], graph.nodes()[3].children());
    assert_eq!(&vec![0, 3], graph.nodes()[4].parents());
    assert!(graph.nodes()[4].children().is_empty());
    for i in 0..5usize {
        assert_eq!(i as u32, graph.nodes()[i].node_id());
        assert_eq!(i as u64 * 11, graph.nodes()[i].timestamp());
    }
    assert_eq!(1, graph.get_num_of_leaves());
    assert_eq!(2, Graph::get_depth(graph.nodes(), 3));
    assert_eq!(1, Graph::get_depth(graph.nodes(), 4));
    assert_eq!(Ok(2), graph.get_depth_between_nodes(1, 4));
    assert_eq!(Err(0), graph.get_depth_between_nodes(2, 1));
}

#[test]
fn no_records_give_the_first_node_alone() {
    let graph = Graph::from_records(&Vec::new());
    assert_eq!(1, graph.nodes().len());
    assert_eq!(0, graph.get_num_of_leaves());
    assert_eq!(0, Graph::get_depth(graph.nodes(), 0));
}

#[test]
fn records_may_refer_to_later_nodes() {
    let records = vec![
        Record { first: 3, second: 1, timestamp: 11 },
        Record { first: 2, second: 4, timestamp: 22 },
        Record { first: 3, second: 3, timestamp: 33 },
    ];
    let graph = Graph::from_records(&records);
    assert_eq!(4, graph.nodes().len());
    assert_eq!(&vec![2, 0], graph.nodes()[1].parents());
    assert_eq!(&vec![1, 3], graph.nodes()[2].parents());
    assert_eq!(&vec![2], graph.nodes()[3].parents());
    assert!(graph.nodes()[0].parents().is_empty());
    assert_eq!(&vec![1], graph.nodes()[0].children());
    assert_eq!(&vec![2], graph.nodes()[1].children());
    assert_eq!(&vec![1, 3], graph.nodes()[2].children());
    assert_eq!(&vec![2], graph.nodes()[3].children());
    assert_eq!(22, graph.nodes()[2].timestamp());
    assert!(!graph.is_ordered());
}

#[test]
fn ordered_graphs_are_told_apart() {
    let graph = sample();
    assert!(graph.is_ordered());
    assert!(Graph::new().is_ordered());
    let mut back = Graph::new();
    back.add_node(0, 0);
    back.add_node(1, 0);
    assert!(back.is_ordered());
    back.connect(0, 1);
    assert_eq!(&vec![1], back.nodes()[0].parents());
    assert_eq!(&vec![0], back.nodes()[1].children());
    assert!(!back.is_ordered());
    let mut own = Graph::new();
    own.add_node(0, 0);
    own.connect(0, 0);
    assert_eq!(&vec![0], own.nodes()[0].parents());
    assert_eq!(&vec![0], own.nodes()[0].children());
    assert!(!own.is_ordered());
}

#[test]
fn leaf_depths_are_summed() {
    // leaves of the sample, node 0 left out: node 4 (depth 1) and node 5 (depth 0)
    assert_eq!(1, sample().sum_leaf_depth());
    let records = vec![
        Record { first: 1, second: 1, timestamp: 1 },
        Record { first: 2, second: 2, timestamp: 2 },
        Record { first: 3, second: 3, timestamp: 3 },
        Record { first: 2, second: 2, timestamp: 4 },
    ];
    // chain 0 <- 1 <- 2 <- 3 and 1 <- 4: leaves 3 (depth 3) and 4 (depth 2)
    let graph = Graph::from_records(&records);
    assert_eq!(5, graph.sum_leaf_depth());
    assert_eq!(2, graph.get_num_of_leaves());
    assert_eq!(0, Graph::new().sum_leaf_depth());
}
