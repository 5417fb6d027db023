use dag_engine::dag::{EdgeError, DAG};
use dag_engine::interface::DAGInterface;
use dag_engine::longest::{highest, longest_path_over, transform_all};
use dag_engine::order::{has_incoming, kahn_order, split_remaining_v, CycleError};
use dag_engine::walks::{Edge, Vertex};
use dag_engine::weight::Weight;

fn same(w: u64) -> u64 {
    w
}

#[test]
fn test_new() {
    let dag: DAG<u8> = DAG::new();
    assert!(dag.vertices().is_empty());
    assert!(dag.edges().is_empty());
}

#[test]
fn test_add_vertex() {
    let mut dag: DAG<u8> = DAG::new();
    let id = dag.add_vertex(8);

    assert_eq!(1, dag.vertices().len());
    assert_eq!(Some(Vertex { id: id, weight: 8 }), dag.vertices().last().cloned());
}

#[test]
fn test_add_edge() {
    let mut dag: DAG<u8> = DAG::new();
    let a = dag.add_vertex(5);
    let b = dag.add_vertex(8);

    let _ = dag.add_edge(a, b, 10);
    assert_eq!(1, dag.edges().len());

    let tmp = Edge { from: a, to: b, weight: 10 };
    assert_eq!(tmp, dag.edges().last().cloned().unwrap());
}

#[test]
fn test_cyclicity_1() {
    let mut dag: DAG<u8> = DAG::new();
    let a = dag.add_vertex(1);
    let b = dag.add_vertex(1);
    let c = dag.add_vertex(1);

    let _ = dag.add_edge(a, b, 2);
    let _ = dag.add_edge(b, c, 3);
    if let Ok(_) = dag.add_edge(c, a, 5) {
        panic!("Returned ok when breaking cyclicity");
    }
}

#[test]
fn test_cyclicity_2() {
    let mut dag: DAG<u8> = DAG::new();
    let a = dag.add_vertex(1);
    let b = dag.add_vertex(1);
    let c = dag.add_vertex(1);
    let d = dag.add_vertex(1);
    let e = dag.add_vertex(1);
    let f = dag.add_vertex(1);
    let g = dag.add_vertex(1);
    let h = dag.add_vertex(1);

    let _ = dag.add_edge(a, b, 1);
    let _ = dag.add_edge(b, d, 1);
    let _ = dag.add_edge(b, e, 1);
    let _ = dag.add_edge(c, b, 1);
    let _ = dag.add_edge(d, g, 1);
    let _ = dag.add_edge(e, f, 1);
    let _ = dag.add_edge(e, h, 1);
    let _ = dag.add_edge(g, f, 1);
    let _ = dag.add_edge(g, h, 1);

    if let Ok(_) = dag.add_edge(h, c, 1) {
        panic!("Returned ok when breaking acyclicity");
    }
}

#[test]
fn test_edge_to_self() {
    let mut dag: DAG<u8> = DAG::new();
    let a = dag.add_vertex(5);

    if let Ok(_) = dag.add_edge(a, a, 19) {
        panic!("Should return error on edge to itself");
    }
}

#[test]
fn test_edge_to_nothing() {
    let mut dag: DAG<u8> = DAG::new();
    let a = dag.add_vertex(1);

    if let Ok(_) = dag.add_edge(a + 1, a, 1) {
        panic!("Should not add edge from nothing");
    }

    if let Ok(_) = dag.add_edge(a, a + 1, 1) {
        panic!("Should not add edge to nothing");
    }
}

#[test]
fn test_topological() {
    let mut dag: DAG<u8> = DAG::new();
    let a = dag.add_vertex(5);
    let b = dag.add_vertex(8);

    let _ = dag.add_edge(a, b, 10);
    assert_eq!(Ok(vec![a, b]), dag.topological_order());

    let c = dag.add_vertex(10);

    let _ = dag.add_edge(c, a, 5);
    let _ = dag.add_edge(c, b, 7);
    assert_eq!(Ok(vec![c, a, b]), dag.topological_order());
}

#[test]
fn test_longest_path() {
    let mut dag: DAG<u8> = DAG::new();
    let func = &|i| i;
    let a = dag.add_vertex(5);
    let b = dag.add_vertex(8);

    let _ = dag.add_edge(a, b, 10);
    assert_eq!(23, dag.weight_of_longest_path(a, b, func, func).unwrap());

    let c = dag.add_vertex(2);
    let _ = dag.add_edge(a, c, 5);
    let _ = dag.add_edge(c, b, 5);

    assert_eq!(25, dag.weight_of_longest_path(a, b, func, func).unwrap());

    assert_eq!(None, dag.weight_of_longest_path(c, a, func, func));
}

#[test]
fn vertex_ids_count_up_from_zero() {
    let mut dag: DAG<u64> = DAG::new();
    for expected in 0..20u64 {
        assert_eq!(expected, dag.add_vertex(expected * 3));
    }
    assert_eq!(20, dag.vertices().len());
    for i in 0..20usize {
        assert_eq!(&Vertex { id: i as u64, weight: i as u64 * 3 }, &dag.vertices()[i]);
    }
}

#[test]
fn self_loop_comes_first() {
    let mut dag: DAG<u64> = DAG::new();
    let a = dag.add_vertex(1);
    assert_eq!(Err(EdgeError::SelfLoop), dag.add_edge(a, a, 4));
    assert_eq!(Err(EdgeError::SelfLoop), dag.add_edge(77, 77, 4));
    assert!(dag.edges().is_empty());
}

#[test]
fn unknown_vertex_is_refused() {
    let mut dag: DAG<u64> = DAG::new();
    let a = dag.add_vertex(1);
    assert_eq!(Err(EdgeError::UnknownVertex), dag.add_edge(a, 1, 4));
    assert_eq!(Err(EdgeError::UnknownVertex), dag.add_edge(1, a, 4));
    assert_eq!(Err(EdgeError::UnknownVertex), dag.add_edge(5, 9, 4));
    assert!(dag.edges().is_empty());
    let b = dag.add_vertex(1);
    assert_eq!(Ok(()), dag.add_edge(a, b, 4));
}

#[test]
fn closing_a_cycle_changes_nothing() {
    let mut dag: DAG<u64> = DAG::new();
    let a = dag.add_vertex(1);
    let b = dag.add_vertex(2);
    let c = dag.add_vertex(3);
    assert_eq!(Ok(()), dag.add_edge(a, b, 2));
    assert_eq!(Ok(()), dag.add_edge(b, c, 3));
    let before: Vec<Edge<u64>> = dag.edges().clone();
    assert_eq!(Err(EdgeError::CycleDetected), dag.add_edge(c, a, 5));
    assert_eq!(Err(EdgeError::CycleDetected), dag.add_edge(b, a, 5));
    assert_eq!(&before, dag.edges());
    assert_eq!(2, dag.edges().len());
    assert_eq!(Ok(()), dag.add_edge(a, c, 5));
    assert_eq!(3, dag.edges().len());
}

#[test]
fn parallel_edges_are_kept() {
    let mut dag: DAG<u64> = DAG::new();
    let a = dag.add_vertex(1);
    let b = dag.add_vertex(2);
    assert_eq!(Ok(()), dag.add_edge(a, b, 2));
    assert_eq!(Ok(()), dag.add_edge(a, b, 9));
    assert_eq!(2, dag.edges().len());
    assert_eq!(Some(1 + 9 + 2), dag.weight_of_longest_path(a, b, &same, &same));
}

#[test]
fn search_finds_what_can_be_reached() {
    let edges: Vec<Edge<u64>> = vec![
        Edge { from: 0, to: 1, weight: 0 },
        Edge { from: 1, to: 2, weight: 0 },
        Edge { from: 3, to: 2, weight: 0 },
    ];
    assert!(DAG::check_cyclicity(2, 0, &edges, 4));
    assert!(!DAG::check_cyclicity(0, 0, &edges, 4));
    assert!(!DAG::check_cyclicity(2, 2, &edges, 4));
    assert!(DAG::check_cyclicity(1, 0, &edges, 4));
    assert!(!DAG::check_cyclicity(0, 7, &edges, 4));
    assert!(!DAG::check_cyclicity(3, 0, &edges, 4));
    assert!(!DAG::check_cyclicity(0, 2, &edges, 4));
    assert!(!DAG::check_cyclicity(9, 0, &edges, 4));
    assert_eq!(vec![true, true, true, false], DAG::reach_marks(0, &edges, 4));
    assert_eq!(vec![false, false, true, true], DAG::reach_marks(3, &edges, 4));
}

#[test]
fn search_ends_on_a_cyclic_edge_list() {
    let edges: Vec<Edge<u64>> = vec![
        Edge { from: 0, to: 1, weight: 0 },
        Edge { from: 1, to: 0, weight: 0 },
    ];
    assert!(DAG::check_cyclicity(0, 1, &edges, 3));
    assert!(!DAG::check_cyclicity(2, 1, &edges, 3));
    assert!(DAG::check_cyclicity(0, 0, &edges, 3));
    assert!(DAG::check_cyclicity(1, 1, &edges, 3));
    assert!(!DAG::check_cyclicity(2, 2, &edges, 3));
}

#[test]
fn chain_has_one_order() {
    let mut dag: DAG<u64> = DAG::new();
    let a = dag.add_vertex(1);
    let b = dag.add_vertex(1);
    let c = dag.add_vertex(1);
    let _ = dag.add_edge(a, b, 1);
    let _ = dag.add_edge(b, c, 1);
    assert_eq!(Ok(vec![a, b, c]), dag.topological_order());
}

#[test]
fn order_puts_origins_first() {
    let mut dag: DAG<u64> = DAG::new();
    for _ in 0..8 {
        dag.add_vertex(1);
    }
    let pairs = [(0u64, 1u64), (1, 3), (1, 4), (2, 1), (3, 6), (4, 5), (4, 7), (6, 5), (6, 7)];
    for (u, v) in pairs {
        assert_eq!(Ok(()), dag.add_edge(u, v, 1));
    }
    let order = dag.topological_order().unwrap();
    assert_eq!(8, order.len());
    for v in 0..8u64 {
        assert_eq!(1, order.iter().filter(|x| **x == v).count());
    }
    for (u, v) in pairs {
        let pu = order.iter().position(|x| *x == u).unwrap();
        let pv = order.iter().position(|x| *x == v).unwrap();
        assert!(pu < pv);
    }
}

#[test]
fn ready_vertices_leave_last_in_first_out() {
    let mut dag: DAG<u64> = DAG::new();
    for _ in 0..3 {
        dag.add_vertex(1);
    }
    assert_eq!(Ok(vec![2, 1, 0]), dag.topological_order());
}

#[test]
fn empty_graph_has_empty_order() {
    let dag: DAG<u64> = DAG::new();
    assert_eq!(Ok(Vec::new()), dag.topological_order());
}

#[test]
fn cyclic_edge_list_is_detected() {
    let edges: Vec<Edge<u64>> = vec![
        Edge { from: 0, to: 1, weight: 1 },
        Edge { from: 1, to: 2, weight: 1 },
        Edge { from: 2, to: 1, weight: 1 },
    ];
    assert_eq!(Err(CycleError::CycleDetected), kahn_order(3, &edges));
    let looped: Vec<Edge<u64>> = vec![Edge { from: 0, to: 0, weight: 1 }];
    assert_eq!(Err(CycleError::CycleDetected), kahn_order(1, &looped));
    let fine: Vec<Edge<u64>> = vec![Edge { from: 1, to: 0, weight: 1 }];
    assert_eq!(Ok(vec![1, 0]), kahn_order(2, &fine));
}

#[test]
fn split_moves_vertices_without_incoming_edges() {
    let edges: Vec<Edge<u64>> = vec![
        Edge { from: 0, to: 1, weight: 1 },
        Edge { from: 2, to: 1, weight: 1 },
    ];
    let emitted = vec![false, false, false];
    let mut queued = vec![false, false, false];
    let mut ready: Vec<u64> = Vec::new();
    assert!(has_incoming(1, &edges, &emitted));
    assert!(!has_incoming(0, &edges, &emitted));
    split_remaining_v(&edges, &emitted, &mut queued, &mut ready);
    assert_eq!(vec![true, false, true], queued);
    assert_eq!(vec![0, 2], ready);
    let emitted = vec![true, false, true];
    assert!(!has_incoming(1, &edges, &emitted));
    ready.clear();
    split_remaining_v(&edges, &emitted, &mut queued, &mut ready);
    assert_eq!(vec![true, true, true], queued);
    assert_eq!(vec![1], ready);
}

#[test]
fn path_to_itself_is_the_plain_weight() {
    let mut dag: DAG<u64> = DAG::new();
    let a = dag.add_vertex(5);
    let b = dag.add_vertex(8);
    let _ = dag.add_edge(a, b, 10);
    let double = |w: u64| w * 2;
    let plus_one = |w: u64| w + 1;
    assert_eq!(Some(5), dag.weight_of_longest_path(a, a, &double, &plus_one));
    assert_eq!(Some(8), dag.weight_of_longest_path(b, b, &double, &plus_one));
    assert_eq!(Some(8), dag.weight_of_longest_path(b, b, &same, &same));
    assert_eq!(5, dag.weight_of_vertex(a));
    assert_eq!(8, dag.weight_of_vertex(b));
}

#[test]
fn unreachable_gives_none() {
    let mut dag: DAG<u64> = DAG::new();
    let a = dag.add_vertex(5);
    let b = dag.add_vertex(8);
    let c = dag.add_vertex(1);
    let _ = dag.add_edge(a, b, 10);
    assert_eq!(None, dag.weight_of_longest_path(b, a, &same, &same));
    assert_eq!(None, dag.weight_of_longest_path(a, c, &same, &same));
    assert_eq!(None, dag.weight_of_longest_path(c, b, &same, &same));
    assert_eq!(None, dag.weight_of_longest_path(a, 17, &same, &same));
}

#[test]
fn transforms_apply_to_left_vertices_and_edges() {
    let mut dag: DAG<u64> = DAG::new();
    let a = dag.add_vertex(5);
    let b = dag.add_vertex(8);
    let c = dag.add_vertex(2);
    let _ = dag.add_edge(a, b, 10);
    let _ = dag.add_edge(a, c, 5);
    let _ = dag.add_edge(c, b, 5);
    let double = |w: u64| w * 2;
    let plus_one = |w: u64| w + 1;
    // a -> b: 2*5 + (10+1) + 8 = 29; a -> c -> b: 2*5 + (5+1) + 2*2 + (5+1) + 8 = 34
    assert_eq!(Some(34), dag.weight_of_longest_path(a, b, &double, &plus_one));
    assert_eq!(Some(2 * 2 + 6 + 8), dag.weight_of_longest_path(c, b, &double, &plus_one));
    let zero = |_w: u64| 0u64;
    assert_eq!(Some(8), dag.weight_of_longest_path(a, b, &zero, &zero));
}

#[test]
fn longest_path_over_given_weights() {
    let vertices: Vec<Vertex<u64>> = vec![
        Vertex { id: 0, weight: 5 },
        Vertex { id: 1, weight: 8 },
        Vertex { id: 2, weight: 2 },
    ];
    let edges: Vec<Edge<u64>> = vec![
        Edge { from: 0, to: 1, weight: 10 },
        Edge { from: 0, to: 2, weight: 5 },
        Edge { from: 2, to: 1, weight: 5 },
    ];
    let tv = vec![100, 200, 300];
    let te = vec![1, 2, 3];
    assert_eq!(Some(100 + 2 + 300 + 3 + 8), longest_path_over(&vertices, &edges, &tv, &te, 0, 1));
    assert_eq!(Some(300 + 3 + 8), longest_path_over(&vertices, &edges, &tv, &te, 2, 1));
    assert_eq!(Some(100 + 2 + 2), longest_path_over(&vertices, &edges, &tv, &te, 0, 2));
    assert_eq!(Some(8), longest_path_over(&vertices, &edges, &tv, &te, 1, 1));
    assert_eq!(None, longest_path_over(&vertices, &edges, &tv, &te, 1, 0));
}

#[test]
fn transform_all_calls_each_once() {
    let ws: Vec<u64> = vec![1, 2, 3];
    assert_eq!(vec![3, 6, 9], transform_all(&|w: u64| w * 3, &ws));
    assert_eq!(Vec::<u64>::new(), transform_all(&same, &Vec::new()));
}

#[test]
fn highest_picks_the_greatest() {
    assert_eq!(None, highest::<u64>(Vec::new()));
    assert_eq!(None, highest::<u64>(vec![None, None]));
    assert_eq!(Some(7u64), highest(vec![Some(3), None, Some(7), Some(5)]));
    assert_eq!(Some(0u8), highest(vec![None, Some(0)]));
    assert_eq!(Some(4u32), highest(vec![Some(4), Some(4)]));
}

#[test]
fn weights_add_and_compare() {
    assert_eq!(255u8, 200u8.plus(&55));
    assert_eq!(7u16, 3u16.plus(&4));
    assert_eq!(u32::MAX, (u32::MAX - 1).plus(&1));
    assert_eq!(u64::MAX, 1u64.plus(&(u64::MAX - 1)));
    assert!(9u8.exceeds(&8));
    assert!(!8u8.exceeds(&8));
    assert!(!7u64.exceeds(&8));
    assert!(2u16.exceeds(&1));
    assert!(!1u32.exceeds(&2));
    assert_eq!(5u8, 5u8.duplicate());
    assert_eq!(6u16, 6u16.duplicate());
    assert_eq!(7u32, 7u32.duplicate());
    assert_eq!(8u64, 8u64.duplicate());
}

#[test]
fn small_weights_up_to_their_limit() {
    let mut dag: DAG<u8> = DAG::new();
    let a = dag.add_vertex(100);
    let b = dag.add_vertex(55);
    let _ = dag.add_edge(a, b, 100);
    let func = &|i| i;
    assert_eq!(Some(255), dag.weight_of_longest_path(a, b, func, func));
}

#[test]
fn unknown_start_gives_none() {
    let mut dag: DAG<u8> = DAG::new();
    let a = dag.add_vertex(5);
    let id = &|i| i;
    assert_eq!(None, dag.weight_of_longest_path(3, a, id, id));
    assert_eq!(None, dag.weight_of_longest_path(3, 3, id, id));
    assert_eq!(None, dag.weight_of_longest_path(1, 0, id, id));
    assert_eq!(Some(5), dag.weight_of_longest_path(a, a, id, id));
    let vertices: Vec<Vertex<u64>> = vec![Vertex { id: 0, weight: 5 }];
    let edges: Vec<Edge<u64>> = Vec::new();
    let tv: Vec<u64> = vec![5];
    let te: Vec<u64> = Vec::new();
    assert_eq!(None, longest_path_over(&vertices, &edges, &tv, &te, 1, 0));
    assert_eq!(None, longest_path_over(&vertices, &edges, &tv, &te, 4, 4));
    assert_eq!(Some(5), longest_path_over(&vertices, &edges, &tv, &te, 0, 0));
}

#[test]
fn signed_weights_may_be_negative() {
    let mut dag: DAG<i32> = DAG::new();
    let a = dag.add_vertex(-5);
    let b = dag.add_vertex(8);
    let c = dag.add_vertex(-2);
    let _ = dag.add_edge(a, b, -10);
    let _ = dag.add_edge(a, c, 3);
    let _ = dag.add_edge(c, b, -4);
    let id = &|i| i;
    // a -> b: -5 - 10 + 8 = -7; a -> c -> b: -5 + 3 - 2 - 4 + 8 = 0
    assert_eq!(Some(0), dag.weight_of_longest_path(a, b, id, id));
    assert_eq!(Some(-2 - 4 + 8), dag.weight_of_longest_path(c, b, id, id));
    assert_eq!(Some(-5), dag.weight_of_longest_path(a, a, id, id));
    assert_eq!(None, dag.weight_of_longest_path(b, a, id, id));
    assert_eq!(-3i64, 4i64.plus(&-7));
    assert_eq!(i32::MIN, (i32::MIN + 1).plus(&-1));
    assert!((-1i32).exceeds(&-2));
    assert!(!(-2i64).exceeds(&-2));
    assert_eq!(-9i32, (-9i32).duplicate());
    assert_eq!(-9i64, (-9i64).duplicate());
    assert_eq!(Some(-1i32), highest(vec![Some(-3), None, Some(-1)]));
}
