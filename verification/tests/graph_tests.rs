use algos::data_structures::queue::Queue;
use algos::data_structures::stack::Stack;
use algos::data_structures::weighted_adj_list::WeightedAdjacencyList;
use algos::data_structures::weighted_adj_matrix::WeightedAdjacencyMatrix;
use algos::dijkstras::dijkstras_shortest_path;
use algos::kadanes::kadanes;
use algos::min_heap::MinHeap;

fn seven_vertex_graph() -> WeightedAdjacencyList {
    //      (1) --- (4) ---- (5)
    //    /  |       |       /|
    // (0)   | ------|------- |
    //    \  |/      |        |
    //      (2) --- (3) ---- (6)
    let mut graph = WeightedAdjacencyList::new();
    graph.add_vertex(0);
    graph.add_vertex(1);
    graph.add_vertex(2);
    graph.add_vertex(3);
    graph.add_vertex(4);
    graph.add_vertex(5);
    graph.add_edge(0, 1, 3);
    graph.add_edge(0, 2, 1);
    graph.add_edge(1, 0, 3);
    graph.add_edge(1, 2, 4);
    graph.add_edge(1, 4, 1);
    graph.add_edge(2, 1, 4);
    graph.add_edge(2, 3, 7);
    graph.add_edge(2, 0, 1);
    graph.add_edge(3, 2, 7);
    graph.add_edge(3, 4, 5);
    graph.add_edge(3, 6, 1);
    graph.add_edge(4, 1, 1);
    graph.add_edge(4, 3, 5);
    graph.add_edge(4, 5, 2);
    graph.add_edge(5, 6, 1);
    graph.add_edge(5, 4, 2);
    graph.add_edge(5, 2, 18);
    graph.add_edge(6, 3, 1);
    graph.add_edge(6, 5, 1);
    graph
}

fn path_cost(graph: &WeightedAdjacencyList, path: &[usize]) -> u64 {
    let mut total = 0;
    for k in 1..path.len() {
        total += graph.get_weight(path[k - 1], path[k]).unwrap();
    }
    total
}

#[test]
fn dijkstras_shortest_path_primeagen_class_test() {
    let source = 0;
    let sink = 5;

    let graph = seven_vertex_graph();
    let path = dijkstras_shortest_path(source, sink, graph.clone());
    assert_eq!(path.unwrap(), vec![0, 1, 4, 5]);
}

#[test]
fn shortest_path_cost_is_minimal_concrete() {
    // the returned route 0 -> 1 -> 4 -> 5 costs 3 + 1 + 2 = 6, cheaper
    // than e.g. 0,2,1,4,5 which costs 1 + 4 + 1 + 2 = 8
    let graph = seven_vertex_graph();
    let path = dijkstras_shortest_path(0, 5, graph.clone()).unwrap();
    assert_eq!(path_cost(&graph, &path), 6);
    assert_eq!(path_cost(&graph, &[0, 2, 1, 4, 5]), 8);
}

#[test]
fn shortest_path_cost_is_deterministic() {
    let graph = seven_vertex_graph();
    let first = dijkstras_shortest_path(0, 6, graph.clone()).unwrap();
    let second = dijkstras_shortest_path(0, 6, graph.clone()).unwrap();
    assert_eq!(path_cost(&graph, &first), path_cost(&graph, &second));
}

#[test]
fn shortest_path_trivial_source_is_sink() {
    let graph = seven_vertex_graph();
    let path = dijkstras_shortest_path(3, 3, graph).unwrap();
    assert_eq!(path, vec![3]);
    let single = {
        let mut g = WeightedAdjacencyList::new();
        g.add_vertex(9);
        g
    };
    assert_eq!(dijkstras_shortest_path(9, 9, single), Some(vec![9]));
}

#[test]
fn shortest_path_unreachable_component() {
    let mut graph = WeightedAdjacencyList::new();
    graph.add_edge(0, 1, 2);
    graph.add_edge(1, 0, 2);
    graph.add_edge(2, 3, 2);
    graph.add_edge(3, 2, 2);
    assert_eq!(dijkstras_shortest_path(0, 3, graph), None);
}

#[test]
fn shortest_path_missing_sink_is_absent() {
    let mut graph = WeightedAdjacencyList::new();
    graph.add_vertex(0);
    assert_eq!(dijkstras_shortest_path(0, 5, graph.clone()), None);
    assert_eq!(dijkstras_shortest_path(0, 1, graph), None);
}

#[test]
fn shortest_path_respects_edge_direction() {
    let mut graph = WeightedAdjacencyList::new();
    graph.add_edge(0, 1, 4);
    assert_eq!(dijkstras_shortest_path(0, 1, graph.clone()), Some(vec![0, 1]));
    assert_eq!(dijkstras_shortest_path(1, 0, graph), None);
}

#[test]
fn adjacency_list_queries() {
    let mut graph = WeightedAdjacencyList::new();
    assert_eq!(graph.len(), 0);
    graph.add_vertex(4);
    graph.add_vertex(4);
    assert_eq!(graph.len(), 1);
    graph.add_edge(4, 7, 11);
    assert_eq!(graph.len(), 2);
    assert_eq!(graph.get_weight(4, 7), Some(11));
    graph.add_edge(4, 7, 13);
    assert_eq!(graph.get_weight(4, 7), Some(13));
    assert_eq!(graph.get_weight(7, 4), None);
    assert_eq!(graph.get_weight(9, 4), None);
    assert!(graph.get_neighbors(9).is_none());
    let neighbors = graph.get_neighbors(4).unwrap();
    assert_eq!(neighbors.len(), 1);
    assert_eq!(neighbors[0], (7, 13));
}

#[test]
fn min_heap_pops_priorities_in_order() {
    let mut heap: MinHeap<&str> = MinHeap::new();
    heap.push((5, "five"));
    heap.push((3, "three"));
    heap.push((8, "eight"));
    heap.push((3, "three again"));
    heap.push((1, "one"));
    assert_eq!(heap.len(), 5);
    assert!(!heap.is_empty());
    let mut last = 0;
    let mut popped = 0;
    while let Some((priority, _)) = heap.pop() {
        assert!(priority >= last);
        last = priority;
        popped += 1;
    }
    assert_eq!(popped, 5);
    assert!(heap.is_empty());
    assert_eq!(heap.pop(), None);
}

#[test]
fn min_heap_interleaved_push_pop_stays_ordered() {
    let mut heap: MinHeap<u64> = MinHeap::new();
    heap.push((9, 9));
    heap.push((2, 2));
    assert_eq!(heap.pop(), Some((2, 2)));
    heap.push((7, 7));
    heap.push((1, 1));
    heap.push((4, 4));
    assert_eq!(heap.pop(), Some((1, 1)));
    assert_eq!(heap.pop(), Some((4, 4)));
    assert_eq!(heap.pop(), Some((7, 7)));
    assert_eq!(heap.pop(), Some((9, 9)));
    assert_eq!(heap.pop(), None);
}

#[test]
fn kadanes_finds_maximum_subarray() {
    let a = [-3, -2, -3, 4, -1, -2, 1, 5, -3];
    let (max_sum, max_subarray) = kadanes(&a);
    assert_eq!(max_sum, 7);
    assert_eq!(max_subarray, vec![4, -1, -2, 1, 5]);
}

#[test]
fn kadanes_all_negative_picks_largest_element() {
    let a = [-8, -3, -6];
    let (max_sum, max_subarray) = kadanes(&a);
    assert_eq!(max_sum, -3);
    assert_eq!(max_subarray, vec![-3]);
}

#[test]
fn queue_is_first_in_first_out() {
    let mut q: Queue<i32> = Queue::new();
    assert!(q.is_empty());
    assert_eq!(q.dequeue(), None);
    q.enqueue(1);
    q.enqueue(2);
    q.enqueue(3);
    assert_eq!(q.length(), 3);
    assert_eq!(q.peek(), Some(&1));
    assert_eq!(q.dequeue(), Some(1));
    assert_eq!(q.dequeue(), Some(2));
    assert_eq!(q.dequeue(), Some(3));
    assert!(q.is_empty());
}

#[test]
fn stack_is_last_in_first_out() {
    let mut s: Stack<i32> = Stack::new();
    assert!(s.is_empty());
    assert_eq!(s.pop(), None);
    s.push(1);
    s.push(2);
    s.push(3);
    assert_eq!(s.length(), 3);
    assert_eq!(s.peek(), Some(&3));
    assert_eq!(s.pop(), Some(3));
    assert_eq!(s.pop(), Some(2));
    assert_eq!(s.pop(), Some(1));
    assert!(s.is_empty());
}

#[test]
fn matrix_get_and_set() {
    let mut m = WeightedAdjacencyMatrix::new(vec![vec![1, 2, 3], vec![4, 5, 6], vec![7, 8, 9]]);
    assert_eq!(m.get_value(1, 1), Some(5));
    assert_eq!(m.get_value(3, 0), None);
    assert_eq!(m.get_value(0, 3), None);
    assert_eq!(m.set_value(1, 1, 10), Ok(()));
    assert_eq!(m.get_value(1, 1), Some(10));
    assert_eq!(m.set_value(5, 0, 1), Err("Coordinates out of bounds"));
    assert_eq!(m.set_value(0, 5, 1), Err("Coordinates out of bounds"));
}

#[test]
fn matrix_transpose_rows_and_columns() {
    let m = WeightedAdjacencyMatrix::new(vec![vec![1, 2, 3], vec![4, 5, 6]]);
    let t = m.transpose();
    assert_eq!(t.get_row(0).cloned(), Some(vec![1, 4]));
    assert_eq!(t.get_row(1).cloned(), Some(vec![2, 5]));
    assert_eq!(t.get_row(2).cloned(), Some(vec![3, 6]));
    assert_eq!(t.get_row(3), None);
    assert_eq!(m.get_column(1), Some(vec![2, 5]));
    assert_eq!(m.get_column(3), None);
}

#[test]
fn matrix_arithmetic() {
    let mut m = WeightedAdjacencyMatrix::new(vec![vec![1, 2], vec![3, 4]]);
    m.multiply_scalar(3);
    assert_eq!(m.get_row(0).cloned(), Some(vec![3, 6]));
    assert_eq!(m.get_row(1).cloned(), Some(vec![9, 12]));
    let other = WeightedAdjacencyMatrix::new(vec![vec![1, 1], vec![1, 1]]);
    assert_eq!(m.add_matrix(&other), Some(()));
    assert_eq!(m.get_row(0).cloned(), Some(vec![4, 7]));
    assert_eq!(m.subtract_matrix(&other), Some(()));
    assert_eq!(m.get_row(0).cloned(), Some(vec![3, 6]));
    let wrong_shape = WeightedAdjacencyMatrix::new(vec![vec![1, 1, 1]]);
    assert_eq!(m.add_matrix(&wrong_shape), None);
    assert_eq!(m.subtract_matrix(&wrong_shape), None);
}
