use dijkstra::{shortest_path, Cost, Dup, Edge, Graph};

#[derive(Default, Clone, Debug)]
struct EdgeImpl {
    from: u8,
    to: u8,
    weight: u32,
}

impl Dup for EdgeImpl {
    fn dup(&self) -> EdgeImpl {
        self.clone()
    }
}

impl Edge for EdgeImpl {
    type Cost = u32;
    type Context = ();

    fn cost(&self, context: &Self::Context) -> Self::Cost {
        let _ = context;
        self.weight.clone()
    }
}

struct GraphImpl {
    nodes: Vec<u8>,
    edges: Vec<EdgeImpl>,
}

impl Graph for GraphImpl {
    type Node = u8;
    type Edge = EdgeImpl;
    type Context = ();

    fn neighbors(&self, node: Self::Node) -> Vec<(Self::Node, Self::Edge)> {
        self.edges
            .iter()
            .filter_map(|e| match (e.from == node.clone(), e.to == node.clone()) {
                (true, _) => Some((e.to.clone(), e.clone())),
                (_, true) => Some((e.from.clone(), e.clone())),
                _ => None,
            })
            .collect()
    }
}

impl GraphImpl {
    pub fn new(count: u8) -> Self {
        GraphImpl {
            nodes: (0..count).collect(),
            edges: Vec::new(),
        }
    }

    pub fn insert(&mut self, from: u8, to: u8, weight: u32) {
        let from = from as usize;
        let to = to as usize;
        if from < self.nodes.len() && to < self.nodes.len() {
            self.edges.push(EdgeImpl {
                from: self.nodes[from],
                to: self.nodes[to],
                weight,
            })
        }
    }
}

fn example_graph() -> GraphImpl {
    let mut graph = GraphImpl::new(10);
    graph.insert(0, 1, 10);
    graph.insert(1, 9, 50);
    graph.insert(1, 2, 10);
    graph.insert(2, 3, 40);
    graph.insert(3, 9, 10);
    graph
}

#[test]
fn test_0() {
    let mut graph = GraphImpl::new(10);
    graph.insert(0, 1, 10);
    graph.insert(1, 9, 50);
    graph.insert(1, 2, 10);
    graph.insert(2, 3, 40);
    graph.insert(3, 9, 10);

    let path = shortest_path(&graph, &(), graph.nodes[0].clone());
    let sequence = path
        .sequence(graph.nodes[0].clone(), graph.nodes[9].clone())
        .into_iter()
        .map(|(n, _)| n)
        .collect::<Vec<_>>();

    assert_eq!(vec![1, 0], sequence);
}

#[test]
fn test_1() {
    let mut graph = GraphImpl::new(10);
    graph.insert(0, 1, 10);
    graph.insert(1, 9, 50);
    graph.insert(1, 2, 10);
    graph.insert(2, 3, 10);
    graph.insert(3, 9, 10);

    let path = shortest_path(&graph, &(), graph.nodes[0].clone());
    let sequence = path
        .sequence(graph.nodes[0].clone(), graph.nodes[9].clone())
        .into_iter()
        .map(|(n, _)| n)
        .collect::<Vec<_>>();

    assert_eq!(vec![3, 2, 1, 0], sequence);
}

#[test]
fn path_cost_is_sum_of_edge_costs() {
    let graph = example_graph();
    let path = shortest_path(&graph, &(), 0);
    let sequence = path.sequence(0, 9);
    let total: u32 = sequence.iter().map(|(_, e)| e.cost(&())).sum();
    assert_eq!(60, total);
}

#[test]
fn sequence_from_goal_to_itself_is_empty() {
    let graph = example_graph();
    let path = shortest_path(&graph, &(), 0);
    let sequence = path.sequence(3, 3);
    assert!(sequence.is_empty());
}

#[test]
fn rerun_yields_same_paths() {
    let graph = example_graph();
    let first = shortest_path(&graph, &(), 0).sequence(0, 9);
    let second = shortest_path(&graph, &(), 0).sequence(0, 9);
    let first_nodes: Vec<u8> = first.iter().map(|(n, _)| *n).collect();
    let second_nodes: Vec<u8> = second.iter().map(|(n, _)| *n).collect();
    let first_cost: u32 = first.iter().map(|(_, e)| e.cost(&())).sum();
    let second_cost: u32 = second.iter().map(|(_, e)| e.cost(&())).sum();
    assert_eq!(first_nodes, second_nodes);
    assert_eq!(first_cost, second_cost);
}

#[test]
fn unreachable_goal_never_reaches_start() {
    // node 5 has no incident edges at all
    let graph = example_graph();
    let path = shortest_path(&graph, &(), 0);
    assert!(!path.reaches(&0, &5));
    let sequence = path.sequence(0, 5);
    assert!(sequence.is_empty());
}

#[test]
fn reached_goal_reports_a_path() {
    let graph = example_graph();
    let path = shortest_path(&graph, &(), 0);
    assert!(path.reaches(&0, &9));
    assert!(path.reaches(&0, &0));
}

#[test]
fn start_without_neighbors_yields_empty_result() {
    let graph = GraphImpl::new(1);
    let path = shortest_path(&graph, &(), 0);
    assert!(path.prev(&0).is_none());
    let sequence = path.sequence(0, 0);
    assert!(sequence.is_empty());
}

#[test]
fn prev_reports_the_recorded_hop() {
    let graph = example_graph();
    let path = shortest_path(&graph, &(), 0);
    let (p, e) = path.prev(&9).expect("9 is reachable");
    assert_eq!(1, p);
    assert_eq!(50, e.cost(&()));
    assert!(path.prev(&5).is_none());
}

#[test]
fn later_equal_cost_relaxation_overwrites_predecessor() {
    // two equal-cost routes to node 3; the relaxation on a tie overwrites,
    // so the predecessor relaxed last (from node 1, finalized after 2) wins
    let mut graph = GraphImpl::new(4);
    graph.insert(0, 1, 1);
    graph.insert(0, 2, 1);
    graph.insert(1, 3, 1);
    graph.insert(2, 3, 1);
    let path = shortest_path(&graph, &(), 0);
    let (p, _) = path.prev(&3).expect("3 is reachable");
    assert_eq!(1, p);
}

#[test]
fn saturating_cost_addition() {
    let a: u32 = u32::MAX - 1;
    let b: u32 = 5;
    assert_eq!(u32::MAX, a.plus(&b));
    let zero = <u32 as Cost>::zero();
    assert_eq!(7, zero.plus(&7));
    assert!(Cost::le(&zero, &7));
}
