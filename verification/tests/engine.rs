use castle_search::entry::HeapEntry;
use castle_search::model::{SearchError, Searchable, State};
use castle_search::search::Engine;

#[derive(Debug, Clone, Copy, PartialEq, Eq)]
struct Node(u64);

impl State for Node {
    fn key(&self) -> u64 {
        self.0
    }
}

/// A graph given by adjacency lists, with a score per node, that keeps
/// count of what the engine asks of it.
struct Graph {
    start: u64,
    arcs: Vec<Vec<u64>>,
    scores: Vec<Option<i64>>,
    goals: Vec<u64>,
    scored: Vec<u64>,
    reported: Vec<(u64, i64)>,
    expanded: Vec<u64>,
}

impl Graph {
    fn new(start: u64, arcs: Vec<Vec<u64>>, scores: Vec<Option<i64>>, goals: Vec<u64>) -> Graph {
        Graph { start, arcs, scores, goals, scored: Vec::new(), reported: Vec::new(), expanded: Vec::new() }
    }
}

impl Searchable for Graph {
    type Solution = Node;

    fn neighbors(&self, solution: &Node) -> Vec<Node> {
        self.arcs[solution.0 as usize].iter().map(|k| Node(*k)).collect()
    }

    fn fitness_estimate(&mut self, solution: &Node) -> Option<i64> {
        self.scored.push(solution.0);
        self.scores[solution.0 as usize]
    }

    fn is_goal(&self, solution: &Node, _fitness: i64) -> bool {
        self.goals.contains(&solution.0)
    }

    fn start(&self) -> Node {
        Node(self.start)
    }

    fn output(&mut self, solution: &Node, fitness: i64) {
        self.reported.push((solution.0, fitness));
        self.expanded.push(solution.0);
    }
}

const A: u64 = 0;
const B: u64 = 1;
const C: u64 = 2;

fn three_states(goals: Vec<u64>) -> Graph {
    Graph::new(A, vec![vec![B, C], vec![], vec![]], vec![Some(1), Some(5), Some(3)], goals)
}

#[test]
fn three_states_without_goal_are_reported_best_first() {
    let mut graph = three_states(vec![]);
    let mut engine: Engine<Node> = Engine::new();
    let result = engine.pathfind(&mut graph);
    assert_eq!(result, Err(SearchError::Exhausted));
    assert_eq!(graph.reported, vec![(A, 1), (B, 5), (C, 3)]);
    assert_eq!(graph.scored.len(), 3);
    assert_eq!(graph.scored, vec![A, B, C]);
}

#[test]
fn three_states_with_goal_stop_at_the_goal() {
    let mut graph = three_states(vec![B]);
    let mut engine: Engine<Node> = Engine::new();
    let result = engine.pathfind(&mut graph);
    assert_eq!(result, Ok(Node(B)));
    assert_eq!(graph.reported, vec![(A, 1), (B, 5)]);
    assert!(!graph.reported.iter().any(|r| r.0 == C));
    // Both neighbours of A were scored when A was expanded, before B
    // was taken; C then waited and was never expanded.
    assert_eq!(graph.scored, vec![A, B, C]);
    let best = engine.peek_best().expect("three states were scored");
    assert_eq!((best.item, best.value), (Node(B), 5));
}

#[test]
fn goal_at_the_start_returns_at_once() {
    let mut graph = three_states(vec![A]);
    let mut engine: Engine<Node> = Engine::new();
    let result = engine.pathfind(&mut graph);
    assert_eq!(result, Ok(Node(A)));
    assert_eq!(graph.reported, vec![(A, 1)]);
    assert_eq!(graph.scored, vec![A]);
}

#[test]
fn no_state_is_scored_twice() {
    // A diamond with a cycle back to the start and a repeated arc.
    let arcs = vec![vec![1, 2, 1], vec![3, 0], vec![3, 3], vec![0, 1, 2]];
    let scores = vec![Some(0), Some(10), Some(20), Some(5)];
    let mut graph = Graph::new(0, arcs, scores, vec![]);
    let mut engine: Engine<Node> = Engine::new();
    let result = engine.pathfind(&mut graph);
    assert_eq!(result, Err(SearchError::Exhausted));
    let mut scored = graph.scored.clone();
    scored.sort();
    assert_eq!(scored, vec![0, 1, 2, 3]);
    let mut reported: Vec<u64> = graph.reported.iter().map(|r| r.0).collect();
    reported.sort();
    assert_eq!(reported, vec![0, 1, 2, 3]);
}

#[test]
fn exhaustion_scores_exactly_the_reachable_states() {
    // States 4 and 5 cannot be reached from 0.
    let arcs = vec![vec![1], vec![2], vec![0, 3], vec![], vec![0, 5], vec![4]];
    let scores = vec![Some(3), Some(2), Some(1), Some(0), Some(9), Some(9)];
    let mut graph = Graph::new(0, arcs, scores, vec![]);
    let mut engine: Engine<Node> = Engine::new();
    let result = engine.pathfind(&mut graph);
    assert_eq!(result, Err(SearchError::Exhausted));
    assert_eq!(graph.scored, vec![0, 1, 2, 3]);
    assert_eq!(graph.reported.len(), 4);
}

#[test]
fn reports_do_not_rise_while_neighbours_score_lower() {
    // Every arc leads to a state of lower fitness.
    let arcs = vec![vec![1, 2, 3], vec![4], vec![4, 5], vec![], vec![], vec![]];
    let scores = vec![Some(50), Some(40), Some(45), Some(10), Some(30), Some(44)];
    let mut graph = Graph::new(0, arcs, scores, vec![]);
    let mut engine: Engine<Node> = Engine::new();
    let result = engine.pathfind(&mut graph);
    assert_eq!(result, Err(SearchError::Exhausted));
    assert_eq!(graph.reported, vec![(0, 50), (2, 45), (5, 44), (1, 40), (4, 30), (3, 10)]);
    for pair in graph.reported.windows(2) {
        assert!(pair[0].1 >= pair[1].1);
    }
}

#[test]
fn a_pop_takes_the_greatest_fitness_waiting() {
    // A later state may outrank an earlier report, and is then taken
    // before everything that waited.
    let arcs = vec![vec![1, 2], vec![3], vec![], vec![]];
    let scores = vec![Some(1), Some(5), Some(3), Some(9)];
    let mut graph = Graph::new(0, arcs, scores, vec![]);
    let mut engine: Engine<Node> = Engine::new();
    let result = engine.pathfind(&mut graph);
    assert_eq!(result, Err(SearchError::Exhausted));
    assert_eq!(graph.reported, vec![(0, 1), (1, 5), (3, 9), (2, 3)]);
}

#[test]
fn a_score_that_is_not_finite_ends_the_search() {
    let arcs = vec![vec![1, 2], vec![], vec![]];
    let scores = vec![Some(1), None, Some(3)];
    let mut graph = Graph::new(0, arcs, scores, vec![]);
    let mut engine: Engine<Node> = Engine::new();
    let result = engine.pathfind(&mut graph);
    assert_eq!(result, Err(SearchError::ScoreNotFinite));
    assert_eq!(graph.scored, vec![0, 1]);
    assert_eq!(graph.reported, vec![(0, 1)]);
    let best = engine.peek_best().expect("the start was scored");
    assert_eq!((best.item, best.value), (Node(0), 1));
}

#[test]
fn a_start_without_a_score_ends_the_search() {
    let mut graph = Graph::new(0, vec![vec![]], vec![None], vec![]);
    let mut engine: Engine<Node> = Engine::new();
    let result = engine.pathfind(&mut graph);
    assert_eq!(result, Err(SearchError::ScoreNotFinite));
    assert!(graph.reported.is_empty());
    assert!(engine.peek_best().is_none());
}

#[test]
fn the_engine_remembers_the_best_state_scored() {
    let mut graph = three_states(vec![]);
    let mut engine: Engine<Node> = Engine::new();
    assert!(engine.peek_best().is_none());
    let _ = engine.pathfind(&mut graph);
    let best = engine.peek_best().expect("three states were scored");
    assert_eq!((best.item, best.value), (Node(B), 5));
}

#[test]
fn the_best_state_outlives_a_search() {
    let mut engine: Engine<Node> = Engine::new();
    let mut first = three_states(vec![]);
    let _ = engine.pathfind(&mut first);
    let mut second = Graph::new(0, vec![vec![1], vec![]], vec![Some(2), Some(4)], vec![]);
    let result = engine.pathfind(&mut second);
    assert_eq!(result, Err(SearchError::Exhausted));
    assert_eq!(second.scored, vec![0, 1]);
    let best = engine.peek_best().expect("states were scored");
    assert_eq!((best.item, best.value), (Node(B), 5));
}

#[test]
fn entry_for_pairs_state_and_score() {
    let mut engine: Engine<Node> = Engine::new();
    let entry = engine.entry_for(Node(7), Some(-3)).expect("the score is finite");
    assert_eq!((entry.item, entry.value), (Node(7), -3));
    let best = engine.peek_best().expect("one state was scored");
    assert_eq!((best.item, best.value), (Node(7), -3));
    assert!(engine.entry_for(Node(8), None).is_none());
    let best = engine.peek_best().expect("one state was scored");
    assert_eq!((best.item, best.value), (Node(7), -3));
    let lower: HeapEntry<Node> = engine.entry_for(Node(9), Some(-4)).expect("the score is finite");
    assert_eq!((lower.item, lower.value), (Node(9), -4));
    let best = engine.peek_best().expect("one state was scored");
    assert_eq!((best.item, best.value), (Node(7), -3));
}

#[test]
fn heap_entry_asks_the_model_for_the_score() {
    let mut graph = three_states(vec![]);
    let mut engine: Engine<Node> = Engine::new();
    let entry = engine.heap_entry(&mut graph, Node(C)).expect("the score is finite");
    assert_eq!((entry.item, entry.value), (Node(C), 3));
    assert_eq!(graph.scored, vec![C]);
}

#[test]
fn neighbours_are_scored_in_the_order_given_and_reported_best_first() {
    // A gives its neighbours as C, then B: they are scored in that
    // order, and B, the better one, is still reported first.
    let arcs = vec![vec![C, B], vec![], vec![]];
    let mut graph = Graph::new(A, arcs, vec![Some(1), Some(5), Some(3)], vec![]);
    let mut engine: Engine<Node> = Engine::new();
    let result = engine.pathfind(&mut graph);
    assert_eq!(result, Err(SearchError::Exhausted));
    assert_eq!(graph.scored, vec![A, C, B]);
    assert_eq!(graph.reported, vec![(A, 1), (B, 5), (C, 3)]);
}
