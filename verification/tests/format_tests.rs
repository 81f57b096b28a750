use rand::rngs::StdRng;
use rand::SeedableRng;
use tsqc::dimacs::{
    after_spaces, after_word, find_line_end, parse_number, read_record, space, DimacsError, Record,
};
use tsqc::graph::Graph;
use tsqc::mcts::{find_child, ChildStats, MctsNode, MctsTree};
use tsqc::params::Params;
use tsqc::solution::Solution;

fn better(a: ChildStats, b: ChildStats) -> bool {
    let score = |s: ChildStats| {
        if s.visits == 0 {
            f64::INFINITY
        } else {
            s.total_reward as f64 / s.reward_scale as f64 / s.visits as f64
                + ((s.parent_visits as f64).ln() / s.visits as f64).sqrt()
        }
    };
    score(a) > score(b)
}

fn error_of(text: &str) -> DimacsError {
    match Graph::parse_dimacs(text.as_bytes()) {
        Ok(_) => panic!("the text was accepted"),
        Err(e) => e,
    }
}

fn graph_of(text: &str) -> Graph {
    match Graph::parse_dimacs(text.as_bytes()) {
        Ok(g) => g,
        Err(e) => panic!("the text was refused: {:?}", e),
    }
}

#[test]
fn reads_a_small_instance() {
    let g = graph_of("c a triangle with a tail\np edge 4 4\ne 1 2\ne 2 3\ne 3 1\ne 3 4\n");
    assert_eq!(g.n(), 4);
    assert_eq!(g.m(), 4);
    assert!(g.neigh_row(0).get(1));
    assert!(g.neigh_row(2).get(3));
    assert!(!g.neigh_row(0).get(3));
    assert_eq!(g.degree(2), 3);
}

#[test]
fn accepts_other_tags_and_loose_spacing() {
    let g = graph_of("\n  \t\r\np col 3 2\r\n  e   1\t2  \r\ne 2 3 trailing words\nx 1 3\ne 3\np 3\nedge 1 3");
    assert_eq!(g.n(), 3);
    assert_eq!(g.m(), 2);
    assert!(g.neigh_row(0).get(1));
    assert!(g.neigh_row(1).get(2));
    assert!(!g.neigh_row(0).get(2));
}

#[test]
fn repeated_edges_count_once() {
    let g = graph_of("p edge 3 3\ne 1 2\ne 2 1\ne +1 2\ne 01 002\n");
    assert_eq!(g.m(), 1);
    assert_eq!(g.degree(0), 1);
}

#[test]
fn a_text_without_problem_line_gives_no_vertices() {
    assert_eq!(graph_of("").n(), 0);
    assert_eq!(graph_of("c nothing here\n\nplain words\n").n(), 0);
}

#[test]
fn a_later_problem_line_replaces_the_first() {
    let g = graph_of("p edge 5 0\ne 4 5\ne 1 2\np edge 3 0\ne 2 3\n");
    assert_eq!(g.n(), 3);
    assert_eq!(g.m(), 2);
    assert!(g.neigh_row(0).get(1));
    assert!(g.neigh_row(1).get(2));
}

#[test]
fn refuses_an_edge_before_the_problem_line() {
    assert_eq!(error_of("e 1 2\np edge 3 1\n"), DimacsError::EdgeBeforeProblem);
    assert_eq!(error_of("c first\ne x y\n"), DimacsError::EdgeBeforeProblem);
}

#[test]
fn refuses_tokens_that_are_no_numbers() {
    assert_eq!(error_of("p edge three 1\n"), DimacsError::NotANumber);
    assert_eq!(error_of("p edge 3 many\n"), DimacsError::NotANumber);
    assert_eq!(error_of("p edge 3 1\ne 1 x\n"), DimacsError::NotANumber);
    assert_eq!(error_of("p edge 3 1\ne -1 2\n"), DimacsError::NotANumber);
    assert_eq!(error_of("p edge 3 1\ne 1.5 2\n"), DimacsError::NotANumber);
    assert_eq!(error_of("p edge 3 1\ne + 2\n"), DimacsError::NotANumber);
    assert_eq!(
        error_of("p edge 3 1\ne 1 99999999999999999999999999999999\n"),
        DimacsError::NotANumber
    );
}

#[test]
fn refuses_endpoints_out_of_range() {
    assert_eq!(error_of("p edge 3 1\ne 0 2\n"), DimacsError::EndpointOutOfRange);
    assert_eq!(error_of("p edge 3 1\ne 1 4\n"), DimacsError::EndpointOutOfRange);
    assert_eq!(error_of("p edge 0 0\ne 1 1\n"), DimacsError::EndpointOutOfRange);
}

#[test]
fn refuses_self_loops_and_oversized_graphs() {
    assert_eq!(error_of("p edge 3 1\ne 2 2\n"), DimacsError::SelfLoop);
    let huge = format!("p edge {} 0\n", usize::MAX);
    assert_eq!(error_of(&huge), DimacsError::TooManyVertices);
}

#[test]
fn tokens_and_numbers() {
    let text = b"  ab\t12 \n+7";
    assert!(space(b' ') && space(b'\t') && space(b'\r') && space(b'\n'));
    assert!(!space(b'e') && !space(b'0'));
    assert_eq!(find_line_end(text, 0), 8);
    assert_eq!(find_line_end(text, 9), 11);
    assert_eq!(after_spaces(text, 0, 8), 2);
    assert_eq!(after_word(text, 2, 8), 4);
    assert_eq!(after_spaces(text, 4, 8), 5);
    assert_eq!(after_word(text, 5, 8), 7);
    assert_eq!(after_spaces(text, 7, 8), 8);
    assert_eq!(parse_number(text, 5, 7), Some(12));
    assert_eq!(parse_number(text, 9, 11), Some(7));
    assert_eq!(parse_number(text, 2, 4), None);
    assert_eq!(parse_number(text, 5, 5), None);
    assert_eq!(parse_number(text, 9, 10), None);
    let max = usize::MAX.to_string();
    assert_eq!(parse_number(max.as_bytes(), 0, max.len()), Some(usize::MAX));
    let over = format!("{}0", max);
    assert_eq!(parse_number(over.as_bytes(), 0, over.len()), None);
    assert!(matches!(read_record(b"e 3 4", 0, 5), Record::Edge(Some((3, 4)))));
    assert!(matches!(read_record(b"e 3 x", 0, 5), Record::Edge(None)));
    assert!(matches!(read_record(b"p edge 5 9", 0, 10), Record::Problem(Some(5))));
    assert!(matches!(read_record(b"p edge 5 q", 0, 10), Record::Problem(None)));
    assert!(matches!(read_record(b"p edge 5", 0, 8), Record::Skip));
    assert!(matches!(read_record(b"cp edge 5 9", 0, 11), Record::Skip));
    assert!(matches!(read_record(b"pp edge 5 9", 0, 11), Record::Skip));
    assert!(matches!(read_record(b"   ", 0, 3), Record::Skip));
}

fn leaf(parent: usize, vertex: usize, depth: usize, visits: u32, reward: u128) -> MctsNode {
    MctsNode {
        parent: Some(parent),
        children: Vec::new(),
        visits,
        total_reward: reward,
        vertex_removed: Some(vertex),
        depth,
    }
}

#[test]
fn merge_adds_matching_nodes_and_attaches_the_rest() {
    let graph = Graph::from_edge_list(4, &[(0, 1), (1, 2), (2, 3)]);
    let mut sol = Solution::new(&graph);
    for v in 0..4 {
        sol.add(v);
    }
    let params = Params::default();
    // this tree: root -> (removes 0) -> (removes 1)
    let mut main = MctsTree::new(&sol, &graph, &params);
    main.nodes[0].visits = 3;
    main.nodes[0].total_reward = 6;
    main.nodes.push(leaf(0, 0, 1, 2, 4));
    main.nodes[0].children.push((0, 1));
    main.nodes.push(leaf(1, 1, 2, 1, 2));
    main.nodes[1].children.push((1, 2));
    // the other tree: root -> (removes 3) -> (removes 2), root -> (removes 0) -> (removes 2)
    let mut other = MctsTree::new(&sol, &graph, &params);
    other.nodes[0].visits = 5;
    other.nodes[0].total_reward = 9;
    other.nodes.push(leaf(0, 3, 1, 2, 3));
    other.nodes[0].children.push((3, 1));
    other.nodes.push(leaf(0, 0, 1, 2, 5));
    other.nodes[0].children.push((0, 2));
    other.nodes.push(leaf(1, 2, 2, 1, 1));
    other.nodes[1].children.push((2, 3));
    other.nodes.push(leaf(2, 2, 2, 1, 3));
    other.nodes[2].children.push((2, 4));
    main.merge_from(&other);
    let seen: Vec<(Option<usize>, Option<usize>, usize, u32, u128)> = main
        .nodes
        .iter()
        .map(|n| (n.parent, n.vertex_removed, n.depth, n.visits, n.total_reward))
        .collect();
    assert_eq!(
        seen,
        vec![
            (None, None, 0, 8, 15),
            (Some(0), Some(0), 1, 4, 9),
            (Some(1), Some(1), 2, 1, 2),
            (Some(0), Some(3), 1, 2, 3),
            (Some(3), Some(2), 2, 1, 1),
            (Some(1), Some(2), 2, 1, 3),
        ]
    );
    assert_eq!(main.nodes[0].children, vec![(0, 1), (3, 3)]);
    assert_eq!(main.nodes[1].children, vec![(1, 2), (2, 5)]);
    assert_eq!(main.nodes[3].children, vec![(2, 4)]);
    assert_eq!(find_child(&main.nodes[0].children, 3), Some(3));
    assert_eq!(find_child(&main.nodes[0].children, 2), None);
    // averages under the root: 9/4 and 3/2; below the first child: 2 and 3
    assert_eq!(main.extract_best_sequence(), vec![0, 2]);
}

#[test]
fn merged_worker_trees_count_all_simulations() {
    let graph = Graph::from_edge_list(5, &[(0, 1), (1, 2), (2, 0), (2, 3), (3, 4)]);
    let mut sol = Solution::new(&graph);
    for v in [0, 1, 3] {
        sol.add(v);
    }
    let mut params = Params::default();
    params.mcts_budget = 10;
    let mut main = MctsTree::new(&sol, &graph, &params);
    for seed in 0..3 {
        let mut worker = MctsTree::new(&sol, &graph, &params);
        worker.run_simulations(10, &mut StdRng::seed_from_u64(seed), &better);
        main.merge_from(&worker);
    }
    assert_eq!(main.nodes[0].visits, 30);
    for (i, node) in main.nodes.iter().enumerate().skip(1) {
        let parent = node.parent.unwrap();
        assert!(parent < i);
        assert_eq!(node.depth, main.nodes[parent].depth + 1);
        assert!(main.nodes[parent].children.contains(&(node.vertex_removed.unwrap(), i)));
        assert!(node.visits <= main.nodes[0].visits);
    }
    for node in main.nodes.iter() {
        let mut keys: Vec<usize> = node.children.iter().map(|&(v, _)| v).collect();
        keys.sort();
        keys.dedup();
        assert_eq!(keys.len(), node.children.len());
    }
}
