use rand::rngs::StdRng;
use rand::SeedableRng;
use tsqc::graph::Graph;
use tsqc::mcts::{expansion_pool, key_tried, ChildStats, MctsNode, MctsTree};
use tsqc::params::Params;
use tsqc::ratio::Ratio;
use tsqc::solution::Solution;

fn uct(s: ChildStats) -> f64 {
    if s.visits == 0 {
        return f64::INFINITY;
    }
    let average = s.total_reward as f64 / s.reward_scale as f64 / s.visits as f64;
    let c = s.exploration.num as f64 / s.exploration.den as f64;
    average + c * ((s.parent_visits as f64).ln() / s.visits as f64).sqrt()
}

fn better(a: ChildStats, b: ChildStats) -> bool {
    uct(a) > uct(b)
}

fn leaf(parent: usize, vertex: usize, depth: usize) -> MctsNode {
    MctsNode {
        parent: Some(parent),
        children: Vec::new(),
        visits: 0,
        total_reward: 0,
        vertex_removed: Some(vertex),
        depth,
    }
}

#[test]
fn test_select_initial() {
    let graph = Graph::with_vertices(3);
    let params = Params::default();
    let initial_solution = Solution::new(&graph);
    let tree = MctsTree::new(&initial_solution, &graph, &params);
    let (idx, path) = tree.select(&better);
    assert_eq!(idx, 0);
    assert!(path.is_empty());
}

#[test]
fn test_expand_no_visit() {
    let graph = Graph::with_vertices(2);
    let params = Params::default();
    let initial_solution = Solution::new(&graph);
    let mut tree = MctsTree::new(&initial_solution, &graph, &params);
    let next = tree.expand(0, &[], &mut StdRng::seed_from_u64(0));
    assert_eq!(next, 0);
}

#[test]
fn test_rollout_returns_size() {
    let mut graph = Graph::with_vertices(2);
    graph.add_edge(0, 1);
    let params = Params::default();
    let initial_solution = Solution::new(&graph);
    let tree = MctsTree::new(&initial_solution, &graph, &params);
    let size = tree.rollout(0, &mut StdRng::seed_from_u64(0));
    assert_eq!(size, initial_solution.size() as u128);
}

#[test]
fn test_backpropagate() {
    let graph = Graph::with_vertices(1);
    let params = Params::default();
    let initial_solution = Solution::new(&graph);
    let mut tree = MctsTree::new(&initial_solution, &graph, &params);
    tree.nodes.push(leaf(0, 0, 1));
    let idx = tree.nodes.len() - 1;
    tree.nodes[0].children.push((0, idx));
    tree.backpropagate(idx, 2);
    assert_eq!(tree.nodes[idx].visits, 1);
    assert_eq!(tree.nodes[idx].total_reward, 2);
    assert_eq!(tree.nodes[0].visits, 1);
    assert_eq!(tree.nodes[0].total_reward, 2);
}

#[test]
fn backpropagate_leaves_other_branches_alone() {
    let graph = Graph::with_vertices(4);
    let params = Params::default();
    let mut initial_solution = Solution::new(&graph);
    for v in 0..4 {
        initial_solution.add(v);
    }
    let mut tree = MctsTree::new(&initial_solution, &graph, &params);
    assert_eq!(tree.scale(), 6);
    tree.nodes.push(leaf(0, 2, 1));
    tree.nodes.push(leaf(0, 3, 1));
    tree.nodes.push(leaf(1, 0, 2));
    tree.nodes[0].children.push((2, 1));
    tree.nodes[0].children.push((3, 2));
    tree.nodes[1].children.push((0, 3));
    tree.backpropagate(3, 5);
    tree.backpropagate(1, 4);
    assert_eq!(
        tree.nodes.iter().map(|n| (n.visits, n.total_reward)).collect::<Vec<_>>(),
        vec![(2, 9), (2, 9), (0, 0), (1, 5)]
    );
    assert_eq!(tree.path_of(3), vec![2, 0]);
    assert_eq!(tree.path_of(2), vec![3]);
    assert!(tree.path_of(0).is_empty());
    let stats = tree.stats_of(3, 2);
    assert_eq!((stats.visits, stats.total_reward, stats.reward_scale, stats.parent_visits), (1, 5, 6, 2));
    // averages 9/2 and 0: the exploiting walk goes by node 1 to node 3
    assert_eq!(tree.extract_best_sequence(), vec![2, 0]);
    // the child without visits scores highest in the selection
    let (idx, path) = tree.select(&better);
    assert_eq!(idx, 2);
    assert_eq!(path, vec![3]);
}

#[test]
fn selection_follows_the_comparison() {
    let graph = Graph::with_vertices(3);
    let params = Params::default();
    let mut initial_solution = Solution::new(&graph);
    for v in 0..3 {
        initial_solution.add(v);
    }
    let mut tree = MctsTree::new(&initial_solution, &graph, &params);
    tree.nodes.push(leaf(0, 0, 1));
    tree.nodes.push(leaf(0, 1, 1));
    tree.nodes.push(leaf(0, 2, 1));
    for (i, v) in [(1, 0), (2, 1), (3, 2)] {
        tree.nodes[0].children.push((v, i));
    }
    tree.nodes[0].visits = 12;
    tree.nodes[1].visits = 2;
    tree.nodes[2].visits = 5;
    tree.nodes[3].visits = 5;
    // a child stays ahead only where the comparison says so
    let strictly_more = |a: ChildStats, b: ChildStats| a.visits > b.visits;
    assert_eq!(tree.select(&strictly_more), (3, vec![2]));
    let at_least = |a: ChildStats, b: ChildStats| a.visits >= b.visits;
    assert_eq!(tree.select(&at_least), (2, vec![1]));
    let fewer = |a: ChildStats, b: ChildStats| a.visits < b.visits;
    assert_eq!(tree.select(&fewer), (1, vec![0]));
    let sees_parent = |a: ChildStats, _b: ChildStats| a.parent_visits == 12 && a.reward_scale == 3;
    assert_eq!(tree.select(&sees_parent), (1, vec![0]));
    // children without visits go first whatever the comparison says, the
    // last of them at the head
    tree.nodes[1].visits = 0;
    tree.nodes[2].visits = 0;
    assert_eq!(tree.select(&strictly_more), (2, vec![1]));
    assert_eq!(tree.select(&fewer), (2, vec![1]));
    let never_asked = |_a: ChildStats, _b: ChildStats| -> bool { panic!("no comparison is due") };
    assert_eq!(tree.select(&never_asked), (2, vec![1]));
}

#[test]
fn exploiting_walk_takes_the_last_of_equal_children() {
    let graph = Graph::with_vertices(3);
    let params = Params::default();
    let initial_solution = Solution::new(&graph);
    let mut tree = MctsTree::new(&initial_solution, &graph, &params);
    tree.nodes.push(leaf(0, 0, 1));
    tree.nodes.push(leaf(0, 1, 1));
    tree.nodes.push(leaf(0, 2, 1));
    for (i, v) in [(1, 0), (2, 1), (3, 2)] {
        tree.nodes[0].children.push((v, i));
    }
    tree.nodes[0].visits = 6;
    tree.nodes[1].visits = 2;
    tree.nodes[1].total_reward = 2;
    tree.nodes[2].visits = 3;
    tree.nodes[2].total_reward = 3;
    tree.nodes[3].visits = 1;
    tree.nodes[3].total_reward = 0;
    assert_eq!(tree.extract_best_sequence(), vec![1]);
}

#[test]
fn expansion_takes_critical_members_first() {
    // triangle 0-1-2 with the pendant 3 on 0
    let graph = Graph::from_edge_list(4, &[(0, 1), (1, 2), (2, 0), (0, 3)]);
    let mut sol = Solution::new(&graph);
    for v in 0..4 {
        sol.add(v);
    }
    assert_eq!(expansion_pool(&sol, &vec![], 1), vec![3]);
    assert_eq!(expansion_pool(&sol, &vec![], 2), vec![1, 2, 3]);
    assert_eq!(expansion_pool(&sol, &vec![(3, 1)], 1), vec![0, 1, 2]);
    assert_eq!(expansion_pool(&sol, &vec![(3, 1), (1, 2)], 2), vec![2]);
    assert!(expansion_pool(&sol, &vec![(0, 1), (1, 2), (2, 3), (3, 4)], 2).is_empty());
    assert!(key_tried(&vec![(3, 1), (1, 2)], 1));
    assert!(!key_tried(&vec![(3, 1), (1, 2)], 2));
    let params = Params { gamma_target: Ratio::new(1, 2), ..Params::default() };
    let mut tree = MctsTree::new(&sol, &graph, &params);
    tree.nodes[0].visits = 1;
    // floor(0.5 * 3) = 1: only the pendant is critical
    let node = tree.expand(0, &[], &mut StdRng::seed_from_u64(4));
    assert_eq!(node, 1);
    assert_eq!(tree.nodes.len(), 2);
    assert_eq!(tree.nodes[0].children, vec![(3, 1)]);
    assert_eq!(tree.nodes[1].parent, Some(0));
    assert_eq!(tree.nodes[1].vertex_removed, Some(3));
    assert_eq!(tree.nodes[1].depth, 1);
    assert_eq!(tree.nodes[1].visits, 0);
    // at the depth limit nothing is added
    let shallow = Params { mcts_max_depth: 0, ..Params::default() };
    let mut flat = MctsTree::new(&sol, &graph, &shallow);
    flat.nodes[0].visits = 1;
    assert_eq!(flat.expand(0, &[], &mut StdRng::seed_from_u64(4)), 0);
    assert_eq!(flat.nodes.len(), 1);
}

#[test]
fn expansion_ends_where_no_member_is_left() {
    // triangle 0-1-2 with the pendant 3 on 0
    let graph = Graph::from_edge_list(4, &[(0, 1), (1, 2), (2, 0), (0, 3)]);
    let mut sol = Solution::new(&graph);
    for v in 0..4 {
        sol.add(v);
    }
    let params = Params::default();
    let mut tree = MctsTree::new(&sol, &graph, &params);
    tree.nodes[0].visits = 1;
    for (i, v) in [(1, 0), (2, 1), (3, 2)] {
        tree.nodes.push(leaf(0, v, 1));
        tree.nodes[0].children.push((v, i));
    }
    let mut rng = StdRng::seed_from_u64(9);
    // one member is left that no child removes: it is the one to go
    assert_eq!(tree.expand(0, &[], &mut rng), 4);
    assert_eq!(tree.nodes[0].children, vec![(0, 1), (1, 2), (2, 3), (3, 4)]);
    assert_eq!(tree.nodes[4].vertex_removed, Some(3));
    // now every member is removed by some child
    assert_eq!(tree.expand(0, &[], &mut rng), 0);
    assert_eq!(tree.nodes.len(), 5);
    // below the first child the removals leave the members 1, 2 and 3
    tree.nodes[1].visits = 1;
    let below = tree.expand(1, &[0], &mut rng);
    assert_eq!(below, 5);
    assert_eq!(tree.nodes[5].parent, Some(1));
    assert_ne!(tree.nodes[5].vertex_removed, Some(0));
    // a path that removes every member leaves nothing to remove
    tree.nodes[5].visits = 1;
    assert_eq!(tree.expand(5, &[0, 1, 2, 3], &mut rng), 5);
    assert_eq!(tree.nodes.len(), 6);
}

#[test]
fn rollout_rewards_density_and_feasibility() {
    let graph = Graph::from_edge_list(4, &[(0, 1), (1, 2), (2, 0), (0, 3)]);
    let mut sol = Solution::new(&graph);
    for v in 0..3 {
        sol.add(v);
    }
    let params = Params { lns_repair_depth: 0, ..Params::default() };
    let tree = MctsTree::new(&sol, &graph, &params);
    // the triangle: 3 edges of 3 pairs, and feasible
    assert_eq!(tree.scale(), 3);
    assert_eq!(tree.rollout(0, &mut StdRng::seed_from_u64(1)), 6);
    let mut path = Solution::new(&graph);
    path.add(1);
    path.add(0);
    path.add(3);
    let strict = Params { gamma_target: Ratio::new(1, 1), ..Params::default() };
    let other = MctsTree::new(&path, &graph, &strict);
    // the refinement swaps 3 for 2 and reaches the triangle
    assert_eq!(other.rollout(0, &mut StdRng::seed_from_u64(1)), 6);
    let unrefined = Params { gamma_target: Ratio::new(1, 1), lns_repair_depth: 0, ..Params::default() };
    let plain = MctsTree::new(&path, &graph, &unrefined);
    assert_eq!(plain.rollout(0, &mut StdRng::seed_from_u64(1)), 2);
}

#[test]
fn simulations_count_at_the_root() {
    let graph = Graph::from_edge_list(
        6,
        &[(0, 1), (1, 2), (2, 0), (3, 4), (4, 5), (5, 3), (2, 3)],
    );
    let mut sol = Solution::new(&graph);
    for v in [0, 1, 3] {
        sol.add(v);
    }
    let mut params = Params::default();
    params.enable_mcts(25, Ratio::new(1414, 1000), 2, 3);
    let mut tree = MctsTree::new(&sol, &graph, &params);
    let mut rng = StdRng::seed_from_u64(3);
    let seq = tree.run(&mut rng, &better);
    assert_eq!(tree.nodes[0].visits, 25);
    assert!(tree.nodes.len() <= 26);
    assert!(seq.len() <= 2);
    assert_eq!(seq, tree.extract_best_sequence());
    for (i, node) in tree.nodes.iter().enumerate().skip(1) {
        let parent = node.parent.unwrap();
        assert!(parent < i);
        assert_eq!(node.depth, tree.nodes[parent].depth + 1);
        assert!(node.depth <= 2);
        assert!(node.visits <= tree.nodes[parent].visits);
        assert!(tree.nodes[parent].children.contains(&(node.vertex_removed.unwrap(), i)));
        assert!(sol.contains(node.vertex_removed.unwrap()));
    }
    let total: u32 = tree.nodes[0].children.iter().map(|&(_, c)| tree.nodes[c].visits).sum();
    assert_eq!(total + 1, 25);
    tree.run_simulations(5, &mut rng, &better);
    assert_eq!(tree.nodes[0].visits, 30);
}
