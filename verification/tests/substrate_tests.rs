use rand::rngs::StdRng;
use rand::SeedableRng;
use tsqc::freq::{add_counted, count_change, remove_counted};
use tsqc::graph::Graph;
use tsqc::params::Params;
use tsqc::ratio::Ratio;
use tsqc::solution::Solution;
use tsqc::tabu::{edge_deficit, DualTabu};

fn petersen() -> Graph {
    Graph::from_edge_list(
        10,
        &[
            (0, 1),
            (1, 2),
            (2, 3),
            (3, 4),
            (4, 0),
            (0, 5),
            (1, 6),
            (2, 7),
            (3, 8),
            (4, 9),
            (5, 7),
            (7, 9),
            (9, 6),
            (6, 8),
            (8, 5),
        ],
    )
}

fn brute_size(sol: &Solution) -> usize {
    let n = sol.graph().n();
    (0..n).filter(|&v| sol.contains(v)).count()
}

fn brute_edges(sol: &Solution) -> usize {
    let g = sol.graph();
    let n = g.n();
    let mut e = 0;
    for u in 0..n {
        for v in (u + 1)..n {
            if sol.contains(u) && sol.contains(v) && g.neigh_row(u).get(v) {
                e += 1;
            }
        }
    }
    e
}

#[test]
fn graph_with_vertices_is_empty() {
    let g = Graph::with_vertices(5);
    assert_eq!(g.n(), 5);
    assert_eq!(g.m(), 0);
    for v in 0..5 {
        assert_eq!(g.degree(v), 0);
        assert_eq!(g.neigh_row(v).len(), 5);
        assert_eq!(g.neigh_row(v).count_ones(), 0);
    }
}

#[test]
fn graph_add_edge_is_symmetric_and_idempotent() {
    let mut g = Graph::with_vertices(4);
    g.add_edge(0, 3);
    assert!(g.neigh_row(0).get(3));
    assert!(g.neigh_row(3).get(0));
    assert!(!g.neigh_row(0).get(1));
    assert!(!g.neigh_row(0).get(0));
    assert_eq!(g.m(), 1);
    g.add_edge(3, 0);
    assert_eq!(g.m(), 1);
    assert_eq!(g.degree(0), 1);
    assert_eq!(g.degree(3), 1);
    assert_eq!(g.degree(1), 0);
}

#[test]
fn graph_from_edge_list_skips_pairs_out_of_range() {
    let g = Graph::from_edge_list(3, &[(0, 1), (1, 7), (9, 9), (1, 2), (0, 1)]);
    assert_eq!(g.n(), 3);
    assert_eq!(g.m(), 2);
    assert!(g.neigh_row(0).get(1));
    assert!(g.neigh_row(2).get(1));
    assert!(!g.neigh_row(0).get(2));
}

#[test]
fn petersen_has_fifteen_edges_and_degree_three() {
    let g = petersen();
    assert_eq!(g.m(), 15);
    for v in 0..10 {
        assert_eq!(g.degree(v), 3);
    }
}

#[test]
fn solution_counts_follow_every_change() {
    let g = petersen();
    let mut sol = Solution::new(&g);
    assert_eq!(sol.size(), 0);
    assert_eq!(sol.edges(), 0);
    for &v in &[0usize, 1, 5, 7, 2, 9] {
        sol.add(v);
        assert_eq!(sol.size(), brute_size(&sol));
        assert_eq!(sol.edges(), brute_edges(&sol));
    }
    assert_eq!(sol.size(), 6);
    assert_eq!(sol.edges(), 6);
    for &v in &[1usize, 7, 0] {
        sol.remove(v);
        assert_eq!(sol.size(), brute_size(&sol));
        assert_eq!(sol.edges(), brute_edges(&sol));
    }
    assert_eq!(sol.size(), 3);
    assert_eq!(sol.bitset().count_ones(), 3);
}

#[test]
fn twice_the_edges_is_the_sum_of_inner_degrees() {
    let g = petersen();
    let mut sol = Solution::new(&g);
    for &v in &[0usize, 1, 2, 3, 4, 5, 8] {
        sol.add(v);
    }
    let mut sum = 0;
    for v in 0..10 {
        if sol.contains(v) {
            sum += sol.count_connections(v);
        }
    }
    assert_eq!(sum, 2 * sol.edges());
    assert_eq!(sol.edges(), 8);
}

#[test]
fn density_is_twice_edges_over_ordered_pairs() {
    let g = Graph::from_edge_list(4, &[(0, 1), (1, 2), (2, 0), (2, 3)]);
    let mut sol = Solution::new(&g);
    let d0 = sol.density();
    assert_eq!((d0.num, d0.den), (0, 1));
    sol.add(0);
    let d1 = sol.density();
    assert_eq!((d1.num, d1.den), (0, 1));
    sol.add(1);
    let d2 = sol.density();
    assert_eq!((d2.num, d2.den), (2, 2));
    sol.add(2);
    sol.add(3);
    let d4 = sol.density();
    assert_eq!((d4.num, d4.den), (8, 12));
}

#[test]
fn feasibility_uses_the_tolerance() {
    let g = Graph::from_edge_list(3, &[(0, 1), (1, 2)]);
    let mut sol = Solution::new(&g);
    sol.add(0);
    sol.add(1);
    sol.add(2);
    // density 2/3
    assert!(sol.is_gamma_feasible(&Ratio::new(2, 3)));
    assert!(sol.is_gamma_feasible(&Ratio::new(1, 2)));
    assert!(!sol.is_gamma_feasible(&Ratio::new(9, 10)));
    // 2/3 + 1e-9 reaches 0.666666667 but not 0.666666668
    assert!(sol.is_gamma_feasible(&Ratio::new(666_666_667, 1_000_000_000)));
    assert!(!sol.is_gamma_feasible(&Ratio::new(666_666_668, 1_000_000_000)));
    let empty = Solution::new(&g);
    assert!(!empty.is_gamma_feasible(&Ratio::new(1, 2)));
    assert!(empty.is_gamma_feasible(&Ratio::new(1, 1_000_000_000)));
}

#[test]
fn add_of_a_member_changes_nothing() {
    let g = petersen();
    let mut sol = Solution::new(&g);
    sol.add(0);
    sol.add(1);
    let (size, edges) = (sol.size(), sol.edges());
    sol.add(1);
    assert_eq!(sol.size(), size);
    assert_eq!(sol.edges(), edges);
    assert!(sol.contains(1));
    sol.remove(7);
    assert_eq!(sol.size(), size);
    assert_eq!(sol.edges(), edges);
}

#[test]
fn solution_clone_is_independent() {
    let g = petersen();
    let mut sol = Solution::new(&g);
    sol.add(0);
    sol.add(1);
    let copy = sol.clone();
    sol.remove(0);
    assert_eq!(copy.size(), 2);
    assert_eq!(copy.edges(), 1);
    assert!(copy.contains(0));
    assert_eq!(sol.size(), 1);
}

#[test]
fn counted_round_trip_adds_two() {
    let g = petersen();
    let mut sol = Solution::new(&g);
    for v in 0..5 {
        sol.add(v);
    }
    let mut freq = vec![0usize; 10];
    let edges = sol.edges();
    add_counted(&mut sol, 7, &mut freq);
    assert_eq!(freq[7], 1);
    assert_eq!(sol.size(), 6);
    remove_counted(&mut sol, 7, &mut freq);
    assert_eq!(freq[7], 2);
    assert_eq!(sol.size(), 5);
    assert_eq!(sol.edges(), edges);
    assert!(!sol.contains(7));
    for v in 0..10 {
        if v != 7 {
            assert_eq!(freq[v], 0);
        }
    }
}

#[test]
fn counter_beyond_the_size_clears_the_memory() {
    let g = petersen();
    let mut sol = Solution::new(&g);
    let mut freq = vec![3usize, 1, 0, 0, 0, 0, 0, 0, 0, 0];
    // size becomes 1, the counter of 1 becomes 2 > 1
    add_counted(&mut sol, 1, &mut freq);
    assert_eq!(freq, vec![0usize; 10]);
    let mut freq = vec![0usize, 0, 4, 0];
    count_change(&mut freq, 2, 5);
    assert_eq!(freq, vec![0usize, 0, 5, 0]);
    count_change(&mut freq, 2, 5);
    assert_eq!(freq, vec![0usize; 4]);
}

#[test]
fn tabu_flags_follow_the_stamps() {
    let mut tabu = DualTabu::new(4, 3, 0);
    assert_eq!(tabu.len(), 4);
    assert_eq!(tabu.iter(), 0);
    for v in 0..4 {
        assert!(!tabu.is_tabu_u(v));
        assert!(!tabu.is_tabu_v(v));
    }
    tabu.forbid_u(1);
    tabu.forbid_v(2);
    assert!(tabu.is_tabu_u(1));
    assert!(!tabu.is_tabu_v(1));
    assert!(tabu.is_tabu_v(2));
    assert!(!tabu.is_tabu_u(2));
    // the tenure for leaving was raised from zero to one
    tabu.step();
    assert_eq!(tabu.iter(), 1);
    assert!(!tabu.is_tabu_v(2));
    assert!(tabu.is_tabu_u(1));
    tabu.step();
    tabu.step();
    assert!(!tabu.is_tabu_u(1));
    tabu.forbid_u(0);
    tabu.reset();
    assert!(!tabu.is_tabu_u(0));
    assert_eq!(tabu.iter(), 3);
}

#[test]
fn edge_deficit_is_capped_at_ten() {
    let gamma = Ratio::new(9, 10);
    // 10 vertices: 45 pairs, 41 edges needed
    assert_eq!(edge_deficit(&gamma, 10, 41), 0);
    assert_eq!(edge_deficit(&gamma, 10, 45), 0);
    assert_eq!(edge_deficit(&gamma, 10, 38), 3);
    assert_eq!(edge_deficit(&gamma, 10, 0), 10);
    assert_eq!(edge_deficit(&gamma, 1, 0), 0);
    // 4 vertices: 6 pairs, ceil(5.4) = 6 edges needed
    assert_eq!(edge_deficit(&gamma, 4, 5), 1);
}

#[test]
fn tenures_follow_the_formula() {
    let gamma = Ratio::new(9, 10);
    let mut tabu = DualTabu::new(10, 5, 5);
    // deficit 3, draws 4 and 2: 3 + 4 and floor(1.8) + 2
    tabu.set_tenures(10, 38, &gamma, 4, 2);
    tabu.forbid_u(0);
    tabu.forbid_v(1);
    for _ in 0..3 {
        tabu.step();
    }
    assert!(tabu.is_tabu_u(0));
    assert!(!tabu.is_tabu_v(1));
    for _ in 0..3 {
        tabu.step();
    }
    assert!(tabu.is_tabu_u(0));
    tabu.step();
    assert!(!tabu.is_tabu_u(0));
    // no deficit and no draw: both tenures are one
    tabu.set_tenures(10, 45, &gamma, 0, 0);
    tabu.forbid_u(2);
    tabu.step();
    assert!(!tabu.is_tabu_u(2));
    // below two members both tenures are one
    tabu.set_tenures(1, 0, &gamma, 6, 3);
    tabu.forbid_v(3);
    tabu.step();
    assert!(!tabu.is_tabu_v(3));
}

#[test]
fn drawn_tenures_stay_in_range() {
    let gamma = Ratio::new(9, 10);
    let mut rng = StdRng::seed_from_u64(7);
    for round in 0..50 {
        let mut tabu = DualTabu::new(3, 1, 1);
        tabu.update_tenures(10, 45, &gamma, &mut rng);
        tabu.forbid_u(0);
        tabu.forbid_v(1);
        // no deficit: the tenures are the draws, at most 6 and 3, at least 1
        for _ in 0..3 {
            tabu.step();
        }
        assert!(!tabu.is_tabu_v(1), "round {}", round);
        for _ in 0..3 {
            tabu.step();
        }
        assert!(!tabu.is_tabu_u(0), "round {}", round);
    }
}

#[test]
fn ratio_comparison_is_exact() {
    let a = Ratio::new(2, 3);
    let b = Ratio::new(666_666_666, 1_000_000_000);
    assert!(a.greater_than(&b));
    assert!(!b.greater_than(&a));
    assert!(!a.greater_than(&Ratio::new(4, 6)));
    assert!(Ratio::new(1, 1).greater_than(&Ratio::zero()));
    assert_eq!(Ratio::new(9, 10).floor_times(7), 6);
    assert_eq!(Ratio::new(1, 1).floor_times(7), 7);
    assert_eq!(Ratio::new(1, 3).floor_times(2), 0);
}

#[test]
fn params_defaults_and_builder() {
    let p = Params::default();
    assert_eq!((p.gamma_target.num, p.gamma_target.den), (9, 10));
    assert_eq!(p.stagnation_iter, 1_000);
    assert_eq!(p.max_iter, 100_000_000);
    assert_eq!(p.tenure_u, 1);
    assert_eq!(p.tenure_v, 1);
    assert!(!p.use_mcts);
    assert_eq!(p.mcts_budget, 100);
    assert_eq!(p.mcts_max_depth, 5);
    assert_eq!(p.lns_repair_depth, 10);
    assert_eq!((p.lns_rcl_alpha.num, p.lns_rcl_alpha.den), (1, 1));
    assert_eq!(p.max_time_millis, 0);
    assert_eq!(p.k, None);
    assert_eq!(p.runs, 1);
    assert_eq!(p.seed, 42);
    assert!(p.is_valid());
    let mut q = p.copy();
    q.enable_mcts(7, Ratio::new(2, 1), 3, 4);
    assert!(q.use_mcts);
    assert_eq!(q.mcts_budget, 7);
    assert_eq!((q.mcts_exploration_const.num, q.mcts_exploration_const.den), (2, 1));
    assert_eq!(q.mcts_max_depth, 3);
    assert_eq!(q.lns_repair_depth, 4);
    assert!(!p.use_mcts);
    let bad = Params { gamma_target: Ratio::new(3, 2), ..Params::default() };
    assert!(!bad.is_valid());
    let zero = Params { stagnation_iter: 0, ..Params::default() };
    assert!(!zero.is_valid());
    let built = Params::new(
        Ratio::new(1, 2),
        5,
        6,
        7,
        8,
        true,
        9,
        Ratio::new(1, 1),
        10,
        11,
        Ratio::new(1, 2),
        12,
        Some(13),
        14,
        15,
    );
    assert_eq!(built.stagnation_iter, 5);
    assert_eq!(built.max_iter, 6);
    assert_eq!(built.tenure_u, 7);
    assert_eq!(built.tenure_v, 8);
    assert_eq!(built.mcts_budget, 9);
    assert_eq!(built.mcts_max_depth, 10);
    assert_eq!(built.lns_repair_depth, 11);
    assert_eq!(built.max_time_millis, 12);
    assert_eq!(built.k, Some(13));
    assert_eq!(built.runs, 14);
    assert_eq!(built.seed, 15);
}
