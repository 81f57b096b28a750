use rand::rngs::StdRng;
use rand::SeedableRng;
use tsqc::construct::greedy_random_k;
use tsqc::diversify::{
    heavy_candidates, heavy_perturbation, heavy_threshold, mild_perturbation, swap_pool,
};
use tsqc::graph::Graph;
use tsqc::lns::{apply_lns, refine, restricted_candidates};
use tsqc::maxk::{compute_degree_prefix, required_edges, solve_maxk, ub_edges};
use tsqc::mcts::ChildStats;
use tsqc::neighbour::{
    build_critical_sets, calculate_critical_degrees, critical_sets, improve_once, rank_swaps,
};
use tsqc::params::Params;
use tsqc::ratio::Ratio;
use tsqc::restart::{heavy_odds, initialize_solution, least_counted, solve_fixed_k};
use tsqc::runs::{run_fixed_k, run_max_k, run_seed};
use tsqc::solution::Solution;
use tsqc::tabu::DualTabu;

fn uct(s: ChildStats) -> f64 {
    if s.visits == 0 {
        return f64::INFINITY;
    }
    let average = s.total_reward as f64 / s.reward_scale as f64 / s.visits as f64;
    let c = s.exploration.num as f64 / s.exploration.den as f64;
    average + c * ((s.parent_visits as f64).ln() / s.visits as f64).sqrt()
}

fn better(a: ChildStats, b: ChildStats) -> bool {
    uct(a) > uct(b)
}

fn complete(n: usize) -> Graph {
    let mut edges = Vec::new();
    for u in 0..n {
        for v in (u + 1)..n {
            edges.push((u, v));
        }
    }
    Graph::from_edge_list(n, &edges)
}

fn cycle6() -> Graph {
    Graph::from_edge_list(6, &[(0, 1), (1, 2), (2, 3), (3, 4), (4, 5), (5, 0)])
}

fn petersen() -> Graph {
    Graph::from_edge_list(
        10,
        &[
            (0, 1),
            (1, 2),
            (2, 3),
            (3, 4),
            (4, 0),
            (0, 5),
            (1, 6),
            (2, 7),
            (3, 8),
            (4, 9),
            (5, 7),
            (7, 9),
            (9, 6),
            (6, 8),
            (8, 5),
        ],
    )
}

fn quick(gamma: Ratio) -> Params {
    Params { gamma_target: gamma, stagnation_iter: 20, max_iter: 400, ..Params::default() }
}

#[test]
fn complete_graph_on_four_vertices_at_size_four() {
    let g = complete(4);
    let p = Params { seed: 1, ..quick(Ratio::new(1, 1)) };
    let mut rng = StdRng::seed_from_u64(1);
    let (sol, timed_out) = solve_fixed_k(&g, 4, &mut rng, &p, &better);
    assert_eq!(sol.size(), 4);
    assert_eq!(sol.edges(), 6);
    let d = sol.density();
    assert_eq!(d.num, d.den);
    assert!(!timed_out);
}

#[test]
fn complete_graph_on_five_vertices_at_largest_size() {
    let g = complete(5);
    let p = Params { seed: 1, ..quick(Ratio::new(9, 10)) };
    let mut rng = StdRng::seed_from_u64(1);
    let (sol, _) = solve_maxk(&g, &mut rng, &p, &better);
    assert_eq!(sol.size(), 5);
    assert_eq!(sol.edges(), 10);
    let d = sol.density();
    assert_eq!(d.num, d.den);
}

#[test]
fn cycle_of_six_has_no_triangle() {
    let g = cycle6();
    let p = quick(Ratio::new(9, 10));
    let mut rng = StdRng::seed_from_u64(3);
    let (sol, timed_out) = solve_fixed_k(&g, 3, &mut rng, &p, &better);
    assert_eq!(sol.size(), 3);
    assert_eq!(sol.edges(), 2);
    let d = sol.density();
    assert_eq!((d.num, d.den), (4, 6));
    assert!(!sol.is_gamma_feasible(&p.gamma_target));
    assert!(!timed_out);
}

#[test]
fn two_disjoint_triangles_at_size_three() {
    let g = Graph::from_edge_list(6, &[(0, 1), (1, 2), (2, 0), (3, 4), (4, 5), (5, 3)]);
    let p = quick(Ratio::new(1, 1));
    let mut rng = StdRng::seed_from_u64(5);
    let (sol, _) = solve_fixed_k(&g, 3, &mut rng, &p, &better);
    assert_eq!(sol.size(), 3);
    assert_eq!(sol.edges(), 3);
    let d = sol.density();
    assert_eq!(d.num, d.den);
}

#[test]
fn empty_graph_has_no_feasible_subset() {
    let g = Graph::with_vertices(10);
    let p = quick(Ratio::new(1, 2));
    let mut rng = StdRng::seed_from_u64(11);
    let (sol, _) = solve_maxk(&g, &mut rng, &p, &better);
    assert_eq!(sol.size(), 0);
}

#[test]
fn petersen_graph_has_no_clique_beyond_an_edge() {
    let g = petersen();
    let p = quick(Ratio::new(1, 1));
    let mut rng = StdRng::seed_from_u64(13);
    let (sol, _) = solve_maxk(&g, &mut rng, &p, &better);
    assert_eq!(sol.size(), 2);
    assert_eq!(sol.edges(), 1);
    let d = sol.density();
    assert_eq!(d.num, d.den);
}

#[test]
fn degenerate_sizes_give_the_empty_solution() {
    let g = cycle6();
    let p = quick(Ratio::new(9, 10));
    let mut rng = StdRng::seed_from_u64(1);
    let (zero, t0) = solve_fixed_k(&g, 0, &mut rng, &p, &better);
    assert_eq!(zero.size(), 0);
    assert!(!t0);
    let (large, t1) = solve_fixed_k(&g, 7, &mut rng, &p, &better);
    assert_eq!(large.size(), 0);
    assert!(!t1);
    let none = Graph::with_vertices(0);
    let (nothing, t2) = solve_fixed_k(&none, 1, &mut rng, &p, &better);
    assert_eq!(nothing.size(), 0);
    assert!(!t2);
    let one = Graph::with_vertices(1);
    let (single, t3) = solve_maxk(&one, &mut rng, &p, &better);
    assert_eq!(single.size(), 0);
    assert!(!t3);
}

#[test]
fn same_seed_gives_the_same_result() {
    let g = petersen();
    for use_mcts in [false, true] {
        let p = Params {
            use_mcts,
            mcts_budget: 8,
            stagnation_iter: 5,
            max_iter: 200,
            k: Some(4),
            seed: 9,
            runs: 2,
            ..Params::default()
        };
        let (a, ta) = run_fixed_k(&g, 4, &p, &better);
        let (b, tb) = run_fixed_k(&g, 4, &p, &better);
        assert_eq!(a.size(), b.size());
        assert_eq!(a.edges(), b.edges());
        assert_eq!(ta, tb);
        for v in 0..10 {
            assert_eq!(a.contains(v), b.contains(v));
        }
        let (c, tc) = run_max_k(&g, &p, &better);
        let (d, td) = run_max_k(&g, &p, &better);
        assert_eq!(c.size(), d.size());
        assert_eq!(c.edges(), d.edges());
        assert_eq!(tc, td);
    }
}

#[test]
fn runs_keep_the_best_result() {
    let g = complete(4);
    let p = Params { runs: 3, seed: 1, ..quick(Ratio::new(1, 1)) };
    let (sol, timed_out) = run_fixed_k(&g, 3, &p, &better);
    assert_eq!(sol.size(), 3);
    assert_eq!(sol.edges(), 3);
    assert!(!timed_out);
    let (largest, _) = run_max_k(&g, &p, &better);
    assert_eq!(largest.size(), 4);
    let none = Params { runs: 0, ..p };
    let (empty, t) = run_fixed_k(&g, 3, &none, &better);
    assert_eq!(empty.size(), 0);
    assert!(!t);
    assert_eq!(run_seed(5, 3), 8);
    assert_eq!(run_seed(u64::MAX, 1), 0);
    assert_eq!(run_seed(u64::MAX - 1, 3), 1);
}

#[test]
fn time_limit_is_reported() {
    let g = petersen();
    let p = Params {
        gamma_target: Ratio::new(1, 1),
        stagnation_iter: 10,
        max_iter: 50_000_000,
        max_time_millis: 30,
        ..Params::default()
    };
    let mut rng = StdRng::seed_from_u64(2);
    let (sol, timed_out) = solve_fixed_k(&g, 4, &mut rng, &p, &better);
    assert!(timed_out);
    assert!(sol.size() == 0 || sol.size() == 4);
    assert!(!sol.is_gamma_feasible(&p.gamma_target));
}

#[test]
fn greedy_start_takes_best_connected_vertices() {
    let g = Graph::from_edge_list(6, &[(0, 1), (1, 2), (2, 0), (3, 4), (4, 5), (5, 3)]);
    for seed in 0..20 {
        let mut rng = StdRng::seed_from_u64(seed);
        let sol = greedy_random_k(&g, 3, &mut rng);
        assert_eq!(sol.size(), 3);
        assert_eq!(sol.edges(), 3);
        let mut freq = vec![0usize; 6];
        let empty = Solution::new(&g);
        let first = initialize_solution(&g, 3, &mut freq, &empty, &mut rng);
        assert_eq!(first.size(), 3);
        assert_eq!(first.edges(), 3);
        assert_eq!(freq.iter().sum::<usize>(), 3);
        // a later restart starts from a vertex with the lowest counter
        let again = initialize_solution(&g, 3, &mut freq, &first, &mut rng);
        assert_eq!(again.size(), 3);
        assert_eq!(again.edges(), 3);
        for v in 0..6 {
            assert_ne!(again.contains(v), first.contains(v));
        }
    }
}

#[test]
fn later_restarts_follow_the_memory() {
    // the path 0-1-2-3-4
    let g = Graph::from_edge_list(5, &[(0, 1), (1, 2), (2, 3), (3, 4)]);
    let mut earlier = Solution::new(&g);
    earlier.add(0);
    let mut rng = StdRng::seed_from_u64(7);
    // vertex 2 has the lowest counter; of its neighbours 1 has the lower
    // counter, and then of the vertices 0 and 3 the vertex 3
    let mut freq = vec![3usize, 1, 0, 2, 3];
    let sol = initialize_solution(&g, 3, &mut freq, &earlier, &mut rng);
    assert_eq!((0..5).filter(|&v| sol.contains(v)).collect::<Vec<_>>(), vec![1, 2, 3]);
    assert_eq!(freq, vec![3, 2, 1, 3, 3]);
    // equal counters: the later vertex goes first, and a counter beyond the
    // size clears the memory
    let mut level = vec![5usize, 5, 0, 5, 5];
    let tied = initialize_solution(&g, 3, &mut level, &earlier, &mut rng);
    assert_eq!((0..5).filter(|&v| tied.contains(v)).collect::<Vec<_>>(), vec![2, 3, 4]);
    assert_eq!(level, vec![0, 0, 0, 0, 1]);
}

#[test]
fn repair_readds_the_best_connected_vertex() {
    // a triangle and an isolated vertex
    let g = Graph::from_edge_list(4, &[(0, 1), (1, 2), (0, 2)]);
    let mut initial = Solution::new(&g);
    for v in [0, 1, 3] {
        initial.add(v);
    }
    for seed in 0..10 {
        let mut rng = StdRng::seed_from_u64(seed);
        let repaired = apply_lns(&initial, &[3], &Params::default(), &mut rng);
        assert_eq!(repaired.size(), 3);
        assert_eq!(repaired.edges(), 3);
        assert_eq!((0..4).filter(|&v| repaired.contains(v)).collect::<Vec<_>>(), vec![0, 1, 2]);
    }
    assert_eq!((0..4).filter(|&v| initial.contains(v)).collect::<Vec<_>>(), vec![0, 1, 3]);
    assert_eq!(initial.edges(), 1);
}

#[test]
fn candidate_lists_are_in_increasing_order() {
    assert_eq!(least_counted(&vec![1, 0, 0, 2, 0]), vec![1, 2, 4]);
    assert_eq!(least_counted(&vec![3, 3]), vec![0, 1]);
    assert!(least_counted(&vec![]).is_empty());
    // the path 0-1-2-3-4 with the members 1 and 3
    let g = Graph::from_edge_list(5, &[(0, 1), (1, 2), (2, 3), (3, 4)]);
    let mut sol = Solution::new(&g);
    sol.add(1);
    sol.add(3);
    let tabu = DualTabu::new(5, 1, 1);
    let (set_a, set_b) = critical_sets(&sol, &tabu);
    assert_eq!(set_a, vec![1, 3]);
    assert_eq!(set_b, vec![2]);
    let ranking = rank_swaps(&sol, &tabu, &vec![1, 3], &vec![0, 2, 4], &Ratio::zero());
    assert_eq!(ranking.ties, vec![(1, 2), (1, 4), (3, 0), (3, 2)]);
    assert_eq!(restricted_candidates(&sol, &Ratio::new(1, 2)), vec![0, 2, 4]);
    assert_eq!(heavy_candidates(&sol, 2), vec![0, 4]);
}

#[test]
fn refinement_swaps_until_no_swap_is_left() {
    // triangle 0-1-2 with the pendant 3 on 0
    let g = Graph::from_edge_list(4, &[(0, 1), (1, 2), (2, 0), (0, 3)]);
    let mut sol = Solution::new(&g);
    for v in [0, 1, 3] {
        sol.add(v);
    }
    let mut rng = StdRng::seed_from_u64(5);
    let idle = Params { lns_repair_depth: 0, ..Params::default() };
    refine(&mut sol, &idle, &mut rng);
    assert_eq!((0..4).filter(|&v| sol.contains(v)).collect::<Vec<_>>(), vec![0, 1, 3]);
    // the one best swap takes the pendant out and closes the triangle
    let single = Params { lns_repair_depth: 1, ..Params::default() };
    refine(&mut sol, &single, &mut rng);
    assert_eq!((0..4).filter(|&v| sol.contains(v)).collect::<Vec<_>>(), vec![0, 1, 2]);
    assert_eq!(sol.edges(), 3);
    // from the triangle every swap loses an edge
    refine(&mut sol, &Params::default(), &mut rng);
    assert_eq!((0..4).filter(|&v| sol.contains(v)).collect::<Vec<_>>(), vec![0, 1, 2]);
    let mut again = Solution::new(&g);
    for v in [0, 1, 3] {
        again.add(v);
    }
    refine(&mut again, &Params::default(), &mut rng);
    assert_eq!((0..4).filter(|&v| again.contains(v)).collect::<Vec<_>>(), vec![0, 1, 2]);
}

#[test]
fn critical_sets_hold_the_extremes() {
    // path 0-1-2 plus the vertices 3 and 4, where 3 sees 0 and 2
    let g = Graph::from_edge_list(5, &[(0, 1), (1, 2), (3, 0), (3, 2)]);
    let mut sol = Solution::new(&g);
    sol.add(0);
    sol.add(1);
    sol.add(2);
    let mut tabu = DualTabu::new(5, 2, 2);
    assert_eq!(calculate_critical_degrees(&sol, &tabu), (Some(1), Some(2)));
    let (a, b) = build_critical_sets(&sol, &tabu, 1, 2);
    assert_eq!(a, vec![0, 2]);
    assert_eq!(b, vec![3]);
    assert_eq!(critical_sets(&sol, &tabu), (vec![0, 2], vec![3]));
    // the members 0 and 2 may not leave, the vertex 3 may not enter
    tabu.forbid_v(0);
    tabu.forbid_v(2);
    tabu.forbid_u(3);
    assert_eq!(calculate_critical_degrees(&sol, &tabu), (Some(2), Some(0)));
    assert_eq!(critical_sets(&sol, &tabu), (vec![1], vec![4]));
    tabu.forbid_v(1);
    assert_eq!(calculate_critical_degrees(&sol, &tabu), (None, Some(0)));
    let (none_a, none_b) = critical_sets(&sol, &tabu);
    assert!(none_a.is_empty() && none_b.is_empty());
}

#[test]
fn swaps_are_ranked_by_gain_and_aspiration() {
    let g = Graph::from_edge_list(5, &[(0, 1), (1, 2), (3, 0), (3, 2)]);
    let mut sol = Solution::new(&g);
    sol.add(0);
    sol.add(1);
    sol.add(2);
    let mut tabu = DualTabu::new(5, 2, 2);
    let zero = Ratio::zero();
    // gains: (0,3) 2-1-1 = 0, (2,3) 0, (1,3) 2-2-0 = 0, (0,4) -1, (1,4) -2
    let r = rank_swaps(&sol, &tabu, &vec![0, 1, 2], &vec![3, 4], &zero);
    assert_eq!(r.aspiring, None);
    assert_eq!(r.ties, vec![(0, 3), (1, 3), (2, 3)]);
    let only_losses = rank_swaps(&sol, &tabu, &vec![0, 1, 2], &vec![4], &zero);
    assert_eq!(only_losses.aspiring, None);
    assert!(only_losses.ties.is_empty());
    // with 3 barred from entering, its swaps are tabu; they keep the density
    // at 2/3, which lifts it above 1/2 but not above 2/3
    tabu.forbid_u(3);
    let low = rank_swaps(&sol, &tabu, &vec![0, 1, 2], &vec![3, 4], &Ratio::new(1, 2));
    assert_eq!(low.aspiring, Some((0, 3)));
    assert!(low.ties.is_empty());
    let high = rank_swaps(&sol, &tabu, &vec![0, 1, 2], &vec![3, 4], &Ratio::new(2, 3));
    assert_eq!(high.aspiring, None);
    assert!(high.ties.is_empty());
}

#[test]
fn improving_step_swaps_and_counts_one_step() {
    // the star 0-1, 0-2, 0-3 and the triangle 0-4, 0-5, 4-5
    let g = Graph::from_edge_list(6, &[(0, 1), (0, 2), (0, 3), (0, 4), (0, 5), (4, 5)]);
    let p = Params::default();
    for seed in 0..10 {
        let mut rng = StdRng::seed_from_u64(seed);
        let mut sol = Solution::new(&g);
        sol.add(0);
        sol.add(1);
        sol.add(4);
        let mut tabu = DualTabu::new(6, 1, 1);
        let mut freq = vec![0usize; 6];
        let best = sol.density();
        let moved = improve_once(&mut sol, &mut tabu, &best, &mut freq, &p, &mut rng);
        assert!(moved);
        assert_eq!(tabu.iter(), 1);
        assert_eq!(sol.size(), 3);
        // the only swap that loses no edge is 1 for 5
        assert!(sol.contains(0) && sol.contains(4) && sol.contains(5));
        assert_eq!(sol.edges(), 3);
        assert_eq!(freq, vec![0, 1, 0, 0, 0, 1]);
        // the triangle cannot be improved
        let moved_again = improve_once(&mut sol, &mut tabu, &best, &mut freq, &p, &mut rng);
        assert!(!moved_again);
        assert_eq!(tabu.iter(), 2);
        assert_eq!(sol.edges(), 3);
        assert_eq!(freq, vec![0, 1, 0, 0, 0, 1]);
    }
}

#[test]
fn heavy_threshold_depends_on_the_graph_density() {
    let gamma = Ratio::new(9, 10);
    let sparse = cycle6();
    // floor(0.85 * 0.9 * 5) = 3, floor(0.85 * 0.9 * 6) = 4
    assert_eq!(heavy_threshold(&sparse, &gamma, 5), 3);
    assert_eq!(heavy_threshold(&sparse, &gamma, 6), 4);
    let dense = complete(6);
    // floor(0.9 * 5) = 4, floor(0.9 * 6) = 5
    assert_eq!(heavy_threshold(&dense, &gamma, 5), 4);
    assert_eq!(heavy_threshold(&dense, &gamma, 6), 5);
    assert_eq!(heavy_threshold(&dense, &gamma, 0), 0);
    assert_eq!(heavy_odds(0, 5), (1, 10));
    assert_eq!(heavy_odds(0, 20), (1, 10));
    assert_eq!(heavy_odds(0, 21), (2, 21));
    assert_eq!(heavy_odds(10, 200), (12, 200));
}

#[test]
fn heavy_candidates_fall_back_to_the_least_connected() {
    let g = Graph::from_edge_list(5, &[(0, 1), (1, 2), (3, 0), (3, 2), (4, 1)]);
    let mut sol = Solution::new(&g);
    sol.add(0);
    sol.add(1);
    sol.add(2);
    assert_eq!(heavy_candidates(&sol, 2), vec![4]);
    assert_eq!(heavy_candidates(&sol, 3), vec![3, 4]);
    assert_eq!(heavy_candidates(&sol, 1), vec![4]);
    assert_eq!(heavy_candidates(&sol, 0), vec![4]);
}

#[test]
fn perturbations_keep_the_size_and_lift_the_bars() {
    let g = petersen();
    let p = Params::default();
    for seed in 0..10 {
        let mut rng = StdRng::seed_from_u64(seed);
        let mut sol = Solution::new(&g);
        for v in 0..4 {
            sol.add(v);
        }
        let mut tabu = DualTabu::new(10, 3, 3);
        tabu.forbid_u(9);
        tabu.forbid_v(0);
        let mut freq = vec![0usize; 10];
        heavy_perturbation(&mut sol, &mut tabu, &mut rng, &p, &mut freq);
        assert_eq!(sol.size(), 4);
        assert_eq!(freq.iter().sum::<usize>(), 2);
        for v in 0..10 {
            assert!(!tabu.is_tabu_u(v));
            assert!(!tabu.is_tabu_v(v));
        }
        let mut sol = Solution::new(&g);
        for v in 0..4 {
            sol.add(v);
        }
        let before = sol.clone();
        let mut freq = vec![0usize; 10];
        tabu.forbid_u(9);
        mild_perturbation(&mut sol, &mut tabu, &mut rng, &p, &mut freq);
        assert_eq!(sol.size(), 4);
        assert_eq!(freq.iter().sum::<usize>(), 2);
        let left: Vec<usize> = (0..10).filter(|&v| before.contains(v) && !sol.contains(v)).collect();
        let entered: Vec<usize> =
            (0..10).filter(|&v| !before.contains(v) && sol.contains(v)).collect();
        assert_eq!(left.len(), 1);
        assert_eq!(entered.len(), 1);
        // the ends 0 and 3 of the path are the critical members
        assert!(left[0] == 0 || left[0] == 3);
        assert!(entered[0] != 9);
        for v in 0..10 {
            assert_eq!(tabu.is_tabu_u(v), v == left[0]);
            assert_eq!(tabu.is_tabu_v(v), v == entered[0]);
        }
        // small solutions are left alone
        let mut tiny = Solution::new(&g);
        tiny.add(0);
        let mut freq = vec![0usize; 10];
        mild_perturbation(&mut tiny, &mut tabu, &mut rng, &p, &mut freq);
        assert!(tiny.contains(0));
        assert_eq!(freq, vec![0usize; 10]);
        let mut none = Solution::new(&g);
        heavy_perturbation(&mut none, &mut tabu, &mut rng, &p, &mut freq);
        assert_eq!(none.size(), 0);
        assert_eq!(freq, vec![0usize; 10]);
    }
}

#[test]
fn swap_pool_prefers_pairs_that_are_not_joined() {
    let g = Graph::from_edge_list(4, &[(0, 2), (1, 2), (1, 3)]);
    let mut sol = Solution::new(&g);
    sol.add(0);
    sol.add(1);
    assert_eq!(swap_pool(&sol, &vec![0, 1], &vec![2, 3]), vec![(0, 3)]);
    assert_eq!(swap_pool(&sol, &vec![1], &vec![2, 3]), vec![(1, 2), (1, 3)]);
    assert!(swap_pool(&sol, &vec![], &vec![2, 3]).is_empty());
}

#[test]
fn restricted_candidates_follow_alpha() {
    let g = Graph::from_edge_list(6, &[(0, 1), (1, 2), (2, 0), (3, 0), (3, 1), (3, 2), (4, 0), (4, 1)]);
    let mut sol = Solution::new(&g);
    sol.add(0);
    sol.add(1);
    sol.add(2);
    // inner neighbours outside: 3 has 3, 4 has 2, 5 has 0
    assert_eq!(restricted_candidates(&sol, &Ratio::new(1, 1)), vec![3]);
    assert_eq!(restricted_candidates(&sol, &Ratio::new(2, 3)), vec![3, 4]);
    assert_eq!(restricted_candidates(&sol, &Ratio::new(1, 3)), vec![3, 4]);
    assert_eq!(restricted_candidates(&sol, &Ratio::new(1, 4)), vec![3, 4, 5]);
}

#[test]
fn repair_restores_the_size() {
    let g = Graph::from_edge_list(6, &[(0, 1), (1, 2), (2, 0), (3, 0), (3, 1), (3, 2), (4, 0)]);
    let mut sol = Solution::new(&g);
    sol.add(0);
    sol.add(1);
    sol.add(4);
    sol.add(5);
    let p = Params { lns_repair_depth: 0, ..Params::default() };
    for seed in 0..10 {
        let mut rng = StdRng::seed_from_u64(seed);
        // with pure greed the completion takes 2 and then 3
        let repaired = apply_lns(&sol, &[4, 5], &p, &mut rng);
        assert_eq!(repaired.size(), 4);
        assert_eq!(repaired.edges(), 6);
        assert!(repaired.contains(2) && repaired.contains(3));
        let refined = apply_lns(&sol, &[], &Params::default(), &mut rng);
        assert_eq!(refined.size(), 4);
        assert!(refined.edges() >= sol.edges());
    }
    assert_eq!(sol.size(), 4);
}

#[test]
fn degree_prefix_sums_the_greatest_degrees() {
    let g = Graph::from_edge_list(5, &[(0, 1), (0, 2), (0, 3), (1, 2), (3, 4)]);
    // degrees 3, 2, 2, 2, 1
    let prefix = compute_degree_prefix(&g);
    assert_eq!(prefix, vec![0, 3, 5, 7, 9, 10]);
    assert_eq!(ub_edges(&prefix, 0), 0);
    assert_eq!(ub_edges(&prefix, 3), 3);
    assert_eq!(ub_edges(&prefix, 5), 5);
    let h = Graph::from_edge_list(4, &[(2, 3), (1, 3), (0, 3)]);
    assert_eq!(compute_degree_prefix(&h), vec![0, 3, 4, 5, 6]);
    assert_eq!(required_edges(&Ratio::new(9, 10), 4), 6);
    assert_eq!(required_edges(&Ratio::new(9, 10), 10), 41);
    assert_eq!(required_edges(&Ratio::new(1, 2), 3), 2);
    assert_eq!(required_edges(&Ratio::new(1, 1), 1), 0);
}
