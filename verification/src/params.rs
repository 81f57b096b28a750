//! The configuration of one solver call.

use crate::ratio::Ratio;
use vstd::prelude::*;

verus! {

/// The settings of the search. Thresholds are exact ratios; the time limit is
/// in milliseconds, and zero stands for no limit.
#[derive(Clone, Copy, Debug)]
pub struct Params {
    /// The density threshold, in the interval from zero (excluded) to one.
    pub gamma_target: Ratio,
    /// The number of move attempts without progress that triggers a
    /// diversification.
    pub stagnation_iter: usize,
    /// The total number of move attempts of one run.
    pub max_iter: usize,
    /// The first tenure for re-entry.
    pub tenure_u: usize,
    /// The first tenure for leaving.
    pub tenure_v: usize,
    /// Whether stagnation is answered by a tree search over removals.
    pub use_mcts: bool,
    /// The number of simulations of one tree search.
    pub mcts_budget: usize,
    /// The weight of exploration in the selection score of the tree search.
    pub mcts_exploration_const: Ratio,
    /// The longest removal sequence that the tree search considers.
    pub mcts_max_depth: usize,
    /// The number of improving moves after a repair.
    pub lns_repair_depth: usize,
    /// The share of the best gain that a vertex needs to enter a repair, in
    /// the interval from zero (excluded) to one.
    pub lns_rcl_alpha: Ratio,
    /// The wall-clock limit in milliseconds; zero for none.
    pub max_time_millis: u64,
    /// The size of the subset to find, for the search at fixed size.
    pub k: Option<usize>,
    /// The number of independent runs.
    pub runs: usize,
    /// The seed of the first run.
    pub seed: u64,
}

impl Params {
    /// The thresholds are fractions of at most 32 bits a part, and the
    /// counters leave room for the step stamps.
    pub open spec fn wf(&self) -> bool {
        &&& self.gamma_target.is_fraction()
        &&& self.gamma_target.den <= u32::MAX
        &&& self.lns_rcl_alpha.is_fraction()
        &&& self.lns_rcl_alpha.den <= u32::MAX
        &&& self.stagnation_iter >= 1
        &&& self.max_iter <= usize::MAX / 2
        &&& self.lns_repair_depth <= usize::MAX / 2
        &&& self.mcts_budget <= u32::MAX
    }

    /// The default settings.
    pub open spec fn spec_default() -> Params {
        Params {
            gamma_target: Ratio { num: 9, den: 10 },
            stagnation_iter: 1_000,
            max_iter: 100_000_000,
            tenure_u: 1,
            tenure_v: 1,
            use_mcts: false,
            mcts_budget: 100,
            mcts_exploration_const: Ratio { num: 1414, den: 1000 },
            mcts_max_depth: 5,
            lns_repair_depth: 10,
            lns_rcl_alpha: Ratio { num: 1, den: 1 },
            max_time_millis: 0,
            k: None,
            runs: 1,
            seed: 42,
        }
    }

    /// Settings with every field given.
    pub fn new(
        gamma_target: Ratio,
        stagnation_iter: usize,
        max_iter: usize,
        tenure_u: usize,
        tenure_v: usize,
        use_mcts: bool,
        mcts_budget: usize,
        mcts_exploration_const: Ratio,
        mcts_max_depth: usize,
        lns_repair_depth: usize,
        lns_rcl_alpha: Ratio,
        max_time_millis: u64,
        k: Option<usize>,
        runs: usize,
        seed: u64,
    ) -> (p: Params)
        ensures
            p == (Params {
                gamma_target,
                stagnation_iter,
                max_iter,
                tenure_u,
                tenure_v,
                use_mcts,
                mcts_budget,
                mcts_exploration_const,
                mcts_max_depth,
                lns_repair_depth,
                lns_rcl_alpha,
                max_time_millis,
                k,
                runs,
                seed,
            }),
    {
        Params {
            gamma_target,
            stagnation_iter,
            max_iter,
            tenure_u,
            tenure_v,
            use_mcts,
            mcts_budget,
            mcts_exploration_const,
            mcts_max_depth,
            lns_repair_depth,
            lns_rcl_alpha,
            max_time_millis,
            k,
            runs,
            seed,
        }
    }

    /// A copy of the settings.
    pub fn copy(&self) -> (p: Params)
        ensures
            p == *self,
    {
        *self
    }

    /// Whether the settings are well formed.
    pub fn is_valid(&self) -> (b: bool)
        ensures
            b == self.wf(),
    {
        0 < self.gamma_target.num && self.gamma_target.num <= self.gamma_target.den
            && self.gamma_target.den <= 0xFFFF_FFFF && 0 < self.lns_rcl_alpha.num
            && self.lns_rcl_alpha.num <= self.lns_rcl_alpha.den && self.lns_rcl_alpha.den
            <= 0xFFFF_FFFF && self.stagnation_iter >= 1 && self.max_iter <= usize::MAX / 2 && self.lns_repair_depth <= usize::MAX
            / 2 && self.mcts_budget <= 0xFFFF_FFFF
    }

    /// Switches the tree search on and sets its four parameters.
    pub fn enable_mcts(
        &mut self,
        budget: usize,
        exploration_const: Ratio,
        max_depth: usize,
        repair_depth: usize,
    ) -> (r: &mut Self)
        ensures
            *r == (Params {
                use_mcts: true,
                mcts_budget: budget,
                mcts_exploration_const: exploration_const,
                mcts_max_depth: max_depth,
                lns_repair_depth: repair_depth,
                ..*old(self)
            }),
            *final(self) == *final(r),
    {
        self.use_mcts = true;
        self.mcts_budget = budget;
        self.mcts_exploration_const = exploration_const;
        self.mcts_max_depth = max_depth;
        self.lns_repair_depth = repair_depth;
        self
    }
}

impl Default for Params {
    fn default() -> (p: Params)
        ensures
            p == Params::spec_default(),
    {
        Params {
            gamma_target: Ratio { num: 9, den: 10 },
            stagnation_iter: 1_000,
            max_iter: 100_000_000,
            tenure_u: 1,
            tenure_v: 1,
            use_mcts: false,
            mcts_budget: 100,
            mcts_exploration_const: Ratio { num: 1414, den: 1000 },
            mcts_max_depth: 5,
            lns_repair_depth: 10,
            lns_rcl_alpha: Ratio { num: 1, den: 1 },
            max_time_millis: 0,
            k: None,
            runs: 1,
            seed: 42,
        }
    }
}

} // verus!
