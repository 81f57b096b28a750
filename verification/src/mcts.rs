//! A tree search over removal sequences. Each node stands for a sequence of
//! members taken out of a fixed solution; a simulation walks down the tree,
//! adds a node, repairs the solution after the removals of that node and
//! records the reward along the way back to the root.
//!
//! Rewards are exact: every repair has the size of the fixed solution, so
//! every reward is a whole multiple of one over the number of pairs of its
//! members, and the tree stores that multiple.

use crate::graph::Graph;
use crate::induced::conn;
use crate::lns::apply_lns;
use crate::lns::remove_all;
use crate::lns::without;
use crate::neighbour::lemma_push_contains;
use crate::params::Params;
use crate::ratio::lemma_floor_monotone;
use crate::ratio::Ratio;
use crate::rng::pick_one;
use crate::solution::density_of;
use crate::solution::reaches;
use crate::solution::Solution;
use rand::rngs::StdRng;
use vstd::prelude::*;

verus! {

/// One node of the tree.
pub struct MctsNode {
    /// The node above, none at the root.
    pub parent: Option<usize>,
    /// The nodes below, each with the vertex that it removes, oldest first.
    pub children: Vec<(usize, usize)>,
    /// The number of simulations that passed through the node.
    pub visits: u32,
    /// The sum of the rewards of those simulations, in units of one over the
    /// reward scale of the tree.
    pub total_reward: u128,
    /// The vertex that the node removes, none at the root.
    pub vertex_removed: Option<usize>,
    /// The number of removals from the root down to the node.
    pub depth: usize,
}

/// What the selection score of a child is computed from.
#[derive(Clone, Copy, Debug)]
pub struct ChildStats {
    /// The visits of the child.
    pub visits: u32,
    /// The sum of rewards of the child, in units of one over `reward_scale`.
    pub total_reward: u128,
    /// The number of units that make a reward of one.
    pub reward_scale: u64,
    /// The visits of the node above.
    pub parent_visits: u32,
    /// The weight of exploration.
    pub exploration: Ratio,
}

/// The number of units that make a reward of one, for solutions of `size`
/// vertices: the number of their vertex pairs, or one below two vertices.
pub open spec fn pair_scale(size: int) -> int {
    if size < 2 {
        1
    } else {
        size * (size - 1) / 2
    }
}

/// The reward of a repaired solution of `size` vertices and `edges` edges, in
/// units of one over [`pair_scale`]: its density, and one more where the
/// density reaches `gamma`.
pub open spec fn reward_of(size: int, edges: int, gamma: Ratio) -> int {
    edges + if reaches(density_of(size, edges), gamma) { pair_scale(size) } else { 0 }
}

/// The pair scale of a size whose square fits in `usize` is positive and
/// fits in 63 bits.
pub proof fn lemma_pair_scale_bounds(size: int)
    requires
        0 <= size,
        size * (size - 1) <= usize::MAX,
    ensures
        0 < pair_scale(size),
        2 * pair_scale(size) <= 0xFFFF_FFFF_FFFF_FFFF,
        size >= 2 ==> 2 * pair_scale(size) <= size * (size - 1) < 2 * pair_scale(size) + 2,
        size < 2 ==> size * (size - 1) == 0,
{
    if size >= 2 {
        assert(size * (size - 1) >= 2) by (nonlinear_arith)
            requires
                size >= 2,
        ;
    } else {
        assert(size * (size - 1) == 0) by (nonlinear_arith)
            requires
                size == 0 || size == 1,
        ;
    }
}

/// The child `a` has no greater average reward than the child `b`, a child
/// without visits counting as visited once.
pub open spec fn average_le(a: MctsNode, b: MctsNode) -> bool {
    a.total_reward * (if b.visits < 1 { 1int } else { b.visits as int }) <= b.total_reward * (if a.visits
        < 1 { 1int } else { a.visits as int })
}

/// The position among the first `k` entries of `children` of the child with
/// the greatest average reward, the last one among those that tie.
pub open spec fn best_by_average(nodes: Seq<MctsNode>, children: Seq<(usize, usize)>, k: int) -> int
    decreases k,
{
    if k <= 1 {
        0
    } else {
        let prev = best_by_average(nodes, children, k - 1);
        if average_le(nodes[children[prev].1 as int], nodes[children[k - 1].1 as int]) {
            k - 1
        } else {
            prev
        }
    }
}

/// The removals along the way that starts at node `i` and always goes on to
/// the child with the greatest average reward.
pub open spec fn exploit_from(nodes: Seq<MctsNode>, i: int) -> Seq<usize>
    decreases nodes.len() - i,
{
    if i < 0 || i >= nodes.len() || nodes[i].children@.len() == 0 {
        Seq::empty()
    } else {
        let at = best_by_average(nodes, nodes[i].children@, nodes[i].children@.len() as int);
        let entry = nodes[i].children@[at];
        if i < entry.1 < nodes.len() {
            seq![entry.0] + exploit_from(nodes, entry.1 as int)
        } else {
            Seq::empty()
        }
    }
}

/// Node `i` hangs below an earlier node, one level deeper, and removes a
/// vertex below `n`.
pub open spec fn node_linked(nodes: Seq<MctsNode>, i: int, n: int) -> bool {
    &&& nodes[i].parent is Some
    &&& nodes[i].parent->Some_0 < i
    &&& nodes[i].depth == nodes[nodes[i].parent->Some_0 as int].depth + 1
    &&& nodes[i].vertex_removed is Some
    &&& nodes[i].vertex_removed->Some_0 < n
}

/// Entry `c` of the children of node `i` names a later node that hangs below
/// `i` and removes the vertex of the entry.
pub open spec fn child_linked(nodes: Seq<MctsNode>, i: int, c: int) -> bool {
    &&& i < nodes[i].children@[c].1 < nodes.len()
    &&& nodes[nodes[i].children@[c].1 as int].parent == Some(i as usize)
    &&& nodes[nodes[i].children@[c].1 as int].vertex_removed == Some(nodes[i].children@[c].0)
}

/// No two entries of `children` remove the same vertex.
pub open spec fn keys_distinct(children: Seq<(usize, usize)>) -> bool {
    forall|c1: int, c2: int|
        0 <= c1 < c2 < children.len() ==> (#[trigger] children[c1]).0 != (#[trigger] children[c2]).0
}

/// Node `i` is entered among the children of the node above it, under the
/// vertex that it removes.
pub open spec fn listed(nodes: Seq<MctsNode>, i: int) -> bool {
    exists|c: int|
        0 <= c < nodes[nodes[i].parent->Some_0 as int].children@.len() && #[trigger] nodes[nodes[i].parent->Some_0 as int].children@[c]
            == (nodes[i].vertex_removed->Some_0, i as usize)
}

/// The nodes form a tree rooted at node zero, over vertices below `n`: every
/// node but the root hangs below an earlier node and is entered there, and
/// the children of a node remove different vertices.
pub open spec fn links_ok(nodes: Seq<MctsNode>, n: int) -> bool {
    &&& 1 <= nodes.len() <= usize::MAX
    &&& forall|i: int| 0 <= i < nodes.len() ==> keys_distinct((#[trigger] nodes[i]).children@)
    &&& forall|i: int| 1 <= i < nodes.len() ==> #[trigger] listed(nodes, i)
    &&& nodes[0].parent is None
    &&& nodes[0].vertex_removed is None
    &&& nodes[0].depth == 0
    &&& forall|i: int| 0 <= i < nodes.len() ==> (#[trigger] nodes[i]).depth <= i
    &&& forall|i: int| 1 <= i < nodes.len() ==> #[trigger] node_linked(nodes, i, n)
    &&& forall|i: int, c: int|
        0 <= i < nodes.len() && 0 <= c < nodes[i].children@.len() ==> #[trigger] child_linked(
            nodes,
            i,
            c,
        )
}

/// No node has more visits than the root, and no node holds more reward than
/// two per visit.
pub open spec fn stats_ok(nodes: Seq<MctsNode>, scale: int) -> bool {
    forall|i: int|
        0 <= i < nodes.len() ==> (#[trigger] nodes[i]).visits <= nodes[0].visits
            && nodes[i].total_reward <= 2 * scale * nodes[i].visits
}

/// The vertices removed on the way from the root down to node `i`.
pub open spec fn path_to(nodes: Seq<MctsNode>, i: int) -> Seq<usize>
    decreases i,
{
    if i <= 0 || i >= nodes.len() {
        Seq::empty()
    } else {
        match (nodes[i].parent, nodes[i].vertex_removed) {
            (Some(p), Some(v)) => if p < i {
                path_to(nodes, p as int).push(v)
            } else {
                Seq::empty()
            },
            _ => Seq::empty(),
        }
    }
}

/// Node `i` lies on the way from the root down to node `from`, ends included.
pub open spec fn on_path(nodes: Seq<MctsNode>, from: int, i: int) -> bool
    decreases from,
{
    if from == i {
        true
    } else if from <= 0 || from >= nodes.len() {
        false
    } else {
        match nodes[from].parent {
            Some(p) => p < from && on_path(nodes, p as int, i),
            None => false,
        }
    }
}

/// What the selection sees of node `child` below a node with `parent_visits`
/// visits, in a tree with the given reward scale and weight of exploration.
pub open spec fn stats_at(
    nodes: Seq<MctsNode>,
    child: int,
    scale: int,
    parent_visits: u32,
    exploration: Ratio,
) -> ChildStats {
    ChildStats {
        visits: nodes[child].visits,
        total_reward: nodes[child].total_reward,
        reward_scale: scale as u64,
        parent_visits,
        exploration,
    }
}

/// `better` gave the answer `kept` when asked whether entry `first` of the
/// children of node `i` scores higher than entry `second`.
pub open spec fn compared<F: Fn(ChildStats, ChildStats) -> bool>(
    nodes: Seq<MctsNode>,
    scale: int,
    exploration: Ratio,
    better: &F,
    i: int,
    first: int,
    second: int,
    kept: bool,
) -> bool {
    call_ensures(
        better,
        (
            stats_at(nodes, nodes[i].children@[first].1 as int, scale, nodes[i].visits, exploration),
            stats_at(nodes, nodes[i].children@[second].1 as int, scale, nodes[i].visits, exploration),
        ),
        kept,
    )
}

/// Entry `c` of the children of node `i` names a node that has been visited.
pub open spec fn entry_visited(nodes: Seq<MctsNode>, i: int, c: int) -> bool {
    nodes[nodes[i].children@[c].1 as int].visits > 0
}

/// Entry `at` of the children of node `i` is the one that the selection goes
/// on to.
///
/// A child without visits goes before every visited child, and of several
/// such children the last one goes first. Where every child has been visited,
/// `better` put the entry ahead of every later one, and, unless it is the
/// first entry, did not put some earlier entry ahead of it.
pub open spec fn is_selected_entry<F: Fn(ChildStats, ChildStats) -> bool>(
    nodes: Seq<MctsNode>,
    scale: int,
    exploration: Ratio,
    better: &F,
    i: int,
    at: int,
) -> bool {
    &&& 0 <= at < nodes[i].children@.len()
    &&& forall|c: int| at < c < nodes[i].children@.len() ==> #[trigger] entry_visited(nodes, i, c)
    &&& entry_visited(nodes, i, at) ==> {
        &&& forall|c: int| 0 <= c < nodes[i].children@.len() ==> #[trigger] entry_visited(nodes, i, c)
        &&& forall|c: int|
            at < c < nodes[i].children@.len() ==> #[trigger] compared(
                nodes,
                scale,
                exploration,
                better,
                i,
                at,
                c,
                true,
            )
        &&& at > 0 ==> exists|e: int|
            0 <= e < at && #[trigger] compared(nodes, scale, exploration, better, i, e, at, false)
    }
}

/// Node `j` is the child that the selection goes on to from the node above
/// it.
pub open spec fn is_selected_node<F: Fn(ChildStats, ChildStats) -> bool>(
    nodes: Seq<MctsNode>,
    scale: int,
    exploration: Ratio,
    better: &F,
    j: int,
) -> bool {
    &&& nodes[j].parent is Some
    &&& exists|at: int|
        #[trigger] is_selected_entry(
            nodes,
            scale,
            exploration,
            better,
            nodes[j].parent->Some_0 as int,
            at,
        ) && nodes[nodes[j].parent->Some_0 as int].children@[at].1 == j
}

/// The tree search over the removals from one solution.
pub struct MctsTree<'g> {
    /// The arena of nodes; node zero is the root.
    pub nodes: Vec<MctsNode>,
    initial_solution: Solution<'g>,
    graph: &'g Graph,
    params: &'g Params,
}

impl<'g> MctsTree<'g> {
    /// The nodes of the tree; node zero is the root.
    pub closed spec fn spec_nodes(&self) -> Seq<MctsNode> {
        self.nodes@
    }

    /// The solution at the root.
    pub closed spec fn initial(&self) -> &Solution<'g> {
        &self.initial_solution
    }

    /// The parameters of the search.
    pub closed spec fn spec_params(&self) -> &'g Params {
        self.params
    }

    /// The number of units that make a reward of one: the number of pairs of
    /// members of the root solution, or one below two members.
    pub open spec fn reward_scale(&self) -> int {
        pair_scale(self.initial().spec_size() as int)
    }

    /// The number of units that make a reward of one.
    pub fn scale(&self) -> (s: u64)
        requires
            self.wf(),
        ensures
            s == self.reward_scale(),
            0 < s,
            2 * s <= 0xFFFF_FFFF_FFFF_FFFF,
    {
        proof {
            self.initial().lemma_bounds();
            lemma_pair_scale_bounds(self.initial().spec_size() as int);
        }
        let k = self.initial_solution.size();
        if k < 2 {
            1
        } else {
            (k * (k - 1) / 2) as u64
        }
    }

    /// The nodes form a tree over the vertices of the root solution, and
    /// their statistics are in range.
    pub open spec fn wf(&self) -> bool {
        &&& self.initial().wf()
        &&& self.spec_params().wf()
        &&& links_ok(self.spec_nodes(), self.initial()@.len() as int)
        &&& stats_ok(self.spec_nodes(), self.reward_scale())
    }

    /// A tree of one node, the root, for the solution `initial_solution`.
    pub fn new(initial_solution: &Solution<'g>, graph: &'g Graph, params: &'g Params) -> (t: Self)
        requires
            initial_solution.wf(),
            initial_solution.spec_graph() == graph,
            params.wf(),
        ensures
            t.wf(),
            t.spec_nodes().len() == 1,
            t.spec_nodes()[0].visits == 0,
            t.spec_nodes()[0].total_reward == 0,
            t.spec_nodes()[0].children@.len() == 0,
            t.initial()@ == initial_solution@,
            t.initial().spec_graph() == graph,
            t.initial().spec_size() == initial_solution.spec_size(),
            t.initial().spec_edges() == initial_solution.spec_edges(),
            t.spec_params() == params,
    {
        let root = MctsNode {
            parent: None,
            children: Vec::new(),
            visits: 0,
            total_reward: 0,
            vertex_removed: None,
            depth: 0,
        };
        let mut nodes: Vec<MctsNode> = Vec::new();
        nodes.push(root);
        let t = MctsTree { nodes, initial_solution: initial_solution.clone(), graph, params };
        proof {
            assert(t.spec_nodes()[0].children@.len() == 0);
            assert(t.initial().wf());
        }
        t
    }

    /// The path of removals that leads to node `idx`, by the way back to the
    /// root.
    pub fn path_of(&self, idx: usize) -> (path: Vec<usize>)
        requires
            self.wf(),
            idx < self.spec_nodes().len(),
        ensures
            path@ == path_to(self.spec_nodes(), idx as int),
            forall|i: int| 0 <= i < path@.len() ==> (#[trigger] path@[i]) < self.initial()@.len(),
    {
        let mut reversed: Vec<usize> = Vec::new();
        let mut current = idx;
        while current > 0
            invariant
                self.wf(),
                current <= idx,
                idx < self.spec_nodes().len(),
                path_to(self.spec_nodes(), idx as int) == path_to(self.spec_nodes(), current as int)
                    + reversed@.reverse(),
                forall|i: int|
                    0 <= i < reversed@.len() ==> (#[trigger] reversed@[i]) < self.initial()@.len(),
            decreases current,
        {
            assert(node_linked(self.spec_nodes(), current as int, self.initial()@.len() as int));
            let node = &self.nodes[current];
            let v = match node.vertex_removed {
                Some(v) => v,
                None => 0,
            };
            let p = match node.parent {
                Some(p) => p,
                None => 0,
            };
            proof {
                let before = reversed@;
                let after = before.push(v);
                assert(after.reverse() =~= seq![v] + before.reverse());
                assert(path_to(self.spec_nodes(), current as int) == path_to(self.spec_nodes(), p as int).push(
                    v,
                ));
                assert(path_to(self.spec_nodes(), p as int).push(v) + before.reverse() =~= path_to(
                    self.spec_nodes(),
                    p as int,
                ) + after.reverse());
            }
            reversed.push(v);
            current = p;
        }
        let mut path: Vec<usize> = Vec::new();
        let mut i: usize = reversed.len();
        while i > 0
            invariant
                i <= reversed@.len(),
                path@ == reversed@.reverse().take(reversed@.len() - i),
                forall|j: int|
                    0 <= j < reversed@.len() ==> (#[trigger] reversed@[j]) < self.initial()@.len(),
            decreases i,
        {
            i = i - 1;
            path.push(reversed[i]);
            proof {
                let r = reversed@.reverse();
                let k = reversed@.len() - i;
                assert(r.take(k) =~= r.take(k - 1).push(r[k - 1]));
            }
        }
        proof {
            assert(reversed@.reverse().take(reversed@.len() as int) =~= reversed@.reverse());
            assert(path_to(self.spec_nodes(), 0) =~= Seq::<usize>::empty());
            assert(Seq::<usize>::empty() + reversed@.reverse() =~= reversed@.reverse());
        }
        path
    }

    /// The statistics of node `child` as a child of a node with
    /// `parent_visits` visits.
    pub fn stats_of(&self, child: usize, parent_visits: u32) -> (s: ChildStats)
        requires
            self.wf(),
            child < self.spec_nodes().len(),
        ensures
            s.visits == self.spec_nodes()[child as int].visits,
            s.total_reward == self.spec_nodes()[child as int].total_reward,
            s.reward_scale == self.reward_scale(),
            s.parent_visits == parent_visits,
            s.exploration == self.spec_params().mcts_exploration_const,
            s == stats_at(
                self.spec_nodes(),
                child as int,
                self.reward_scale(),
                parent_visits,
                self.spec_params().mcts_exploration_const,
            ),
    {
        ChildStats {
            visits: self.nodes[child].visits,
            total_reward: self.nodes[child].total_reward,
            reward_scale: self.scale(),
            parent_visits,
            exploration: self.params.mcts_exploration_const,
        }
    }

    /// Walks from the root down to a node that has no child or lies at the
    /// depth limit. At each node a child without visits goes first, the last
    /// of several; where every child has been visited, the children are
    /// scanned in order and a child takes the lead from the leader that
    /// `better` does not put ahead of it. Returns the node reached and the
    /// removals that lead to it.
    pub fn select<F: Fn(ChildStats, ChildStats) -> bool>(&self, better: &F) -> (r: (
        usize,
        Vec<usize>,
    ))
        requires
            self.wf(),
            forall|a: ChildStats, b: ChildStats| call_requires(better, (a, b)),
        ensures
            r.0 < self.spec_nodes().len(),
            r.1@ == path_to(self.spec_nodes(), r.0 as int),
            forall|i: int| 0 <= i < r.1@.len() ==> (#[trigger] r.1@[i]) < self.initial()@.len(),
            self.spec_nodes()[r.0 as int].children@.len() == 0 || self.spec_nodes()[r.0 as int].depth
                >= self.spec_params().mcts_max_depth,
            forall|i: int|
                on_path(self.spec_nodes(), r.0 as int, i) && i != r.0 ==> self.spec_nodes()[i].children@.len() > 0
                    && self.spec_nodes()[i].depth < self.spec_params().mcts_max_depth,
            forall|j: int|
                1 <= j && #[trigger] on_path(self.spec_nodes(), r.0 as int, j) ==> is_selected_node(
                    self.spec_nodes(),
                    self.reward_scale(),
                    self.spec_params().mcts_exploration_const,
                    better,
                    j,
                ),
    {
        let mut current: usize = 0;
        let mut path: Vec<usize> = Vec::new();
        let ghost nodes = self.spec_nodes();
        let ghost scale = self.reward_scale();
        let ghost weight = self.spec_params().mcts_exploration_const;
        proof {
            assert(path_to(nodes, 0) =~= Seq::<usize>::empty());
            assert forall|i: int| on_path(nodes, 0, i) && i != 0 implies false by {}
        }
        loop
            invariant_except_break
                self.wf(),
                nodes == self.spec_nodes(),
                scale == self.reward_scale(),
                weight == self.spec_params().mcts_exploration_const,
                forall|a: ChildStats, b: ChildStats| call_requires(better, (a, b)),
                current < nodes.len(),
                path@ == path_to(nodes, current as int),
                forall|i: int| 0 <= i < path@.len() ==> (#[trigger] path@[i]) < self.initial()@.len(),
                forall|i: int|
                    on_path(nodes, current as int, i) && i != current ==> nodes[i].children@.len() > 0
                        && nodes[i].depth < self.spec_params().mcts_max_depth,
                forall|j: int|
                    1 <= j && #[trigger] on_path(nodes, current as int, j) ==> is_selected_node(
                        nodes,
                        scale,
                        weight,
                        better,
                        j,
                    ),
            ensures
                nodes == self.spec_nodes(),
                scale == self.reward_scale(),
                weight == self.spec_params().mcts_exploration_const,
                current < nodes.len(),
                path@ == path_to(nodes, current as int),
                forall|i: int| 0 <= i < path@.len() ==> (#[trigger] path@[i]) < self.initial()@.len(),
                nodes[current as int].children@.len() == 0 || nodes[current as int].depth
                    >= self.spec_params().mcts_max_depth,
                forall|i: int|
                    on_path(nodes, current as int, i) && i != current ==> nodes[i].children@.len() > 0
                        && nodes[i].depth < self.spec_params().mcts_max_depth,
                forall|j: int|
                    1 <= j && #[trigger] on_path(nodes, current as int, j) ==> is_selected_node(
                        nodes,
                        scale,
                        weight,
                        better,
                        j,
                    ),
            decreases nodes.len() - current,
        {
            let node = &self.nodes[current];
            if node.children.len() == 0 || node.depth >= self.params.mcts_max_depth {
                break ;
            }
            let parent_visits = node.visits;
            let mut best: usize = node.children[0].1;
            let mut best_at: usize = 0;
            assert(child_linked(nodes, current as int, 0));
            let mut c: usize = 1;
            while c < node.children.len()
                invariant
                    self.wf(),
                    nodes == self.spec_nodes(),
                    scale == self.reward_scale(),
                    weight == self.spec_params().mcts_exploration_const,
                    forall|a: ChildStats, b: ChildStats| call_requires(better, (a, b)),
                    current < nodes.len(),
                    *node == nodes[current as int],
                    parent_visits == nodes[current as int].visits,
                    1 <= c <= node.children@.len(),
                    best_at < c,
                    best == node.children@[best_at as int].1,
                    current < best < nodes.len(),
                    forall|later: int|
                        best_at < later < c ==> #[trigger] entry_visited(nodes, current as int, later),
                    entry_visited(nodes, current as int, best_at as int) ==> forall|seen: int|
                        0 <= seen < c ==> #[trigger] entry_visited(nodes, current as int, seen),
                    entry_visited(nodes, current as int, best_at as int) ==> forall|later: int|
                        best_at < later < c ==> #[trigger] compared(
                            nodes,
                            scale,
                            weight,
                            better,
                            current as int,
                            best_at as int,
                            later,
                            true,
                        ),
                    entry_visited(nodes, current as int, best_at as int) && best_at > 0 ==> exists|
                        e: int,
                    |
                        0 <= e < best_at && #[trigger] compared(
                            nodes,
                            scale,
                            weight,
                            better,
                            current as int,
                            e,
                            best_at as int,
                            false,
                        ),
                decreases node.children@.len() - c,
            {
                let cand = node.children[c].1;
                assert(child_linked(nodes, current as int, c as int));
                let keep = if self.nodes[cand].visits == 0 {
                    false
                } else if self.nodes[best].visits == 0 {
                    true
                } else {
                    let kept = better(
                        self.stats_of(best, parent_visits),
                        self.stats_of(cand, parent_visits),
                    );
                    assert(compared(
                        nodes,
                        scale,
                        weight,
                        better,
                        current as int,
                        best_at as int,
                        c as int,
                        kept,
                    ));
                    kept
                };
                if !keep {
                    best = cand;
                    best_at = c;
                }
                c = c + 1;
            }
            assert(child_linked(nodes, current as int, best_at as int));
            let v = match self.nodes[best].vertex_removed {
                Some(v) => v,
                None => 0,
            };
            proof {
                assert(node_linked(nodes, best as int, self.initial()@.len() as int));
                assert(path_to(nodes, best as int) == path_to(nodes, current as int).push(v));
                assert forall|i: int| on_path(nodes, best as int, i) && i != best implies nodes[i].children@.len()
                    > 0 && nodes[i].depth < self.spec_params().mcts_max_depth by {
                    assert(on_path(nodes, current as int, i));
                }
                assert(is_selected_entry(nodes, scale, weight, better, current as int, best_at as int));
                assert forall|j: int| 1 <= j && #[trigger] on_path(nodes, best as int, j) implies is_selected_node(
                    nodes,
                    scale,
                    weight,
                    better,
                    j,
                ) by {
                    if j != best {
                        assert(on_path(nodes, current as int, j));
                    }
                }
            }
            path.push(v);
            current = best;
        }
        (current, path)
    }

    /// Records one simulation with the given reward at node `start_idx` and
    /// at every node above it.
    pub fn backpropagate(&mut self, start_idx: usize, reward: u128)
        requires
            old(self).wf(),
            start_idx < old(self).spec_nodes().len(),
            reward <= 2 * old(self).reward_scale(),
            old(self).spec_nodes()[0].visits < u32::MAX,
        ensures
            final(self).wf(),
            final(self).initial() == old(self).initial(),
            final(self).spec_params() == old(self).spec_params(),
            final(self).spec_nodes().len() == old(self).spec_nodes().len(),
            forall|i: int|
                0 <= i < old(self).spec_nodes().len() ==> {
                    let before = #[trigger] old(self).spec_nodes()[i];
                    let after = final(self).spec_nodes()[i];
                    &&& after.parent == before.parent
                    &&& after.children == before.children
                    &&& after.vertex_removed == before.vertex_removed
                    &&& after.depth == before.depth
                    &&& on_path(old(self).spec_nodes(), start_idx as int, i) ==> after.visits
                        == before.visits + 1 && after.total_reward == before.total_reward + reward
                    &&& !on_path(old(self).spec_nodes(), start_idx as int, i) ==> after.visits
                        == before.visits && after.total_reward == before.total_reward
                },
    {
        let ghost scale = self.reward_scale();
        let ghost n = self.initial()@.len() as int;
        let mut current = start_idx;
        let mut going = true;
        proof {
            self.initial().lemma_bounds();
            lemma_pair_scale_bounds(self.initial().spec_size() as int);
            assert forall|i: int| on_path(self.spec_nodes(), start_idx as int, i) implies i
                <= start_idx by {
                lemma_on_path_bound(self.spec_nodes(), start_idx as int, i, n);
            }
        }
        while going
            invariant
                n == old(self).initial()@.len(),
                self.initial() == old(self).initial(),
                self.spec_params() == old(self).spec_params(),
                self.initial().wf(),
                self.spec_params().wf(),
                scale == self.reward_scale(),
                0 < scale <= 0xFFFF_FFFF_FFFF_FFFF,
                reward <= 2 * scale,
                old(self).wf(),
                self.spec_nodes().len() == old(self).spec_nodes().len(),
                current <= start_idx,
                start_idx < self.spec_nodes().len(),
                going ==> on_path(old(self).spec_nodes(), start_idx as int, current as int),
                old(self).spec_nodes()[0].visits < u32::MAX,
                forall|i: int|
                    0 <= i < old(self).spec_nodes().len() ==> {
                        let before = #[trigger] old(self).spec_nodes()[i];
                        let after = self.spec_nodes()[i];
                        &&& after.parent == before.parent
                        &&& after.children == before.children
                        &&& after.vertex_removed == before.vertex_removed
                        &&& after.depth == before.depth
                        &&& on_path(old(self).spec_nodes(), start_idx as int, i) && (i > current || !going)
                            ==> after.visits == before.visits + 1 && after.total_reward
                            == before.total_reward + reward
                        &&& !(on_path(old(self).spec_nodes(), start_idx as int, i) && (i > current
                            || !going)) ==> after.visits == before.visits && after.total_reward
                            == before.total_reward
                    },
            decreases current + if going { 1int } else { 0int },
        {
            let ghost before_nodes = self.spec_nodes();
            proof {
                let seen_before = old(self).spec_nodes()[current as int].visits as int;
                assert(seen_before <= old(self).spec_nodes()[0].visits);
                assert(2 * scale * (seen_before + 1) <= 2 * 0xFFFF_FFFF_FFFF_FFFF * 0x1_0000_0000)
                    by (nonlinear_arith)
                    requires
                        0 < scale <= 0xFFFF_FFFF_FFFF_FFFF,
                        0 <= seen_before < 0xFFFF_FFFF,
                ;
                assert(2 * scale * (seen_before + 1) == 2 * scale * seen_before + 2 * scale)
                    by (nonlinear_arith);
            }
            let visits = self.nodes[current].visits;
            let total = self.nodes[current].total_reward;
            self.nodes[current].visits = visits + 1;
            self.nodes[current].total_reward = total + reward;
            let parent = self.nodes[current].parent;
            let ghost at = current as int;
            proof {
                lemma_on_path_above(old(self).spec_nodes(), start_idx as int, at, n);
                assert(self.spec_nodes().len() == before_nodes.len());
                assert(forall|j: int|
                    0 <= j < before_nodes.len() && j != at ==> self.spec_nodes()[j]
                        == before_nodes[j]);
                assert(self.spec_nodes()[at].parent == before_nodes[at].parent);
                assert(self.spec_nodes()[at].children == before_nodes[at].children);
                assert(self.spec_nodes()[at].vertex_removed == before_nodes[at].vertex_removed);
                assert(self.spec_nodes()[at].depth == before_nodes[at].depth);
                assert(self.spec_nodes()[at].visits == before_nodes[at].visits + 1);
                assert(self.spec_nodes()[at].total_reward == before_nodes[at].total_reward + reward);
                assert(before_nodes[at].visits == old(self).spec_nodes()[at].visits);
                if at > 0 {
                    assert(node_linked(old(self).spec_nodes(), at, n));
                }
            }
            match parent {
                Some(p) => {
                    if p < current {
                        current = p;
                    } else {
                        going = false;
                    }
                },
                None => {
                    going = false;
                },
            }
            proof {
                assert forall|i: int| 0 <= i < old(self).spec_nodes().len() implies {
                    let before = #[trigger] old(self).spec_nodes()[i];
                    let after = self.spec_nodes()[i];
                    &&& after.parent == before.parent
                    &&& after.children == before.children
                    &&& after.vertex_removed == before.vertex_removed
                    &&& after.depth == before.depth
                    &&& on_path(old(self).spec_nodes(), start_idx as int, i) && (i > current || !going)
                        ==> after.visits == before.visits + 1 && after.total_reward
                        == before.total_reward + reward
                    &&& !(on_path(old(self).spec_nodes(), start_idx as int, i) && (i > current
                        || !going)) ==> after.visits == before.visits && after.total_reward
                        == before.total_reward
                } by {
                    if i != at {
                        assert(self.spec_nodes()[i] == before_nodes[i]);
                    }
                }
            }
        }
        proof {
            lemma_bumped_tree_ok(old(self).spec_nodes(), self.spec_nodes(), start_idx as int, reward as int, scale, n);
        }
    }
}

/// On the way from the root to `from`, the nodes above `i` are those on the
/// way to the parent of `i`, and nothing between a node and its parent lies
/// on the way.
pub proof fn lemma_on_path_above(nodes: Seq<MctsNode>, from: int, i: int, n: int)
    requires
        links_ok(nodes, n),
        0 <= i <= from < nodes.len(),
        on_path(nodes, from, i),
    ensures
        i > 0 ==> on_path(nodes, from, nodes[i].parent->Some_0 as int),
        forall|j: int|
            on_path(nodes, from, j) && j < i ==> i > 0 && j <= nodes[i].parent->Some_0,
        on_path(nodes, from, 0),
    decreases from,
{
    if from != i {
        assert(node_linked(nodes, from, n));
        let p = nodes[from].parent->Some_0 as int;
        lemma_on_path_bound(nodes, p, i, n);
        lemma_on_path_above(nodes, p, i, n);
        assert forall|j: int| on_path(nodes, from, j) && j < i implies i > 0 && j
            <= nodes[i].parent->Some_0 by {
            assert(on_path(nodes, p, j));
        }
    } else {
        if i > 0 {
            assert(node_linked(nodes, i, n));
            let p = nodes[i].parent->Some_0 as int;
            assert(on_path(nodes, p, p));
            lemma_on_path_root(nodes, p, n);
            assert forall|j: int| on_path(nodes, from, j) && j < i implies j <= p by {
                lemma_on_path_bound(nodes, p, j, n);
            }
        }
    }
}

/// The root lies on the way to every node.
pub proof fn lemma_on_path_root(nodes: Seq<MctsNode>, from: int, n: int)
    requires
        links_ok(nodes, n),
        0 <= from < nodes.len(),
    ensures
        on_path(nodes, from, 0),
    decreases from,
{
    if from > 0 {
        assert(node_linked(nodes, from, n));
        lemma_on_path_root(nodes, nodes[from].parent->Some_0 as int, n);
    }
}

/// A node on the way to `from` does not come after `from`.
pub proof fn lemma_on_path_bound(nodes: Seq<MctsNode>, from: int, j: int, n: int)
    requires
        links_ok(nodes, n),
        0 <= from < nodes.len(),
        on_path(nodes, from, j),
    ensures
        0 <= j <= from,
    decreases from,
{
    if from != j {
        assert(node_linked(nodes, from, n));
        lemma_on_path_bound(nodes, nodes[from].parent->Some_0 as int, j, n);
    }
}

/// A tree whose nodes on one way to the root have each gained one visit and
/// the same reward is still a tree with statistics in range.
pub proof fn lemma_bumped_tree_ok(
    before: Seq<MctsNode>,
    after: Seq<MctsNode>,
    start: int,
    reward: int,
    scale: int,
    n: int,
)
    requires
        links_ok(before, n),
        stats_ok(before, scale),
        0 <= start < before.len(),
        after.len() == before.len(),
        0 <= reward <= 2 * scale,
        forall|i: int|
            0 <= i < before.len() ==> {
                let b = #[trigger] before[i];
                let a = after[i];
                &&& a.parent == b.parent
                &&& a.children == b.children
                &&& a.vertex_removed == b.vertex_removed
                &&& a.depth == b.depth
                &&& on_path(before, start, i) ==> a.visits == b.visits + 1 && a.total_reward
                    == b.total_reward + reward
                &&& !on_path(before, start, i) ==> a.visits == b.visits && a.total_reward
                    == b.total_reward
            },
    ensures
        links_ok(after, n),
        stats_ok(after, scale),
{
    lemma_on_path_root(before, start, n);
    assert forall|i: int| 1 <= i < after.len() implies #[trigger] node_linked(after, i, n) by {
        assert(node_linked(before, i, n));
        assert(before[i].parent == after[i].parent);
        let p = before[i].parent->Some_0 as int;
        assert(before[p].depth == after[p].depth);
    }
    assert forall|i: int, c: int|
        0 <= i < after.len() && 0 <= c < after[i].children@.len() implies #[trigger] child_linked(
        after,
        i,
        c,
    ) by {
        assert(before[i].children == after[i].children);
        assert(child_linked(before, i, c));
        let k = before[i].children@[c].1 as int;
        assert(before[k].parent == after[k].parent);
    }
    assert forall|i: int| 0 <= i < after.len() implies (#[trigger] after[i]).depth <= i by {
        assert(before[i].depth == after[i].depth);
    }
    assert forall|i: int| 0 <= i < after.len() implies keys_distinct(
        (#[trigger] after[i]).children@,
    ) by {
        assert(before[i].children == after[i].children);
        assert(keys_distinct(before[i].children@));
    }
    assert forall|i: int| 1 <= i < after.len() implies #[trigger] listed(after, i) by {
        assert(listed(before, i));
        assert(node_linked(before, i, n));
        let p = before[i].parent->Some_0 as int;
        assert(before[i].parent == after[i].parent);
        assert(before[i].vertex_removed == after[i].vertex_removed);
        assert(before[p].children == after[p].children);
        let c = choose|c: int|
            0 <= c < before[p].children@.len() && #[trigger] before[p].children@[c] == (
                before[i].vertex_removed->Some_0,
                i as usize,
            );
        assert(after[p].children@[c] == (after[i].vertex_removed->Some_0, i as usize));
    }
    assert forall|i: int| 0 <= i < after.len() implies (#[trigger] after[i]).visits
        <= after[0].visits && after[i].total_reward <= 2 * scale * after[i].visits by {
        assert(before[i].visits <= before[0].visits);
        assert(before[0].visits + 1 == after[0].visits);
        assert(2 * scale * (before[i].visits + 1) == 2 * scale * before[i].visits + 2 * scale)
            by (nonlinear_arith);
    }
}

/// Some entry of `tried` removes `v`.
pub open spec fn has_key(tried: Seq<(usize, usize)>, v: usize) -> bool {
    exists|c: int| 0 <= c < tried.len() && (#[trigger] tried[c]).0 == v
}

/// `v` may be the next removal below a node with the children `tried`, for
/// the partial solution `s`: it is a member that no child removes yet, and it
/// has at most `threshold` inner neighbours unless no such member is left.
pub open spec fn is_expansion_pick(
    g: Seq<Seq<bool>>,
    s: Seq<bool>,
    threshold: int,
    tried: Seq<(usize, usize)>,
    v: int,
) -> bool {
    &&& 0 <= v < s.len()
    &&& s[v]
    &&& !has_key(tried, v as usize)
    &&& conn(g, s, v) <= threshold || forall|u: int|
        0 <= u < s.len() && s[u] && !has_key(tried, u as usize) ==> threshold < #[trigger] conn(
            g,
            s,
            u,
        )
}

/// The tree `after` is the tree `before` with one node more: node `r`, which
/// hangs below `parent` and removes `v`. Every other node is as it was.
pub open spec fn attached(
    before: Seq<MctsNode>,
    after: Seq<MctsNode>,
    parent: int,
    v: usize,
    r: int,
) -> bool {
    &&& r == before.len()
    &&& after.len() == before.len() + 1
    &&& forall|i: int| 0 <= i < before.len() && i != parent ==> after[i] == before[i]
    &&& after[parent].parent == before[parent].parent
    &&& after[parent].visits == before[parent].visits
    &&& after[parent].total_reward == before[parent].total_reward
    &&& after[parent].vertex_removed == before[parent].vertex_removed
    &&& after[parent].depth == before[parent].depth
    &&& after[parent].children@ == before[parent].children@.push((v, r as usize))
    &&& after[r].parent == Some(parent as usize)
    &&& after[r].children@.len() == 0
    &&& after[r].vertex_removed == Some(v)
    &&& after[r].depth == before[parent].depth + 1
}

/// The tree `after` is the tree `before` with one node more, which has no
/// visit yet.
pub open spec fn grown(
    before: Seq<MctsNode>,
    after: Seq<MctsNode>,
    parent: int,
    v: usize,
    r: int,
) -> bool {
    &&& attached(before, after, parent, v, r)
    &&& after[r].visits == 0
    &&& after[r].total_reward == 0
}

/// A tree that has grown by one node with no visit is still a tree with
/// statistics in range.
pub proof fn lemma_grown_tree_ok(
    before: Seq<MctsNode>,
    after: Seq<MctsNode>,
    parent: int,
    v: usize,
    r: int,
    n: int,
    scale: int,
)
    requires
        links_ok(before, n),
        stats_ok(before, scale),
        0 <= parent < before.len() < usize::MAX,
        v < n,
        !has_key(before[parent].children@, v),
        grown(before, after, parent, v, r),
    ensures
        links_ok(after, n),
        stats_ok(after, scale),
{
    lemma_attached_links_ok(before, after, parent, v, r, n);
    assert forall|i: int| 0 <= i < after.len() implies (#[trigger] after[i]).visits
        <= after[0].visits && after[i].total_reward <= 2 * scale * after[i].visits by {
        if i < before.len() {
            assert(before[i].visits <= before[0].visits);
            if i != parent {
                assert(after[i] == before[i]);
            }
            if 0 != parent {
                assert(after[0] == before[0]);
            }
        }
    }
}

/// A tree to which one node has been attached is still a tree.
pub proof fn lemma_attached_links_ok(
    before: Seq<MctsNode>,
    after: Seq<MctsNode>,
    parent: int,
    v: usize,
    r: int,
    n: int,
)
    requires
        links_ok(before, n),
        0 <= parent < before.len() < usize::MAX,
        v < n,
        !has_key(before[parent].children@, v),
        attached(before, after, parent, v, r),
    ensures
        links_ok(after, n),
{
    assert forall|i: int| 0 <= i < after.len() implies keys_distinct(
        (#[trigger] after[i]).children@,
    ) by {
        if i == parent {
            let kids = before[parent].children@;
            assert(keys_distinct(kids));
            assert forall|c1: int, c2: int| 0 <= c1 < c2 < after[i].children@.len() implies (
            #[trigger] after[i].children@[c1]).0 != (#[trigger] after[i].children@[c2]).0 by {
                assert(after[i].children@[c1] == kids[c1]);
                if c2 < kids.len() {
                    assert(after[i].children@[c2] == kids[c2]);
                } else {
                    assert(after[i].children@[c2] == (v, r as usize));
                    assert(kids[c1].0 != v);
                }
            }
        } else if i < before.len() {
            assert(after[i] == before[i]);
            assert(keys_distinct(before[i].children@));
        }
    }
    assert forall|i: int| 1 <= i < after.len() implies #[trigger] listed(after, i) by {
        if i < before.len() {
            assert(listed(before, i));
            assert(node_linked(before, i, n));
            let p = before[i].parent->Some_0 as int;
            if i != parent {
                assert(after[i] == before[i]);
            }
            let c = choose|c: int|
                0 <= c < before[p].children@.len() && #[trigger] before[p].children@[c] == (
                    before[i].vertex_removed->Some_0,
                    i as usize,
                );
            if p == parent {
                assert(after[p].children@[c] == before[p].children@[c]);
            } else {
                assert(after[p] == before[p]);
            }
            assert(after[p].children@[c] == (after[i].vertex_removed->Some_0, i as usize));
        } else {
            let c = before[parent].children@.len() as int;
            assert(after[parent].children@[c] == (v, r as usize));
        }
    }
    assert forall|i: int| 0 <= i < after.len() implies (#[trigger] after[i]).depth <= i by {
        if i < before.len() {
            assert(before[i].depth <= i);
        } else {
            assert(before[parent].depth <= parent);
        }
    }
    assert forall|i: int| 0 <= i < before.len() implies (#[trigger] after[i]).parent
        == before[i].parent && after[i].depth == before[i].depth && after[i].vertex_removed
        == before[i].vertex_removed by {
        if i != parent {
            assert(after[i] == before[i]);
        }
    }
    assert forall|i: int| 1 <= i < after.len() implies #[trigger] node_linked(after, i, n) by {
        if i < before.len() {
            assert(node_linked(before, i, n));
            let p = before[i].parent->Some_0 as int;
            assert(after[i].parent == before[i].parent);
            assert(after[p].depth == before[p].depth);
        } else {
            assert(after[i].parent == Some(parent as usize));
            assert(after[parent].depth == before[parent].depth);
        }
    }
    assert forall|i: int, c: int|
        0 <= i < after.len() && 0 <= c < after[i].children@.len() implies #[trigger] child_linked(
        after,
        i,
        c,
    ) by {
        if i == parent {
            let old_len = before[parent].children@.len() as int;
            if c == old_len {
                assert(after[parent].children@[c] == (v, r as usize));
            } else {
                assert(after[parent].children@[c] == before[parent].children@[c]);
                assert(child_linked(before, i, c));
                let k = before[i].children@[c].1 as int;
                assert(after[k].parent == before[k].parent);
            }
        } else {
            assert(i < before.len());
            assert(after[i] == before[i]);
            assert(child_linked(before, i, c));
            let k = before[i].children@[c].1 as int;
            assert(after[k].parent == before[k].parent);
        }
    }
}

/// Whether some entry of `tried` removes `v`.
pub fn key_tried(tried: &Vec<(usize, usize)>, v: usize) -> (b: bool)
    ensures
        b == has_key(tried@, v),
{
    let mut c: usize = 0;
    while c < tried.len()
        invariant
            c <= tried@.len(),
            forall|x: int| 0 <= x < c ==> (#[trigger] tried@[x]).0 != v,
        decreases tried@.len() - c,
    {
        if tried[c].0 == v {
            return true;
        }
        c = c + 1;
    }
    false
}

/// The members of `current` that may be removed next below a node with the
/// children `tried`.
pub fn expansion_pool<'g>(
    current: &Solution<'g>,
    tried: &Vec<(usize, usize)>,
    threshold: usize,
) -> (pool: Vec<usize>)
    requires
        current.wf(),
    ensures
        forall|v: usize| #[trigger]
            pool@.contains(v) <==> is_expansion_pick(
                current.spec_graph()@,
                current@,
                threshold as int,
                tried@,
                v as int,
            ),
        crate::select::is_increasing(pool@),
{
    let n = current.graph().n();
    let mut critical: Vec<usize> = Vec::new();
    let mut untried: Vec<usize> = Vec::new();
    let ghost g = current.spec_graph()@;
    let mut v: usize = 0;
    while v < n
        invariant
            v <= n,
            n == current@.len(),
            current.wf(),
            g == current.spec_graph()@,
            forall|w: usize| #[trigger]
                untried@.contains(w) <==> (w < v && current@[w as int] && !has_key(tried@, w)),
            forall|w: usize| #[trigger]
                critical@.contains(w) <==> (w < v && current@[w as int] && !has_key(tried@, w)
                    && conn(g, current@, w as int) <= threshold),
            forall|i: int| 0 <= i < untried@.len() ==> untried@[i] < v,
            forall|i: int| 0 <= i < critical@.len() ==> critical@[i] < v,
            crate::select::is_increasing(untried@),
            crate::select::is_increasing(critical@),
        decreases n - v,
    {
        let ghost untried_before = untried@;
        let ghost critical_before = critical@;
        let open = current.contains(v) && !key_tried(tried, v);
        let mut low = false;
        if open {
            untried.push(v);
            low = current.count_connections(v) <= threshold;
            proof {
                lemma_push_contains(untried_before, v);
            }
        }
        if low {
            critical.push(v);
            proof {
                lemma_push_contains(critical_before, v);
            }
        }
        proof {
            assert forall|w: usize| #[trigger]
                untried@.contains(w) <==> (w < v + 1 && current@[w as int] && !has_key(
                    tried@,
                    w,
                )) by {
                assert(untried_before.contains(w) <==> (w < v && current@[w as int] && !has_key(
                    tried@,
                    w,
                )));
                if open {
                    assert(untried@ == untried_before.push(v));
                    assert(untried@.contains(w) <==> untried_before.contains(w) || w == v);
                } else {
                    assert(untried@ == untried_before);
                }
            }
            assert forall|w: usize| #[trigger]
                critical@.contains(w) <==> (w < v + 1 && current@[w as int] && !has_key(tried@, w)
                    && conn(g, current@, w as int) <= threshold) by {
                assert(critical_before.contains(w) <==> (w < v && current@[w as int] && !has_key(
                    tried@,
                    w,
                ) && conn(g, current@, w as int) <= threshold));
                if low {
                    assert(critical@ == critical_before.push(v));
                    assert(critical@.contains(w) <==> critical_before.contains(w) || w == v);
                } else {
                    assert(critical@ == critical_before);
                }
            }
        }
        v = v + 1;
    }
    if critical.len() > 0 {
        proof {
            let w0 = critical@[0];
            assert(critical@.contains(w0));
            assert forall|w: usize| #[trigger]
                critical@.contains(w) <==> is_expansion_pick(
                    g,
                    current@,
                    threshold as int,
                    tried@,
                    w as int,
                ) by {
                assert(critical@.contains(w) <==> (w < v && current@[w as int] && !has_key(
                    tried@,
                    w,
                ) && conn(g, current@, w as int) <= threshold));
                if is_expansion_pick(g, current@, threshold as int, tried@, w as int) {
                    if conn(g, current@, w as int) > threshold {
                        assert(threshold < conn(g, current@, w0 as int));
                    }
                }
            }
        }
        critical
    } else {
        proof {
            assert forall|w: usize| #[trigger]
                untried@.contains(w) <==> is_expansion_pick(
                    g,
                    current@,
                    threshold as int,
                    tried@,
                    w as int,
                ) by {
                assert(untried@.contains(w) <==> (w < v && current@[w as int] && !has_key(
                    tried@,
                    w,
                )));
                if untried@.contains(w) {
                    assert forall|u: int|
                        0 <= u < current@.len() && current@[u] && !has_key(
                            tried@,
                            u as usize,
                        ) implies threshold < #[trigger] conn(g, current@, u) by {
                        if conn(g, current@, u) <= threshold {
                            assert(critical@.contains(u as usize));
                            let t = choose|t: int|
                                0 <= t < critical@.len() && critical@[t] == u as usize;
                        }
                    }
                }
            }
        }
        untried
    }
}

impl<'g> MctsTree<'g> {
    /// Adds one node below `node_idx`, for a vertex drawn at random from the
    /// members of the partial solution that may be removed next. `path` holds
    /// the removals that lead to `node_idx`. Nothing is added, and `node_idx`
    /// is returned, exactly where the node has no visit yet, lies at the depth
    /// limit, or has no member left that none of its children removes.
    pub fn expand(&mut self, node_idx: usize, path: &[usize], rng: &mut StdRng) -> (r: usize)
        requires
            old(self).wf(),
            node_idx < old(self).spec_nodes().len(),
            forall|i: int|
                0 <= i < path@.len() ==> (#[trigger] path@[i]) < old(self).initial()@.len(),
        ensures
            final(self).wf(),
            final(self).initial() == old(self).initial(),
            final(self).spec_params() == old(self).spec_params(),
            r < final(self).spec_nodes().len(),
            r == node_idx ==> final(self).spec_nodes() == old(self).spec_nodes(),
            r == node_idx <==> old(self).spec_nodes()[node_idx as int].visits == 0 || old(
                self,
            ).spec_nodes()[node_idx as int].depth >= old(self).spec_params().mcts_max_depth
                || !has_untried_member(
                without(old(self).initial()@, path@, path@.len() as int),
                old(self).spec_nodes()[node_idx as int].children@,
            ),
            r != node_idx ==> exists|v: usize|
                grown(old(self).spec_nodes(), final(self).spec_nodes(), node_idx as int, v, r as int)
                    && is_expansion_pick(
                    old(self).initial().spec_graph()@,
                    without(old(self).initial()@, path@, path@.len() as int),
                    old(self).spec_params().gamma_target.floor_of(
                        crate::bits::count_true(
                            without(old(self).initial()@, path@, path@.len() as int),
                            old(self).initial()@.len() as int,
                        ) - 1,
                    ),
                    old(self).spec_nodes()[node_idx as int].children@,
                    v as int,
                ),
            final(self).spec_nodes()[0].visits == old(self).spec_nodes()[0].visits,
    {
        if self.nodes[node_idx].visits == 0 || self.nodes[node_idx].depth
            >= self.params.mcts_max_depth {
            return node_idx;
        }
        let mut current = self.initial_solution.clone();
        remove_all(&mut current, path);
        let ghost tried = self.spec_nodes()[node_idx as int].children@;
        if current.size() == 0 {
            proof {
                if has_untried_member(current@, tried) {
                    let m = choose|m: int|
                        0 <= m < current@.len() && #[trigger] current@[m] && !has_key(
                            tried,
                            m as usize,
                        );
                    crate::bits::lemma_count_true_witness(current@, m, current@.len() as int);
                }
            }
            return node_idx;
        }
        let n_now = current.graph().n();
        proof {
            current.lemma_bounds();
            crate::graph::lemma_square_bounds_row(n_now);
            lemma_floor_monotone(
                self.params.gamma_target,
                current.spec_size() - 1,
                current.spec_size() - 1,
            );
        }
        let threshold = self.params.gamma_target.floor_times((current.size() - 1) as u64) as usize;
        let pool = expansion_pool(&current, &self.nodes[node_idx].children, threshold);
        let v = match pick_one(rng, &pool) {
            Some(v) => v,
            None => {
                proof {
                    if has_untried_member(current@, tried) {
                        lemma_expansion_pick_exists(
                            current.spec_graph()@,
                            current@,
                            threshold as int,
                            tried,
                        );
                        let w = choose|w: int|
                            is_expansion_pick(
                                current.spec_graph()@,
                                current@,
                                threshold as int,
                                tried,
                                w,
                            );
                        assert(pool@.contains(w as usize));
                    }
                }
                return node_idx;
            },
        };
        assert(pool@.contains(v));
        assert(current@[v as int] && !has_key(tried, v));
        assert(has_untried_member(current@, tried));
        let ghost before = self.spec_nodes();
        let ghost n = self.initial()@.len() as int;
        assert(before[node_idx as int].depth <= node_idx);
        let depth = self.nodes[node_idx].depth;
        let new_idx = self.nodes.len();
        let node = MctsNode {
            parent: Some(node_idx),
            children: Vec::new(),
            visits: 0,
            total_reward: 0,
            vertex_removed: Some(v),
            depth: depth + 1,
        };
        self.nodes.push(node);
        self.nodes[node_idx].children.push((v, new_idx));
        let grown_len = self.nodes.len();
        proof {
            assert(before.len() + 1 == grown_len);
            assert(grown(before, self.spec_nodes(), node_idx as int, v, new_idx as int));
            lemma_grown_tree_ok(
                before,
                self.spec_nodes(),
                node_idx as int,
                v,
                new_idx as int,
                n,
                self.reward_scale(),
            );
        }
        new_idx
    }

    /// Repairs the root solution after the removals that lead to node
    /// `from_node_idx` and returns the reward of the repaired solution.
    pub fn rollout(&self, from_node_idx: usize, rng: &mut StdRng) -> (reward: u128)
        requires
            self.wf(),
            from_node_idx < self.spec_nodes().len(),
        ensures
            reward <= 2 * self.reward_scale(),
            is_rollout_reward(
                self.initial(),
                self.spec_params(),
                path_to(self.spec_nodes(), from_node_idx as int),
                reward as int,
            ),
    {
        let path = self.path_of(from_node_idx);
        let repaired = apply_lns(&self.initial_solution, path.as_slice(), self.params, rng);
        let feasible = repaired.is_gamma_feasible(&self.params.gamma_target);
        let scale = self.scale();
        proof {
            repaired.lemma_bounds();
            lemma_pair_scale_bounds(repaired.spec_size() as int);
        }
        let edges = repaired.edges() as u128;
        let reward = if feasible { edges + scale as u128 } else { edges };
        proof {
            assert(reward == reward_of(
                self.initial().spec_size() as int,
                repaired.spec_edges() as int,
                self.spec_params().gamma_target,
            ));
            assert(is_reward_of_repair(
                self.initial(),
                self.spec_params(),
                path_to(self.spec_nodes(), from_node_idx as int),
                reward as int,
                repaired,
            ));
        }
        reward
    }

    /// Runs `budget` simulations: select a node, expand it, repair the
    /// solution of the new node, and record the reward on the way back.
    pub fn run_simulations<F: Fn(ChildStats, ChildStats) -> bool>(
        &mut self,
        budget: usize,
        rng: &mut StdRng,
        better: &F,
    )
        requires
            old(self).wf(),
            old(self).spec_nodes()[0].visits + budget <= u32::MAX,
            forall|a: ChildStats, b: ChildStats| call_requires(better, (a, b)),
        ensures
            final(self).wf(),
            final(self).initial() == old(self).initial(),
            final(self).spec_params() == old(self).spec_params(),
            final(self).spec_nodes()[0].visits == old(self).spec_nodes()[0].visits + budget,
            old(self).spec_nodes().len() <= final(self).spec_nodes().len() <= old(
                self,
            ).spec_nodes().len() + budget,
            exists|trees: Seq<Seq<MctsNode>>| #[trigger]
                are_simulations(
                    old(self).spec_nodes(),
                    old(self).initial(),
                    old(self).spec_params(),
                    better,
                    budget as int,
                    final(self).spec_nodes(),
                    trees,
                ),
    {
        let mut done: usize = 0;
        let ghost mut trees: Seq<Seq<MctsNode>> = seq![self.spec_nodes()];
        let ghost initial = self.initial();
        let ghost p = self.spec_params();
        while done < budget
            invariant
                done <= budget,
                self.wf(),
                self.initial() == old(self).initial(),
                self.spec_params() == old(self).spec_params(),
                initial == old(self).initial(),
                p == old(self).spec_params(),
                old(self).spec_nodes()[0].visits + budget <= u32::MAX,
                self.spec_nodes()[0].visits == old(self).spec_nodes()[0].visits + done,
                old(self).spec_nodes().len() <= self.spec_nodes().len() <= old(
                    self,
                ).spec_nodes().len() + done,
                forall|a: ChildStats, b: ChildStats| call_requires(better, (a, b)),
                are_simulations(
                    old(self).spec_nodes(),
                    initial,
                    p,
                    better,
                    done as int,
                    self.spec_nodes(),
                    trees,
                ),
            decreases budget - done,
        {
            let ghost before = self.spec_nodes();
            let ghost trees_before = trees;
            let (leaf, path) = self.select(better);
            assert(is_selection(before, p, self.reward_scale(), better, leaf as int));
            let node = self.expand(leaf, path.as_slice(), rng);
            let ghost mid = self.spec_nodes();
            assert(is_expansion(before, initial, p, leaf as int, mid, node as int));
            let reward = self.rollout(node, rng);
            proof {
                lemma_on_path_root(
                    self.spec_nodes(),
                    node as int,
                    self.initial()@.len() as int,
                );
            }
            self.backpropagate(node, reward);
            done = done + 1;
            proof {
                let after = self.spec_nodes();
                assert(is_backpropagation(mid, node as int, reward as int, after));
                assert(is_simulation_by(
                    before,
                    initial,
                    p,
                    better,
                    after,
                    leaf as int,
                    mid,
                    node as int,
                    reward as int,
                ));
                trees = trees_before.push(after);
                let at = done - 1;
                assert(trees[at] == before && trees[at + 1] == after);
                assert(is_simulation_at(trees, initial, p, better, at));
                assert forall|i: int| 0 <= i < done implies #[trigger] is_simulation_at(
                    trees,
                    initial,
                    p,
                    better,
                    i,
                ) by {
                    if i < at {
                        assert(is_simulation_at(trees_before, initial, p, better, i));
                        assert(trees[i] == trees_before[i] && trees[i + 1] == trees_before[i + 1]);
                    }
                }
            }
        }
    }

    /// Runs the simulations that the parameters ask for and returns the
    /// removal sequence with the best average reward.
    pub fn run<F: Fn(ChildStats, ChildStats) -> bool>(&mut self, rng: &mut StdRng, better: &F) -> (seq:
        Vec<usize>)
        requires
            old(self).wf(),
            old(self).spec_nodes()[0].visits + old(self).spec_params().mcts_budget <= u32::MAX,
            forall|a: ChildStats, b: ChildStats| call_requires(better, (a, b)),
        ensures
            final(self).wf(),
            final(self).initial() == old(self).initial(),
            final(self).spec_params() == old(self).spec_params(),
            final(self).spec_nodes()[0].visits == old(self).spec_nodes()[0].visits + old(
                self,
            ).spec_params().mcts_budget,
            seq@ == exploit_from(final(self).spec_nodes(), 0),
            forall|i: int| 0 <= i < seq@.len() ==> (#[trigger] seq@[i]) < old(self).initial()@.len(),
            exists|trees: Seq<Seq<MctsNode>>| #[trigger]
                are_simulations(
                    old(self).spec_nodes(),
                    old(self).initial(),
                    old(self).spec_params(),
                    better,
                    old(self).spec_params().mcts_budget as int,
                    final(self).spec_nodes(),
                    trees,
                ),
    {
        self.run_simulations(self.params.mcts_budget, rng, better);
        self.extract_best_sequence()
    }

    /// The removal sequence found by walking down from the root, always to
    /// the child with the greatest average reward.
    pub fn extract_best_sequence(&self) -> (seq: Vec<usize>)
        requires
            self.wf(),
        ensures
            seq@ == exploit_from(self.spec_nodes(), 0),
            forall|i: int| 0 <= i < seq@.len() ==> (#[trigger] seq@[i]) < self.initial()@.len(),
    {
        let mut seq: Vec<usize> = Vec::new();
        let mut current: usize = 0;
        let ghost nodes = self.spec_nodes();
        let ghost n = self.initial()@.len() as int;
        let ghost scale = self.reward_scale();
        proof {
            self.initial().lemma_bounds();
            lemma_pair_scale_bounds(self.initial().spec_size() as int);
            assert(Seq::<usize>::empty() + exploit_from(nodes, 0) =~= exploit_from(nodes, 0));
        }
        while self.nodes[current].children.len() > 0
            invariant
                self.wf(),
                nodes == self.spec_nodes(),
                n == self.initial()@.len(),
                scale == self.reward_scale(),
                0 < 2 * scale <= 0xFFFF_FFFF_FFFF_FFFF,
                current < nodes.len(),
                exploit_from(nodes, 0) == seq@ + exploit_from(nodes, current as int),
                forall|i: int| 0 <= i < seq@.len() ==> (#[trigger] seq@[i]) < n,
            decreases nodes.len() - current,
        {
            let node = &self.nodes[current];
            let mut best_at: usize = 0;
            let mut c: usize = 1;
            while c < node.children.len()
                invariant
                    self.wf(),
                    nodes == self.spec_nodes(),
                    scale == self.reward_scale(),
                    0 < 2 * scale <= 0xFFFF_FFFF_FFFF_FFFF,
                    current < nodes.len(),
                    *node == nodes[current as int],
                    1 <= c <= node.children@.len(),
                    best_at < c,
                    best_at == best_by_average(nodes, node.children@, c as int),
                decreases node.children@.len() - c,
            {
                assert(child_linked(nodes, current as int, best_at as int));
                assert(child_linked(nodes, current as int, c as int));
                let a = &self.nodes[node.children[best_at].1];
                let b = &self.nodes[node.children[c].1];
                let weight_a: u128 = if a.visits < 1 { 1 } else { a.visits as u128 };
                let weight_b: u128 = if b.visits < 1 { 1 } else { b.visits as u128 };
                proof {
                    lemma_total_bound(a.total_reward as int, a.visits as int, scale, weight_b as int);
                    lemma_total_bound(b.total_reward as int, b.visits as int, scale, weight_a as int);
                }
                if a.total_reward * weight_b <= b.total_reward * weight_a {
                    best_at = c;
                }
                c = c + 1;
            }
            assert(child_linked(nodes, current as int, best_at as int));
            let entry = node.children[best_at];
            proof {
                assert(node_linked(nodes, entry.1 as int, n));
                let rest = exploit_from(nodes, entry.1 as int);
                assert(exploit_from(nodes, current as int) == seq![entry.0] + rest);
                assert(seq@ + (seq![entry.0] + rest) =~= seq@.push(entry.0) + rest);
            }
            seq.push(entry.0);
            current = entry.1;
        }
        proof {
            assert(exploit_from(nodes, current as int) =~= Seq::<usize>::empty());
            assert(seq@ + Seq::<usize>::empty() =~= seq@);
        }
        seq
    }
}

/// `reward` is the reward of `repaired`, and `repaired` is a repair of
/// `initial` after the removals `removals`.
pub open spec fn is_reward_of_repair<'g>(
    initial: &Solution<'g>,
    p: &Params,
    removals: Seq<usize>,
    reward: int,
    repaired: Solution<'g>,
) -> bool {
    &&& crate::lns::is_repair(initial, removals, p, &repaired)
    &&& reward == reward_of(
        initial.spec_size() as int,
        repaired.spec_edges() as int,
        p.gamma_target,
    )
}

/// `reward` is what a rollout may return for the removals `removals`: the
/// reward of some repair of `initial` after them.
pub open spec fn is_rollout_reward<'g>(
    initial: &Solution<'g>,
    p: &Params,
    removals: Seq<usize>,
    reward: int,
) -> bool {
    exists|repaired: Solution<'g>| #[trigger]
        is_reward_of_repair(initial, p, removals, reward, repaired)
}

/// Node `leaf` is where the selection ends in the tree `nodes`: it has no
/// child or lies at the depth limit, no node above it does, and every node on
/// the way down to it is the child that the selection goes on to.
pub open spec fn is_selection<F: Fn(ChildStats, ChildStats) -> bool>(
    nodes: Seq<MctsNode>,
    p: &Params,
    scale: int,
    better: &F,
    leaf: int,
) -> bool {
    &&& 0 <= leaf < nodes.len()
    &&& nodes[leaf].children@.len() == 0 || nodes[leaf].depth >= p.mcts_max_depth
    &&& forall|i: int|
        on_path(nodes, leaf, i) && i != leaf ==> nodes[i].children@.len() > 0 && nodes[i].depth
            < p.mcts_max_depth
    &&& forall|j: int|
        1 <= j && #[trigger] on_path(nodes, leaf, j) ==> is_selected_node(
            nodes,
            scale,
            p.mcts_exploration_const,
            better,
            j,
        )
}

/// The subset that is left of `initial` at node `i` of the tree `nodes`.
pub open spec fn left_at<'g>(nodes: Seq<MctsNode>, initial: &Solution<'g>, i: int) -> Seq<bool> {
    without(initial@, path_to(nodes, i), path_to(nodes, i).len() as int)
}

/// The expansion below node `leaf` made the tree `after` of the tree
/// `before` and ended at node `r`.
///
/// Nothing changes, and `r` is `leaf`, where `leaf` has no visit, lies at the
/// depth limit, or has no member left that none of its children removes.
/// Otherwise `r` is a new node without visits below `leaf`, for a vertex that
/// may be removed next.
pub open spec fn is_expansion<'g>(
    before: Seq<MctsNode>,
    initial: &Solution<'g>,
    p: &Params,
    leaf: int,
    after: Seq<MctsNode>,
    r: int,
) -> bool {
    if before[leaf].visits == 0 || before[leaf].depth >= p.mcts_max_depth || !has_untried_member(
        left_at(before, initial, leaf),
        before[leaf].children@,
    ) {
        r == leaf && after == before
    } else {
        r != leaf && exists|v: usize|
            grown(before, after, leaf, v, r) && is_expansion_pick(
                initial.spec_graph()@,
                left_at(before, initial, leaf),
                p.gamma_target.floor_of(
                    crate::bits::count_true(left_at(before, initial, leaf), initial@.len() as int)
                        - 1,
                ),
                before[leaf].children@,
                v as int,
            )
    }
}

/// The tree `after` is the tree `before` with one simulation of the given
/// reward recorded at node `start` and at every node above it.
pub open spec fn is_backpropagation(
    before: Seq<MctsNode>,
    start: int,
    reward: int,
    after: Seq<MctsNode>,
) -> bool {
    &&& after.len() == before.len()
    &&& forall|i: int|
        0 <= i < before.len() ==> {
            let earlier = #[trigger] before[i];
            let later = after[i];
            &&& later.parent == earlier.parent
            &&& later.children == earlier.children
            &&& later.vertex_removed == earlier.vertex_removed
            &&& later.depth == earlier.depth
            &&& on_path(before, start, i) ==> later.visits == earlier.visits + 1
                && later.total_reward == earlier.total_reward + reward
            &&& !on_path(before, start, i) ==> later.visits == earlier.visits
                && later.total_reward == earlier.total_reward
        }
}

/// One simulation made the tree `after` of the tree `before`: the selection
/// ended at `leaf`, the expansion below it gave the tree `mid` and the node
/// `r`, and `reward`, the reward of a repair after the removals of `r`, was
/// recorded from `r` up to the root.
pub open spec fn is_simulation_by<'g, F: Fn(ChildStats, ChildStats) -> bool>(
    before: Seq<MctsNode>,
    initial: &Solution<'g>,
    p: &Params,
    better: &F,
    after: Seq<MctsNode>,
    leaf: int,
    mid: Seq<MctsNode>,
    r: int,
    reward: int,
) -> bool {
    &&& is_selection(before, p, pair_scale(initial.spec_size() as int), better, leaf)
    &&& is_expansion(before, initial, p, leaf, mid, r)
    &&& 0 <= r < mid.len()
    &&& is_rollout_reward(initial, p, path_to(mid, r), reward)
    &&& is_backpropagation(mid, r, reward, after)
}

/// One simulation made the tree `after` of the tree `before`.
pub open spec fn is_simulation<'g, F: Fn(ChildStats, ChildStats) -> bool>(
    before: Seq<MctsNode>,
    initial: &Solution<'g>,
    p: &Params,
    better: &F,
    after: Seq<MctsNode>,
) -> bool {
    exists|leaf: int, mid: Seq<MctsNode>, r: int, reward: int| #[trigger]
        is_simulation_by(before, initial, p, better, after, leaf, mid, r, reward)
}

/// Tree `i + 1` of `trees` came from tree `i` by one simulation.
pub open spec fn is_simulation_at<'g, F: Fn(ChildStats, ChildStats) -> bool>(
    trees: Seq<Seq<MctsNode>>,
    initial: &Solution<'g>,
    p: &Params,
    better: &F,
    i: int,
) -> bool {
    is_simulation(trees[i], initial, p, better, trees[i + 1])
}

/// `trees` are the trees that `budget` simulations went through, from `first`
/// to `last`.
pub open spec fn are_simulations<'g, F: Fn(ChildStats, ChildStats) -> bool>(
    first: Seq<MctsNode>,
    initial: &Solution<'g>,
    p: &Params,
    better: &F,
    budget: int,
    last: Seq<MctsNode>,
    trees: Seq<Seq<MctsNode>>,
) -> bool {
    &&& trees.len() == budget + 1
    &&& trees[0] == first
    &&& trees[budget] == last
    &&& forall|i: int| 0 <= i < budget ==> #[trigger] is_simulation_at(trees, initial, p, better, i)
}

/// Some member of the subset `s` is removed by no entry of `tried`.
pub open spec fn has_untried_member(s: Seq<bool>, tried: Seq<(usize, usize)>) -> bool {
    exists|v: int| 0 <= v < s.len() && #[trigger] s[v] && !has_key(tried, v as usize)
}

/// Where some member is removed by no entry of `tried`, some member may be
/// removed next.
pub proof fn lemma_expansion_pick_exists(
    g: Seq<Seq<bool>>,
    s: Seq<bool>,
    threshold: int,
    tried: Seq<(usize, usize)>,
)
    requires
        has_untried_member(s, tried),
    ensures
        exists|v: int| is_expansion_pick(g, s, threshold, tried, v),
{
    let u = choose|v: int| 0 <= v < s.len() && #[trigger] s[v] && !has_key(tried, v as usize);
    if conn(g, s, u) <= threshold {
        assert(is_expansion_pick(g, s, threshold, tried, u));
    } else if exists|w: int|
        0 <= w < s.len() && #[trigger] s[w] && !has_key(tried, w as usize) && conn(g, s, w)
            <= threshold {
        let w = choose|w: int|
            0 <= w < s.len() && #[trigger] s[w] && !has_key(tried, w as usize) && conn(g, s, w)
                <= threshold;
        assert(is_expansion_pick(g, s, threshold, tried, w));
    } else {
        assert forall|x: int| 0 <= x < s.len() && s[x] && !has_key(tried, x as usize) implies threshold
            < #[trigger] conn(g, s, x) by {
            if conn(g, s, x) <= threshold {
                assert(s[x]);
            }
        }
        assert(is_expansion_pick(g, s, threshold, tried, u));
    }
}

/// The visits that node `k` of the merged tree has from the tree `a`.
pub open spec fn base_visits(a: Seq<MctsNode>, k: int) -> int {
    if 0 <= k < a.len() {
        a[k].visits as int
    } else {
        0
    }
}

/// The reward that node `k` of the merged tree has from the tree `a`.
pub open spec fn base_reward(a: Seq<MctsNode>, k: int) -> int {
    if 0 <= k < a.len() {
        a[k].total_reward as int
    } else {
        0
    }
}

/// The tree `m` is the tree `a` with the first `j` nodes of the tree `b`
/// merged into it.
///
/// `image` sends each of those nodes of `b` to its node in `m`, and `origin`
/// sends each node of `m` back, or to `-1` where no node of `b` arrived. The
/// root goes to the root, and a node goes to the child of the image of its
/// parent that removes the same vertex, which is a new node of `m` where `a`
/// had no such child. A node of `m` holds the statistics that it had in `a`
/// plus those of the node of `b` that arrived.
pub open spec fn merge_state(
    a: Seq<MctsNode>,
    b: Seq<MctsNode>,
    m: Seq<MctsNode>,
    image: Seq<usize>,
    origin: Seq<int>,
    j: int,
) -> bool {
    merge_state_with(a, b, m, image, origin, j, -1)
}

/// As [`merge_state`], but node `pending` of `m` may be a new node at which
/// no node of `b` has arrived yet.
pub open spec fn merge_state_with(
    a: Seq<MctsNode>,
    b: Seq<MctsNode>,
    m: Seq<MctsNode>,
    image: Seq<usize>,
    origin: Seq<int>,
    j: int,
    pending: int,
) -> bool {
    &&& 0 <= j <= b.len()
    &&& image.len() == j
    &&& origin.len() == m.len()
    &&& a.len() <= m.len()
    &&& m.len() <= a.len() + j + (if pending >= 0 { 1int } else { 0int }) - (if j > 0 {
        1int
    } else {
        0int
    })
    &&& forall|x: int| 0 <= x < j ==> (#[trigger] image[x]) < m.len() && origin[image[x] as int] == x
    &&& forall|k: int|
        0 <= k < m.len() ==> (#[trigger] origin[k]) == -1 || (0 <= origin[k] < j
            && image[origin[k]] == k)
    &&& j > 0 ==> image[0] == 0
    &&& forall|x: int|
        1 <= x < j ==> (#[trigger] m[image[x] as int]).parent == Some(
            image[b[x].parent->Some_0 as int],
        ) && m[image[x] as int].vertex_removed == b[x].vertex_removed
    &&& forall|k: int|
        0 <= k < a.len() ==> (#[trigger] m[k]).parent == a[k].parent && m[k].vertex_removed
            == a[k].vertex_removed && m[k].depth == a[k].depth && a[k].children@.len()
            <= m[k].children@.len()
    &&& forall|k: int, c: int|
        0 <= k < a.len() && 0 <= c < a[k].children@.len() ==> #[trigger] m[k].children@[c]
            == a[k].children@[c]
    &&& forall|k: int| a.len() <= k < m.len() ==> (#[trigger] origin[k]) >= 0 || k == pending
    &&& forall|k: int|
        0 <= k < m.len() ==> (#[trigger] m[k]).visits == base_visits(a, k) + (if origin[k] >= 0 {
            b[origin[k]].visits as int
        } else {
            0
        }) && m[k].total_reward == base_reward(a, k) + (if origin[k] >= 0 {
            b[origin[k]].total_reward as int
        } else {
            0
        })
}

/// A tree in which the statistics of one node have changed is still a tree.
pub proof fn lemma_restated_links_ok(before: Seq<MctsNode>, after: Seq<MctsNode>, i: int, n: int)
    requires
        links_ok(before, n),
        0 <= i < before.len(),
        after.len() == before.len(),
        forall|k: int| 0 <= k < before.len() && k != i ==> after[k] == before[k],
        after[i].parent == before[i].parent,
        after[i].children == before[i].children,
        after[i].vertex_removed == before[i].vertex_removed,
        after[i].depth == before[i].depth,
    ensures
        links_ok(after, n),
{
    assert forall|k: int| 0 <= k < before.len() implies (#[trigger] after[k]).parent
        == before[k].parent && after[k].children == before[k].children && after[k].vertex_removed
        == before[k].vertex_removed && after[k].depth == before[k].depth by {
        if k != i {
            assert(after[k] == before[k]);
        }
    }
    assert forall|k: int| 0 <= k < after.len() implies keys_distinct(
        (#[trigger] after[k]).children@,
    ) by {
        assert(before[k].children == after[k].children);
        assert(keys_distinct(before[k].children@));
    }
    assert forall|k: int| 1 <= k < after.len() implies #[trigger] listed(after, k) by {
        assert(listed(before, k));
        assert(node_linked(before, k, n));
        let p = before[k].parent->Some_0 as int;
        assert(before[k].parent == after[k].parent);
        assert(before[p].children == after[p].children);
        let c = choose|c: int|
            0 <= c < before[p].children@.len() && #[trigger] before[p].children@[c] == (
                before[k].vertex_removed->Some_0,
                k as usize,
            );
        assert(after[p].children@[c] == (after[k].vertex_removed->Some_0, k as usize));
    }
    assert forall|k: int| 0 <= k < after.len() implies (#[trigger] after[k]).depth <= k by {
        assert(before[k].depth == after[k].depth);
    }
    assert forall|k: int| 1 <= k < after.len() implies #[trigger] node_linked(after, k, n) by {
        assert(node_linked(before, k, n));
        let p = before[k].parent->Some_0 as int;
        assert(before[k].parent == after[k].parent);
        assert(before[p].depth == after[p].depth);
    }
    assert forall|k: int, c: int|
        0 <= k < after.len() && 0 <= c < after[k].children@.len() implies #[trigger] child_linked(
        after,
        k,
        c,
    ) by {
        assert(before[k].children == after[k].children);
        assert(child_linked(before, k, c));
        let t = before[k].children@[c].1 as int;
        assert(before[t].parent == after[t].parent);
    }
}

/// The child of node `ip` of `m` that removes the vertex of node `j` of `b`
/// has not received a node of `b` yet, where `ip` is the image of the parent
/// of `j`.
pub proof fn lemma_target_is_fresh(
    a: Seq<MctsNode>,
    b: Seq<MctsNode>,
    m: Seq<MctsNode>,
    image: Seq<usize>,
    origin: Seq<int>,
    j: int,
    i: int,
    n: int,
)
    requires
        links_ok(b, n),
        links_ok(m, n),
        merge_state(a, b, m, image, origin, j),
        1 <= j < b.len(),
        0 <= i < m.len(),
        m[i].parent == Some(image[b[j].parent->Some_0 as int]),
        m[i].vertex_removed == b[j].vertex_removed,
    ensures
        origin[i] == -1,
        i < a.len(),
{
    assert(node_linked(b, j, n));
    let p = b[j].parent->Some_0 as int;
    let ip = image[p] as int;
    if origin[i] != -1 {
        let x = origin[i];
        assert(image[x] == i);
        if x == 0 {
            assert(m[0].parent is None);
        } else {
            assert(node_linked(b, x, n));
            let q = b[x].parent->Some_0 as int;
            assert(m[image[x] as int].parent == Some(image[q]));
            assert(image[q] == image[p]);
            assert(origin[image[q] as int] == q);
            assert(origin[image[p] as int] == p);
            assert(q == p);
            assert(listed(b, x));
            assert(listed(b, j));
            let cx = choose|c: int|
                0 <= c < b[p].children@.len() && #[trigger] b[p].children@[c] == (
                    b[x].vertex_removed->Some_0,
                    x as usize,
                );
            let cj = choose|c: int|
                0 <= c < b[p].children@.len() && #[trigger] b[p].children@[c] == (
                    b[j].vertex_removed->Some_0,
                    j as usize,
                );
            assert(keys_distinct(b[p].children@));
            if cx < cj {
                assert(b[p].children@[cx].0 != b[p].children@[cj].0);
            } else if cj < cx {
                assert(b[p].children@[cj].0 != b[p].children@[cx].0);
            }
            assert(false);
        }
    }
    if i >= a.len() {
        assert(origin[i] >= 0);
    }
}

/// The entry of `children` that removes `v`, if there is one.
pub fn find_child(children: &Vec<(usize, usize)>, v: usize) -> (r: Option<usize>)
    ensures
        r is None ==> !has_key(children@, v),
        r is Some ==> exists|c: int|
            0 <= c < children@.len() && #[trigger] children@[c] == (v, r->Some_0),
{
    let mut c: usize = 0;
    while c < children.len()
        invariant
            c <= children@.len(),
            forall|x: int| 0 <= x < c ==> (#[trigger] children@[x]).0 != v,
        decreases children@.len() - c,
    {
        if children[c].0 == v {
            return Some(children[c].1);
        }
        c = c + 1;
    }
    None
}

impl<'g> MctsTree<'g> {
    /// Merges a tree over the same root solution into this one.
    ///
    /// The nodes of `other` are matched with the nodes of this tree from the
    /// root down, child by child under the vertex that the child removes. A
    /// node that finds its match adds its visits and its reward there; a node
    /// that finds none is attached as a new child, with its own visits and
    /// reward, in the order of the nodes of `other`.
    pub fn merge_from(&mut self, other: &MctsTree<'g>)
        requires
            old(self).wf(),
            other.wf(),
            other.initial()@.len() == old(self).initial()@.len(),
            other.initial().spec_size() == old(self).initial().spec_size(),
            old(self).spec_nodes()[0].visits + other.spec_nodes()[0].visits <= u32::MAX,
            old(self).spec_nodes().len() + other.spec_nodes().len() <= usize::MAX,
        ensures
            final(self).wf(),
            final(self).initial() == old(self).initial(),
            final(self).spec_params() == old(self).spec_params(),
            exists|image: Seq<usize>, origin: Seq<int>|
                merge_state(
                    old(self).spec_nodes(),
                    other.spec_nodes(),
                    final(self).spec_nodes(),
                    image,
                    origin,
                    other.spec_nodes().len() as int,
                ),
    {
        let ghost a = self.spec_nodes();
        let ghost b = other.spec_nodes();
        let ghost n = self.initial()@.len() as int;
        let ghost scale = self.reward_scale();
        let mut image: Vec<usize> = Vec::new();
        let ghost mut origin: Seq<int> = Seq::new(a.len(), |k: int| -1int);
        proof {
            self.initial().lemma_bounds();
            lemma_pair_scale_bounds(self.initial().spec_size() as int);
        }
        let mut j: usize = 0;
        while j < other.nodes.len()
            invariant
                self.initial() == old(self).initial(),
                self.spec_params() == old(self).spec_params(),
                a == old(self).spec_nodes(),
                b == other.spec_nodes(),
                n == self.initial()@.len(),
                scale == self.reward_scale(),
                scale == other.reward_scale(),
                0 < 2 * scale <= 0xFFFF_FFFF_FFFF_FFFF,
                links_ok(a, n),
                stats_ok(a, scale),
                links_ok(b, n),
                stats_ok(b, scale),
                a[0].visits + b[0].visits <= u32::MAX,
                a.len() + b.len() <= usize::MAX,
                links_ok(self.spec_nodes(), n),
                merge_state(a, b, self.spec_nodes(), image@, origin, j as int),
            decreases b.len() - j,
        {
            let ghost m0 = self.spec_nodes();
            let ghost mut pend: int = -1;
            let mut target: usize = 0;
            if j > 0 {
                assert(node_linked(b, j as int, n));
                let p = match other.nodes[j].parent {
                    Some(p) => p,
                    None => 0,
                };
                let v = match other.nodes[j].vertex_removed {
                    Some(v) => v,
                    None => 0,
                };
                let ip = image[p];
                match find_child(&self.nodes[ip].children, v) {
                    Some(i) => {
                        proof {
                            let c = choose|c: int|
                                0 <= c < m0[ip as int].children@.len() && #[trigger] m0[ip as int].children@[c]
                                    == (v, i);
                            assert(child_linked(m0, ip as int, c));
                            lemma_target_is_fresh(a, b, m0, image@, origin, j as int, i as int, n);
                        }
                        target = i;
                    },
                    None => {
                        assert(m0[ip as int].depth <= ip);
                        let depth = self.nodes[ip].depth;
                        let new_idx = self.nodes.len();
                        let node = MctsNode {
                            parent: Some(ip),
                            children: Vec::new(),
                            visits: 0,
                            total_reward: 0,
                            vertex_removed: Some(v),
                            depth: depth + 1,
                        };
                        self.nodes.push(node);
                        self.nodes[ip].children.push((v, new_idx));
                        proof {
                            let m1 = self.spec_nodes();
                            assert(attached(m0, m1, ip as int, v, new_idx as int));
                            lemma_attached_links_ok(m0, m1, ip as int, v, new_idx as int, n);
                            origin = origin.push(-1);
                            pend = new_idx as int;
                            assert(merge_state_with(a, b, m1, image@, origin, j as int, pend)) by {
                                assert forall|k: int| 0 <= k < m0.len() implies (#[trigger] m1[k]).parent
                                    == m0[k].parent && m1[k].vertex_removed == m0[k].vertex_removed
                                    && m1[k].depth == m0[k].depth && m1[k].visits == m0[k].visits
                                    && m1[k].total_reward == m0[k].total_reward && m0[k].children@.len()
                                    <= m1[k].children@.len() by {
                                    if k != ip {
                                        assert(m1[k] == m0[k]);
                                    }
                                }
                                assert forall|k: int, c: int|
                                    0 <= k < a.len() && 0 <= c < a[k].children@.len() implies #[trigger] m1[k].children@[c]
                                    == a[k].children@[c] by {
                                    assert(m0[k].children@[c] == a[k].children@[c]);
                                    if k != ip {
                                        assert(m1[k] == m0[k]);
                                    }
                                }
                            }
                        }
                        target = new_idx;
                    },
                }
            }
            let ghost m1 = self.spec_nodes();
            proof {
                assert(merge_state_with(a, b, m1, image@, origin, j as int, pend));
                assert(pend == -1 || pend == target);
                assert(j > 0 ==> m1[target as int].parent == Some(
                    image@[b[j as int].parent->Some_0 as int],
                ) && m1[target as int].vertex_removed == b[j as int].vertex_removed);
                assert(origin[target as int] == -1);
                assert(b[j as int].visits <= b[0].visits);
                assert(base_visits(a, target as int) <= a[0].visits);
                lemma_sum_bound(
                    base_reward(a, target as int),
                    base_visits(a, target as int),
                    b[j as int].total_reward as int,
                    b[j as int].visits as int,
                    scale,
                );
            }
            let visits = self.nodes[target].visits;
            let total = self.nodes[target].total_reward;
            self.nodes[target].visits = visits + other.nodes[j].visits;
            self.nodes[target].total_reward = total + other.nodes[j].total_reward;
            image.push(target);
            proof {
                let m2 = self.spec_nodes();
                assert(m2.len() == m1.len());
                assert(forall|k: int| 0 <= k < m1.len() && k != target ==> m2[k] == m1[k]);
                assert(m2[target as int].parent == m1[target as int].parent);
                assert(m2[target as int].children == m1[target as int].children);
                assert(m2[target as int].vertex_removed == m1[target as int].vertex_removed);
                assert(m2[target as int].depth == m1[target as int].depth);
                lemma_restated_links_ok(m1, m2, target as int, n);
                let image0 = image@.drop_last();
                let origin0 = origin;
                origin = origin.update(target as int, j as int);
                assert(merge_state(a, b, m2, image@, origin, j + 1)) by {
                    assert forall|x: int| 0 <= x < j + 1 implies (#[trigger] image@[x]) < m2.len()
                        && origin[image@[x] as int] == x by {
                        if x < j {
                            assert(image@[x] == image0[x]);
                            assert(origin0[image0[x] as int] == x);
                        }
                    }
                    assert forall|k: int| 0 <= k < m2.len() implies (#[trigger] origin[k]) == -1 || (0
                        <= origin[k] < j + 1 && image@[origin[k]] == k) by {
                        if k != target {
                            assert(origin[k] == origin0[k]);
                            if origin0[k] != -1 {
                                assert(image@[origin0[k]] == image0[origin0[k]]);
                            }
                        }
                    }
                    assert forall|x: int| 1 <= x < j + 1 implies (#[trigger] m2[image@[x] as int]).parent
                        == Some(image@[b[x].parent->Some_0 as int]) && m2[image@[x] as int].vertex_removed
                        == b[x].vertex_removed by {
                        assert(node_linked(b, x, n));
                        let q = b[x].parent->Some_0 as int;
                        assert(image@[q] == image0[q]);
                        if x < j {
                            assert(image@[x] == image0[x]);
                            assert(m1[image0[x] as int].parent == Some(image0[q]));
                        }
                    }
                    assert forall|k: int| 0 <= k < a.len() implies (#[trigger] m2[k]).parent
                        == a[k].parent && m2[k].vertex_removed == a[k].vertex_removed && m2[k].depth
                        == a[k].depth && a[k].children@.len() <= m2[k].children@.len() by {
                        assert(m1[k].parent == a[k].parent);
                    }
                    assert forall|k: int, c: int|
                        0 <= k < a.len() && 0 <= c < a[k].children@.len() implies #[trigger] m2[k].children@[c]
                        == a[k].children@[c] by {
                        assert(m1[k].children@[c] == a[k].children@[c]);
                    }
                    assert forall|k: int| a.len() <= k < m2.len() implies (#[trigger] origin[k])
                        >= 0 by {
                        if k != target {
                            assert(origin0[k] >= 0 || k == pend);
                        }
                    }
                    assert forall|k: int| 0 <= k < m2.len() implies (#[trigger] m2[k]).visits
                        == base_visits(a, k) + (if origin[k] >= 0 {
                        b[origin[k]].visits as int
                    } else {
                        0
                    }) && m2[k].total_reward == base_reward(a, k) + (if origin[k] >= 0 {
                        b[origin[k]].total_reward as int
                    } else {
                        0
                    }) by {
                        if k != target {
                            assert(m2[k] == m1[k]);
                            assert(origin[k] == origin0[k]);
                            assert(m1[k].visits == base_visits(a, k) + (if origin0[k] >= 0 {
                                b[origin0[k]].visits as int
                            } else {
                                0
                            }));
                        } else {
                            assert(m1[k].visits == base_visits(a, k));
                        }
                    }
                }
            }
            j = j + 1;
        }
        proof {
            let m = self.spec_nodes();
            assert(origin[0] == 0) by {
                assert(image@[0] == 0);
                assert(origin[image@[0] as int] == 0);
            }
            assert forall|k: int| 0 <= k < m.len() implies (#[trigger] m[k]).visits <= m[0].visits
                && m[k].total_reward <= 2 * scale * m[k].visits by {
                assert(m[0].visits == a[0].visits + b[0].visits);
                if k < a.len() {
                    assert(a[k].visits <= a[0].visits);
                }
                if origin[k] >= 0 {
                    assert(b[origin[k]].visits <= b[0].visits);
                }
                let extra_visits = if origin[k] >= 0 { b[origin[k]].visits as int } else { 0int };
                let extra_reward = if origin[k] >= 0 {
                    b[origin[k]].total_reward as int
                } else {
                    0int
                };
                assert(2 * scale * (base_visits(a, k) + extra_visits) == 2 * scale * base_visits(a, k)
                    + 2 * scale * extra_visits) by (nonlinear_arith);
                assert(2 * scale * 0 == 0);
            }
        }
    }
}

/// The sum of two total rewards, each within two units of scale per visit,
/// fits in 128 bits where the visits sum to at most 32 bits.
pub proof fn lemma_sum_bound(total_a: int, visits_a: int, total_b: int, visits_b: int, scale: int)
    requires
        0 <= total_a <= 2 * scale * visits_a,
        0 <= total_b <= 2 * scale * visits_b,
        0 <= visits_a,
        0 <= visits_b,
        visits_a + visits_b <= 0xFFFF_FFFF,
        0 < 2 * scale <= 0xFFFF_FFFF_FFFF_FFFF,
    ensures
        total_a + total_b <= u128::MAX,
{
    assert(2 * scale * visits_a + 2 * scale * visits_b == 2 * scale * (visits_a + visits_b))
        by (nonlinear_arith);
    assert(2 * scale * (visits_a + visits_b) <= 0xFFFF_FFFF_FFFF_FFFF * 0xFFFF_FFFF)
        by (nonlinear_arith)
        requires
            0 <= visits_a + visits_b <= 0xFFFF_FFFF,
            0 < 2 * scale <= 0xFFFF_FFFF_FFFF_FFFF,
    ;
}

/// A total reward within two units of scale per visit, times a weight of at
/// most 32 bits, fits in 128 bits.
pub proof fn lemma_total_bound(total: int, visits: int, scale: int, weight: int)
    requires
        0 <= total <= 2 * scale * visits,
        0 <= visits <= 0xFFFF_FFFF,
        0 < 2 * scale <= 0xFFFF_FFFF_FFFF_FFFF,
        0 <= weight <= 0xFFFF_FFFF,
    ensures
        0 <= total * weight <= u128::MAX,
{
    assert(2 * scale * visits <= 0xFFFF_FFFF_FFFF_FFFF * 0xFFFF_FFFF) by (nonlinear_arith)
        requires
            0 <= visits <= 0xFFFF_FFFF,
            0 < 2 * scale <= 0xFFFF_FFFF_FFFF_FFFF,
    ;
    assert(0 <= total * weight <= 0xFFFF_FFFF_FFFF_FFFF * 0xFFFF_FFFF * 0xFFFF_FFFF)
        by (nonlinear_arith)
        requires
            0 <= total <= 0xFFFF_FFFF_FFFF_FFFF * 0xFFFF_FFFF,
            0 <= weight <= 0xFFFF_FFFF,
    ;
}

} // verus!
