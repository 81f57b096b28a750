//! The two short-term tabu memories with their adaptive tenures.
//!
//! A vertex that has just left the solution is barred from entering again for
//! a while, and one that has just entered is barred from leaving. Each bar is
//! an expiry stamp that is compared with a step counter.

use crate::ratio::Ratio;
use crate::rng::uniform_inclusive;
use rand::rngs::StdRng;
use vstd::prelude::*;

verus! {

/// The edge deficit counts for the tenures up to this cap.
pub const DEFICIT_CAP: usize = 10;

/// The number of unordered pairs among `k` items.
pub open spec fn pairs(k: int) -> int {
    k * (k - 1) / 2
}

/// The least number of edges with which `k` vertices reach the density
/// `gamma`.
pub open spec fn needed_edges(gamma: Ratio, k: int) -> int {
    gamma.ceil_of(pairs(k))
}

/// The edges that a subset of `size` vertices with `edges` edges lacks to
/// reach `gamma`, capped at [`DEFICIT_CAP`].
pub open spec fn deficit(gamma: Ratio, size: int, edges: int) -> int {
    let lack = needed_edges(gamma, size) - edges;
    if lack < 0 {
        0
    } else if lack > DEFICIT_CAP {
        DEFICIT_CAP as int
    } else {
        lack
    }
}

/// The width of the random part of the tenure for re-entry.
pub open spec fn spread(size: int) -> int {
    if size / 40 > 6 {
        size / 40
    } else {
        6
    }
}

/// The width of the random part of the tenure for leaving.
pub open spec fn spread_rm(size: int) -> int {
    6 * spread(size) / 10
}

/// The tenure for re-entry, for the deficit `lack` and the random part
/// `draw`.
pub open spec fn tenure_add_of(lack: int, draw: int) -> int {
    if lack + draw < 1 {
        1
    } else {
        lack + draw
    }
}

/// The tenure for leaving, for the deficit `lack` and the random part `draw`.
pub open spec fn tenure_rm_of(lack: int, draw: int) -> int {
    if 6 * lack / 10 + draw < 1 {
        1
    } else {
        6 * lack / 10 + draw
    }
}

/// The tenures of `tabu` are fresh for a subset of `size` vertices with
/// `edges` edges: both are one below two vertices, and otherwise each is what
/// the formula gives for the deficit of the subset and some random part within
/// its spread.
pub open spec fn tenures_drawn(tabu: &DualTabu, size: int, edges: int, gamma: Ratio) -> bool {
    if size < 2 {
        tabu.tenure_add() == 1 && tabu.tenure_rm() == 1
    } else {
        &&& exists|draw: int|
            0 <= draw <= spread(size) && tabu.tenure_add() == tenure_add_of(
                deficit(gamma, size, edges),
                draw,
            )
        &&& exists|draw: int|
            0 <= draw <= spread_rm(size) && tabu.tenure_rm() == tenure_rm_of(
                deficit(gamma, size, edges),
                draw,
            )
    }
}

/// The capped deficit of a subset of `size` vertices with `edges` edges.
pub fn edge_deficit(gamma: &Ratio, size: usize, edges: usize) -> (lack: usize)
    requires
        gamma.wf(),
        gamma.num <= u32::MAX,
        size * size <= usize::MAX,
    ensures
        lack == deficit(*gamma, size as int, edges as int),
        lack <= DEFICIT_CAP,
{
    if size < 2 {
        assert(pairs(size as int) == 0) by {
            assert(size * (size - 1) == 0) by (nonlinear_arith)
                requires
                    0 <= size < 2,
            ;
        }
        assert(gamma.num * 0 == 0);
        assert((gamma.den - 1) / (gamma.den as int) == 0) by (nonlinear_arith)
            requires
                gamma.den > 0,
        ;
        return 0;
    }
    assert(size * (size - 1) <= size * size) by (nonlinear_arith)
        requires
            size >= 2,
    ;
    let max_edges: usize = size * (size - 1) / 2;
    assert(gamma.num * max_edges <= 0xFFFF_FFFF * 0xFFFF_FFFF_FFFF_FFFF) by (nonlinear_arith)
        requires
            0 <= gamma.num <= 0xFFFF_FFFF,
            0 <= max_edges <= 0xFFFF_FFFF_FFFF_FFFF,
    ;
    let product: u128 = (gamma.num as u128) * (max_edges as u128);
    let needed: u128 = (product + (gamma.den as u128 - 1)) / (gamma.den as u128);
    if needed <= edges as u128 {
        0
    } else {
        let lack: u128 = needed - edges as u128;
        if lack > DEFICIT_CAP as u128 {
            DEFICIT_CAP
        } else {
            lack as usize
        }
    }
}

/// The two tabu memories over `n` vertices.
pub struct DualTabu {
    expiry_u: Vec<usize>,
    expiry_v: Vec<usize>,
    iter: usize,
    tu: usize,
    tv: usize,
}

impl DualTabu {
    /// For each vertex, the step at which it may enter the solution again.
    pub closed spec fn expire_add(&self) -> Seq<usize> {
        self.expiry_u@
    }

    /// For each vertex, the step at which it may leave the solution again.
    pub closed spec fn expire_rm(&self) -> Seq<usize> {
        self.expiry_v@
    }

    /// The step counter.
    pub closed spec fn spec_iter(&self) -> usize {
        self.iter
    }

    /// The current tenure for re-entry.
    pub closed spec fn tenure_add(&self) -> usize {
        self.tu
    }

    /// The current tenure for leaving.
    pub closed spec fn tenure_rm(&self) -> usize {
        self.tv
    }

    /// Both memories cover the same vertices, and both tenures are at least
    /// one.
    pub open spec fn wf(&self) -> bool {
        &&& self.expire_add().len() == self.expire_rm().len()
        &&& self.tenure_add() >= 1
        &&& self.tenure_rm() >= 1
    }

    /// `v` is barred from entering the solution.
    pub open spec fn tabu_add(&self, v: int) -> bool {
        self.expire_add()[v] > self.spec_iter()
    }

    /// `v` is barred from leaving the solution.
    pub open spec fn tabu_rm(&self, v: int) -> bool {
        self.expire_rm()[v] > self.spec_iter()
    }

    /// A stamp with either tenure stays representable for the next step.
    pub open spec fn can_stamp(&self) -> bool {
        &&& self.spec_iter() + self.tenure_add() <= usize::MAX
        &&& self.spec_iter() + self.tenure_rm() <= usize::MAX
        &&& self.spec_iter() < usize::MAX
    }

    /// Memories for `n` vertices with nothing barred. A tenure given as zero
    /// is raised to one.
    pub fn new(n: usize, initial_tu: usize, initial_tv: usize) -> (t: DualTabu)
        ensures
            t.wf(),
            t.can_stamp(),
            t.expire_add().len() == n,
            t.expire_rm().len() == n,
            forall|v: int| 0 <= v < n ==> t.expire_add()[v] == 0 && t.expire_rm()[v] == 0,
            t.spec_iter() == 0,
            t.tenure_add() == if initial_tu < 1 { 1 } else { initial_tu },
            t.tenure_rm() == if initial_tv < 1 { 1 } else { initial_tv },
    {
        DualTabu {
            expiry_u: vec![0; n],
            expiry_v: vec![0; n],
            iter: 0,
            tu: if initial_tu < 1 { 1 } else { initial_tu },
            tv: if initial_tv < 1 { 1 } else { initial_tv },
        }
    }

    /// The number of vertices that the memories cover.
    pub fn len(&self) -> (n: usize)
        ensures
            n == self.expire_add().len(),
    {
        self.expiry_u.len()
    }

    /// The step counter.
    #[verifier::when_used_as_spec(spec_iter)]
    pub fn iter(&self) -> (i: usize)
        ensures
            i == self.spec_iter(),
    {
        self.iter
    }

    /// Whether `v` is barred from entering the solution.
    pub fn is_tabu_u(&self, v: usize) -> (b: bool)
        requires
            v < self.expire_add().len(),
        ensures
            b == self.tabu_add(v as int),
            b == (self.expire_add()[v as int] > self.spec_iter()),
    {
        self.expiry_u[v] > self.iter
    }

    /// Whether `v` is barred from leaving the solution.
    pub fn is_tabu_v(&self, v: usize) -> (b: bool)
        requires
            v < self.expire_rm().len(),
        ensures
            b == self.tabu_rm(v as int),
            b == (self.expire_rm()[v as int] > self.spec_iter()),
    {
        self.expiry_v[v] > self.iter
    }

    /// Sets both tenures from the state of the solution and the two random
    /// parts `draw_u` and `draw_v`. Below two members both tenures are one.
    pub fn set_tenures(
        &mut self,
        size_s: usize,
        edges: usize,
        gamma: &Ratio,
        draw_u: usize,
        draw_v: usize,
    )
        requires
            gamma.wf(),
            gamma.num <= u32::MAX,
            size_s * size_s <= usize::MAX,
            draw_u <= spread(size_s as int),
            draw_v <= spread_rm(size_s as int),
        ensures
            final(self).expire_add() == old(self).expire_add(),
            final(self).expire_rm() == old(self).expire_rm(),
            final(self).spec_iter() == old(self).spec_iter(),
            size_s < 2 ==> final(self).tenure_add() == 1 && final(self).tenure_rm() == 1,
            size_s >= 2 ==> final(self).tenure_add() == tenure_add_of(
                deficit(*gamma, size_s as int, edges as int),
                draw_u as int,
            ),
            size_s >= 2 ==> final(self).tenure_rm() == tenure_rm_of(
                deficit(*gamma, size_s as int, edges as int),
                draw_v as int,
            ),
            final(self).tenure_add() >= 1,
            final(self).tenure_rm() >= 1,
            final(self).tenure_add() <= DEFICIT_CAP + spread(size_s as int),
            final(self).tenure_rm() <= DEFICIT_CAP + spread(size_s as int),
    {
        if size_s < 2 {
            self.tu = 1;
            self.tv = 1;
            return ;
        }
        let lack = edge_deficit(gamma, size_s, edges);
        let long = lack + draw_u;
        self.tu = if long < 1 { 1 } else { long };
        let short = 6 * lack / 10 + draw_v;
        self.tv = if short < 1 { 1 } else { short };
    }

    /// Recomputes both tenures from the state of the solution, each with a
    /// random part drawn from its spread.
    pub fn update_tenures(&mut self, size_s: usize, edges: usize, gamma: &Ratio, rng: &mut StdRng)
        requires
            gamma.wf(),
            gamma.num <= u32::MAX,
            size_s * size_s <= usize::MAX,
        ensures
            final(self).expire_add() == old(self).expire_add(),
            final(self).expire_rm() == old(self).expire_rm(),
            final(self).spec_iter() == old(self).spec_iter(),
            size_s < 2 ==> final(self).tenure_add() == 1 && final(self).tenure_rm() == 1,
            size_s >= 2 ==> exists|draw: int|
                0 <= draw <= spread(size_s as int) && final(self).tenure_add() == tenure_add_of(
                    deficit(*gamma, size_s as int, edges as int),
                    draw,
                ),
            size_s >= 2 ==> exists|draw: int|
                0 <= draw <= spread_rm(size_s as int) && final(self).tenure_rm() == tenure_rm_of(
                    deficit(*gamma, size_s as int, edges as int),
                    draw,
                ),
            tenures_drawn(final(self), size_s as int, edges as int, *gamma),
            final(self).tenure_add() >= 1,
            final(self).tenure_rm() >= 1,
            final(self).tenure_add() <= DEFICIT_CAP + spread(size_s as int),
            final(self).tenure_rm() <= DEFICIT_CAP + spread(size_s as int),
    {
        if size_s < 2 {
            self.set_tenures(size_s, edges, gamma, 0, 0);
            return ;
        }
        let c: usize = if size_s / 40 > 6 { size_s / 40 } else { 6 };
        let draw_u = uniform_inclusive(rng, 0, c);
        let c6: usize = 6 * c / 10;
        let draw_v = uniform_inclusive(rng, 0, c6);
        self.set_tenures(size_s, edges, gamma, draw_u, draw_v);
        assert(0 <= draw_u as int <= spread(size_s as int) && self.tenure_add() == tenure_add_of(
            deficit(*gamma, size_s as int, edges as int),
            draw_u as int,
        ));
        assert(0 <= draw_v as int <= spread_rm(size_s as int) && self.tenure_rm() == tenure_rm_of(
            deficit(*gamma, size_s as int, edges as int),
            draw_v as int,
        ));
    }

    /// Bars `v` from entering the solution for the current tenure.
    pub fn forbid_u(&mut self, v: usize)
        requires
            v < old(self).expire_add().len(),
            old(self).spec_iter() + old(self).tenure_add() <= usize::MAX,
        ensures
            final(self).expire_add() == old(self).expire_add().update(
                v as int,
                (old(self).spec_iter() + old(self).tenure_add()) as usize,
            ),
            final(self).expire_rm() == old(self).expire_rm(),
            final(self).spec_iter() == old(self).spec_iter(),
            final(self).tenure_add() == old(self).tenure_add(),
            final(self).tenure_rm() == old(self).tenure_rm(),
    {
        self.expiry_u[v] = self.iter + self.tu;
    }

    /// Bars `v` from leaving the solution for the current tenure.
    pub fn forbid_v(&mut self, v: usize)
        requires
            v < old(self).expire_rm().len(),
            old(self).spec_iter() + old(self).tenure_rm() <= usize::MAX,
        ensures
            final(self).expire_rm() == old(self).expire_rm().update(
                v as int,
                (old(self).spec_iter() + old(self).tenure_rm()) as usize,
            ),
            final(self).expire_add() == old(self).expire_add(),
            final(self).spec_iter() == old(self).spec_iter(),
            final(self).tenure_add() == old(self).tenure_add(),
            final(self).tenure_rm() == old(self).tenure_rm(),
    {
        self.expiry_v[v] = self.iter + self.tv;
    }

    /// Advances the step counter by one.
    pub fn step(&mut self)
        requires
            old(self).spec_iter() < usize::MAX,
        ensures
            final(self).spec_iter() == old(self).spec_iter() + 1,
            final(self).expire_add() == old(self).expire_add(),
            final(self).expire_rm() == old(self).expire_rm(),
            final(self).tenure_add() == old(self).tenure_add(),
            final(self).tenure_rm() == old(self).tenure_rm(),
    {
        self.iter = self.iter + 1;
    }

    /// Lifts every bar. The tenures and the step counter stay.
    pub fn reset(&mut self)
        ensures
            final(self).expire_add().len() == old(self).expire_add().len(),
            final(self).expire_rm().len() == old(self).expire_rm().len(),
            forall|v: int| 0 <= v < final(self).expire_add().len() ==> final(self).expire_add()[v] == 0,
            forall|v: int| 0 <= v < final(self).expire_rm().len() ==> final(self).expire_rm()[v] == 0,
            final(self).spec_iter() == old(self).spec_iter(),
            final(self).tenure_add() == old(self).tenure_add(),
            final(self).tenure_rm() == old(self).tenure_rm(),
    {
        let n = self.expiry_u.len();
        let mut i: usize = 0;
        while i < n
            invariant
                i <= n,
                n == self.expiry_u@.len(),
                self.expiry_v@.len() == old(self).expiry_v@.len(),
                n == old(self).expiry_u@.len(),
                self.iter == old(self).iter,
                self.tu == old(self).tu,
                self.tv == old(self).tv,
                self.expiry_v@ == old(self).expiry_v@,
                forall|j: int| 0 <= j < i ==> self.expiry_u@[j] == 0,
            decreases n - i,
        {
            self.expiry_u[i] = 0;
            i = i + 1;
        }
        let m = self.expiry_v.len();
        let mut j: usize = 0;
        while j < m
            invariant
                j <= m,
                m == self.expiry_v@.len(),
                m == old(self).expiry_v@.len(),
                self.expiry_u@.len() == old(self).expiry_u@.len(),
                self.iter == old(self).iter,
                self.tu == old(self).tu,
                self.tv == old(self).tv,
                forall|k: int| 0 <= k < self.expiry_u@.len() ==> self.expiry_u@[k] == 0,
                forall|k: int| 0 <= k < j ==> self.expiry_v@[k] == 0,
            decreases m - j,
        {
            self.expiry_v[j] = 0;
            j = j + 1;
        }
    }
}

} // verus!
