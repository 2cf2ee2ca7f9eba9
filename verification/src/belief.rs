//! How beliefs are recomputed: what a cell learns from each neighbour, how a
//! cell changes when it is recomputed, and where the recomputation of all
//! queued cells ends.

use vstd::prelude::*;
use crate::adjacency::{AdjacencySpec, slot};
use crate::catalog::TileId;
use crate::direction::opposite;
use crate::grid::{GridSpec, Pos, TileType, lemma_cell_support_shrinks};
use crate::weight::{ONE, blend, settle};

verus! {

/// What a recomputation did to a cell, from the mildest to the gravest.
#[derive(Clone, Copy, Debug, PartialEq, Eq, Structural)]
pub enum Severity {
    /// The cell was not undecided: nothing was done.
    Skipped,
    /// No belief of the cell fell to zero.
    Unchanged,
    /// Some belief of the cell fell to zero.
    Changed,
    /// Some belief fell to zero and no tile is left: the cell died.
    Dead,
}

impl Severity {
    /// The place of the severity in the order from mildest to gravest.
    pub open spec fn rank(self) -> int {
        match self {
            Severity::Skipped => 0,
            Severity::Unchanged => 1,
            Severity::Changed => 2,
            Severity::Dead => 3,
        }
    }

    /// The graver of two severities.
    pub open spec fn worst(self, other: Severity) -> Severity {
        if self.rank() >= other.rank() {
            self
        } else {
            other
        }
    }

    /// Computes the graver of two severities.
    pub fn max(self, other: Severity) -> (s: Severity)
        ensures
            s == self.worst(other),
    {
        match (self, other) {
            (Severity::Dead, _) => Severity::Dead,
            (_, Severity::Dead) => Severity::Dead,
            (Severity::Changed, _) => Severity::Changed,
            (_, Severity::Changed) => Severity::Changed,
            (Severity::Unchanged, _) => Severity::Unchanged,
            (_, Severity::Unchanged) => Severity::Unchanged,
            _ => Severity::Skipped,
        }
    }
}

/// Whether tile `t` is still possible in a cell: its belief is nonzero in
/// every direction.
pub open spec fn alive(cell: Seq<u32>, t: TileId) -> bool {
    &&& cell[slot(t as int, 0)] != 0
    &&& cell[slot(t as int, 1)] != 0
    &&& cell[slot(t as int, 2)] != 0
    &&& cell[slot(t as int, 3)] != 0
}

/// The cell with every tile that is not possible set to zero in every
/// direction.
pub open spec fn culled(cell: Seq<u32>) -> Seq<u32> {
    Seq::new(cell.len(), |k: int| if alive(cell, (k / 4) as usize) { cell[k] } else { 0 })
}

/// Culling keeps the length of a cell and makes no weight nonzero.
pub proof fn lemma_culled(cell: Seq<u32>)
    ensures
        culled(cell).len() == cell.len(),
        forall|k: int| 0 <= k < cell.len() ==> #[trigger] culled(cell)[k] == 0 || culled(cell)[k] == cell[k],
{
}

/// Whether some tile is possible in the cell.
pub open spec fn any_alive(cell: Seq<u32>) -> bool {
    exists|t: TileId| t < cell.len() / 4 && #[trigger] alive(cell, t)
}

/// What an undecided neighbour says for tile `j` standing next to it in
/// direction `dir`: over the first `k_end` tiles that are still possible at
/// the neighbour, the sum of the tile's weight toward `j` times the
/// neighbour's belief in the tile.  Counted in units of `1 / (ONE * ONE)`.
pub open spec fn field_pull(adj: AdjacencySpec, cell: Seq<u32>, j: TileId, dir: int, k_end: int) -> nat
    decreases k_end,
{
    if k_end <= 0 {
        0
    } else {
        let k = (k_end - 1) as usize;
        field_pull(adj, cell, j, dir, k_end - 1) + if alive(cell, k) {
            (adj.weight(k, j, dir) as nat) * (cell[slot(k as int, dir)] as nat)
        } else {
            0
        }
    }
}

/// What a neighbour in state `t` with beliefs `cell` says for tile `j`
/// standing next to it in direction `dir`, in units of `1 / (ONE * ONE)`: a
/// decided neighbour gives its tile's weight toward `j`, an undecided one the
/// sum over its possible tiles, a dead one says 1.
pub open spec fn pull(adj: AdjacencySpec, t: TileType, cell: Seq<u32>, j: TileId, dir: int) -> nat {
    match t {
        TileType::Tile(id) => (adj.weight(id, j, dir) as nat) * (ONE as nat),
        TileType::Field => field_pull(adj, cell, j, dir, adj.n as int),
        TileType::Dead => (ONE as nat) * (ONE as nat),
    }
}

impl GridSpec {
    /// The compatibility of tile `j` at cell `p` with what lies in direction
    /// `d`.  The border tile is compatible with nothing.
    #[verifier::opaque]
    pub open spec fn modifier(self, adj: AdjacencySpec, p: Pos, d: int, j: TileId) -> u32 {
        let q = self.toward(p, d);
        if j == adj.forbidden {
            0
        } else {
            settle(pull(adj, self.type_at(q), self.cell(q), j, opposite(d)))
        }
    }

    /// The belief of cell `p` in tile `j` toward direction `d` after it has
    /// looked at that neighbour: zero stays zero, an incompatible tile falls to
    /// zero, a decided neighbour dictates the belief, and any other neighbour
    /// moves it a little.
    pub open spec fn updated(self, adj: AdjacencySpec, p: Pos, d: int, j: TileId) -> u32 {
        let old = self.field_at(p, d, j);
        let m = self.modifier(adj, p, d, j);
        if old == 0 || m == 0 {
            0
        } else if self.type_at(self.toward(p, d)) is Tile {
            m
        } else {
            blend(old, m)
        }
    }

    /// The beliefs of cell `p` after it has looked at all four neighbours.
    pub open spec fn updated_cell(self, adj: AdjacencySpec, p: Pos) -> Seq<u32> {
        Seq::new(adj.n * 4, |k: int| self.updated(adj, p, k % 4, (k / 4) as usize))
    }

    /// The beliefs of cell `p` after it was recomputed: it has looked at all
    /// four neighbours, and the tiles that are no longer possible are zero in
    /// every direction.
    pub open spec fn renewed_cell(self, adj: AdjacencySpec, p: Pos) -> Seq<u32> {
        culled(self.updated_cell(adj, p))
    }

    /// Whether recomputing cell `p` makes a belief fall to zero because the
    /// tile is incompatible with a neighbour.
    pub open spec fn damaged(self, adj: AdjacencySpec, p: Pos) -> bool {
        exists|j: TileId, d: int|
            j < adj.n && 0 <= d < 4 && self.field_at(p, d, j) != 0 && #[trigger] self.modifier(adj, p, d, j) == 0
    }

    /// Whether one of the first `k_end` beliefs of cell `p` falls to zero when
    /// the cell is recomputed.
    pub open spec fn damaged_below(self, adj: AdjacencySpec, p: Pos, k_end: int) -> bool {
        exists|j: TileId, d: int|
            j < adj.n && 0 <= d < 4 && slot(j as int, d) < k_end && self.field_at(p, d, j) != 0
                && #[trigger] self.modifier(adj, p, d, j) == 0
    }

    /// Whether no tile is possible at cell `p` after it has looked at all four
    /// neighbours.
    pub open spec fn extinct(self, adj: AdjacencySpec, p: Pos) -> bool {
        !any_alive(self.updated_cell(adj, p))
    }

    /// What recomputing cell `p` reports.
    pub open spec fn recalculate_severity(self, adj: AdjacencySpec, p: Pos) -> Severity {
        if !(self.type_at(p) is Field) {
            Severity::Skipped
        } else if !self.damaged(adj, p) {
            Severity::Unchanged
        } else if !self.extinct(adj, p) {
            Severity::Changed
        } else {
            Severity::Dead
        }
    }

    /// The grid after cell `p` was recomputed.  A cell that is not undecided
    /// is left alone.  Otherwise its beliefs are renewed; if a belief fell to
    /// zero, its neighbours are queued and, if no tile survives, it dies; and
    /// if it has a decided neighbour, it becomes a candidate.
    pub open spec fn recalculate(self, adj: AdjacencySpec, p: Pos) -> GridSpec {
        if !(self.type_at(p) is Field) {
            self
        } else {
            let renewed = self.with_cell(p, self.renewed_cell(adj, p));
            let queued = if self.damaged(adj, p) {
                renewed.with_neighbors_queued(p)
            } else {
                renewed
            };
            let listed = if self.has_decided_neighbor(p) && !self.candidates.contains(p) {
                GridSpec { candidates: queued.candidates.push(p), ..queued }
            } else {
                queued
            };
            if self.damaged(adj, p) && self.extinct(adj, p) {
                listed.with_type(p, TileType::Dead)
            } else {
                listed
            }
        }
    }

    /// The grid with the last queued cell taken from the queue.
    pub open spec fn without_last_damage(self) -> GridSpec {
        GridSpec { damage: self.damage.drop_last(), ..self }
    }

    /// The grid after the queued cells were recomputed, the last queued first,
    /// until the queue is empty or, with `early_exit`, until a cell died; and
    /// the gravest severity met.
    pub open spec fn recalculate_all(self, adj: AdjacencySpec, early_exit: bool) -> (GridSpec, Severity)
        decreases self.support(), self.damage.len(),
        when self.wf(adj) && adj.wf()
        via Self::recalculate_all_decreases
    {
        if self.damage.len() == 0 {
            (self, Severity::Skipped)
        } else {
            let p = self.damage.last();
            let popped = self.without_last_damage();
            let next = popped.recalculate(adj, p);
            let severity = popped.recalculate_severity(adj, p);
            if early_exit && severity is Dead {
                (next, severity)
            } else {
                let rest = next.recalculate_all(adj, early_exit);
                (rest.0, severity.worst(rest.1))
            }
        }
    }

    #[via_fn]
    proof fn recalculate_all_decreases(self, adj: AdjacencySpec, early_exit: bool) {
        if self.damage.len() != 0 {
            let p = self.damage.last();
            let popped = self.without_last_damage();
            self.lemma_without_last_damage_wf(adj);
            popped.lemma_recalculate(adj, p);
        }
    }

    /// Whether a belief falls to zero among the first beliefs of a cell is
    /// settled belief by belief, and among all beliefs it is the damage.
    pub proof fn lemma_damaged_below(self, adj: AdjacencySpec, p: Pos, k: int)
        requires
            adj.wf(),
            0 <= k < adj.n * 4,
        ensures
            !self.damaged_below(adj, p, 0),
            self.damaged_below(adj, p, k + 1) == (self.damaged_below(adj, p, k) || (self.field_at(
                p,
                k % 4,
                (k / 4) as usize,
            ) != 0 && self.modifier(adj, p, k % 4, (k / 4) as usize) == 0)),
            self.damaged_below(adj, p, (adj.n * 4) as int) == self.damaged(adj, p),
    {
        let j = (k / 4) as usize;
        let dir = k % 4;
        assert(k == slot(j as int, dir));
        if self.damaged_below(adj, p, k + 1) {
            let (j2, d2) = choose|j2: TileId, d2: int|
                j2 < adj.n && 0 <= d2 < 4 && slot(j2 as int, d2) < k + 1 && self.field_at(p, d2, j2) != 0
                    && #[trigger] self.modifier(adj, p, d2, j2) == 0;
            if slot(j2 as int, d2) == k {
                assert(j2 == j && d2 == dir);
            }
        }
        if self.damaged_below(adj, p, k) {
            let (j2, d2) = choose|j2: TileId, d2: int|
                j2 < adj.n && 0 <= d2 < 4 && slot(j2 as int, d2) < k && self.field_at(p, d2, j2) != 0
                    && #[trigger] self.modifier(adj, p, d2, j2) == 0;
            assert(slot(j2 as int, d2) < k + 1 && self.modifier(adj, p, d2, j2) == 0);
        }
        if self.damaged(adj, p) {
            let (j2, d2) = choose|j2: TileId, d2: int|
                j2 < adj.n && 0 <= d2 < 4 && self.field_at(p, d2, j2) != 0 && #[trigger] self.modifier(adj, p, d2, j2)
                    == 0;
            assert(slot(j2 as int, d2) < adj.n * 4);
        }
    }

    /// The cell that has looked at its neighbours holds the updated belief of
    /// each tile and direction in its slot.
    pub proof fn lemma_updated_cell(self, adj: AdjacencySpec, p: Pos)
        requires
            self.wf(adj),
            adj.wf(),
            self.contains(p),
        ensures
            self.updated_cell(adj, p).len() == adj.n * 4,
            forall|j: TileId, d: int|
                j < adj.n && 0 <= d < 4 ==> self.updated_cell(adj, p)[#[trigger] slot(j as int, d)] == self.updated(
                    adj,
                    p,
                    d,
                    j,
                ),
            forall|k: int|
                0 <= k < adj.n * 4 && #[trigger] self.updated_cell(adj, p)[k] != 0 ==> self.cell(p)[k] != 0,
    {
        assert forall|j: TileId, d: int| j < adj.n && 0 <= d < 4 implies self.updated_cell(adj, p)[#[trigger] slot(
            j as int,
            d,
        )] == self.updated(adj, p, d, j) by {
            let k = slot(j as int, d);
            assert(k % 4 == d && k / 4 == j);
        }
        assert forall|k: int|
            0 <= k < adj.n * 4 && #[trigger] self.updated_cell(adj, p)[k] != 0 implies self.cell(p)[k] != 0 by {
            let d = k % 4;
            let j = (k / 4) as usize;
            assert(k == slot(j as int, d));
            assert(self.updated(adj, p, d, j) != 0);
        }
    }

    /// Recomputing a cell keeps its length and makes no belief nonzero.
    pub proof fn lemma_renewed_cell(self, adj: AdjacencySpec, p: Pos)
        requires
            self.wf(adj),
            adj.wf(),
            self.contains(p),
        ensures
            self.renewed_cell(adj, p).len() == adj.n * 4,
            forall|k: int|
                0 <= k < adj.n * 4 && #[trigger] self.renewed_cell(adj, p)[k] != 0 ==> self.cell(p)[k] != 0,
            forall|k: int|
                0 <= k < adj.n * 4 && self.updated_cell(adj, p)[k] == 0 ==> #[trigger] self.renewed_cell(adj, p)[k]
                    == 0,
    {
        self.lemma_updated_cell(adj, p);
        lemma_culled(self.updated_cell(adj, p));
    }

    /// Recomputing a cell never makes a belief nonzero, removes a nonzero
    /// belief whenever it reports a change, and queues nothing when it
    /// reports none.
    pub proof fn lemma_recalculate_support(self, adj: AdjacencySpec, p: Pos)
        requires
            self.wf(adj),
            adj.wf(),
            self.contains(p),
        ensures
            self.recalculate(adj, p).support() <= self.support(),
            self.recalculate_severity(adj, p).rank() >= 2 ==> self.recalculate(adj, p).support() < self.support(),
            self.recalculate_severity(adj, p).rank() < 2 ==> self.recalculate(adj, p).damage == self.damage,
    {
        if self.type_at(p) is Field {
            let cell = self.cell(p);
            let fresh = self.renewed_cell(adj, p);
            self.lemma_renewed_cell(adj, p);
            lemma_cell_support_shrinks(cell, fresh);
            self.lemma_with_cell_support(p, fresh);
            if self.damaged(adj, p) {
                let (j, d) = choose|j: TileId, d: int|
                    j < adj.n && 0 <= d < 4 && self.field_at(p, d, j) != 0 && #[trigger] self.modifier(adj, p, d, j)
                        == 0;
                let k = slot(j as int, d);
                self.lemma_updated_cell(adj, p);
                assert(self.updated(adj, p, d, j) == 0);
                assert(self.updated_cell(adj, p)[k] == 0);
                assert(fresh[k] == 0 && cell[k] != 0);
            }
            assert(self.recalculate(adj, p).fields == self.with_cell(p, fresh).fields);
        }
    }

    /// Recomputing a cell keeps the grid well formed and its counters, and
    /// leaves no more cells undecided than before.
    pub proof fn lemma_recalculate_wf(self, adj: AdjacencySpec, p: Pos)
        requires
            self.wf(adj),
            adj.wf(),
            self.contains(p),
        ensures
            self.recalculate(adj, p).wf(adj),
            self.recalculate(adj, p).undecided_count() <= self.undecided_count(),
            self.recalculate(adj, p).out_total == self.out_total,
            self.recalculate(adj, p).out_freqs == self.out_freqs,
            self.recalculate(adj, p).fallbacks == self.fallbacks,
            self.recalculate(adj, p).width == self.width,
            self.recalculate(adj, p).height == self.height,
    {
        if self.type_at(p) is Field {
            let fresh = self.renewed_cell(adj, p);
            let renewed = self.with_cell(p, fresh);
            self.lemma_with_cell_wf(adj, p, fresh);
            let queued = if self.damaged(adj, p) {
                renewed.with_neighbors_queued(p)
            } else {
                renewed
            };
            renewed.lemma_with_neighbors_queued_wf(adj, p);
            let listed = if self.has_decided_neighbor(p) && !self.candidates.contains(p) {
                GridSpec { candidates: queued.candidates.push(p), ..queued }
            } else {
                queued
            };
            queued.lemma_push_wf(adj, p);
            listed.lemma_with_type_wf(adj, p, TileType::Dead);
        }
    }

    /// Recomputing a cell makes the measure of the queue's work smaller.
    pub proof fn lemma_recalculate(self, adj: AdjacencySpec, p: Pos)
        requires
            self.wf(adj),
            adj.wf(),
            self.contains(p),
        ensures
            self.recalculate(adj, p).wf(adj),
            self.recalculate(adj, p).support() <= self.support(),
            self.recalculate_severity(adj, p).rank() >= 2 ==> self.recalculate(adj, p).support() < self.support(),
            self.recalculate_severity(adj, p).rank() < 2 ==> self.recalculate(adj, p).damage == self.damage,
    {
        self.lemma_recalculate_support(adj, p);
        self.lemma_recalculate_wf(adj, p);
    }
    /// Taking the last cell from the queue keeps the grid well formed.
    pub proof fn lemma_without_last_damage_wf(self, adj: AdjacencySpec)
        requires
            self.wf(adj),
            self.damage.len() > 0,
        ensures
            self.without_last_damage().wf(adj),
            self.contains(self.damage.last()),
    {
        let popped = self.without_last_damage();
        assert(self.contains(self.damage[self.damage.len() - 1]));
        assert forall|i: int| 0 <= i < popped.damage.len() implies popped.contains(#[trigger] popped.damage[i]) by {
            assert(popped.damage[i] == self.damage[i]);
        }
    }

    /// Where the recomputation of the queued cells ends: the grid is well
    /// formed, no belief has become nonzero, no cell has become undecided, the
    /// counters are unchanged, and the queue is empty unless the recomputation
    /// stopped early at a dead cell.
    pub proof fn lemma_recalculate_all(self, adj: AdjacencySpec, early_exit: bool)
        requires
            self.wf(adj),
            adj.wf(),
        ensures
            self.recalculate_all(adj, early_exit).0.wf(adj),
            self.recalculate_all(adj, early_exit).0.support() <= self.support(),
            self.recalculate_all(adj, early_exit).0.undecided_count() <= self.undecided_count(),
            self.recalculate_all(adj, early_exit).0.out_total == self.out_total,
            self.recalculate_all(adj, early_exit).0.out_freqs == self.out_freqs,
            self.recalculate_all(adj, early_exit).0.fallbacks == self.fallbacks,
            self.recalculate_all(adj, early_exit).0.width == self.width,
            self.recalculate_all(adj, early_exit).0.height == self.height,
            !(early_exit && self.recalculate_all(adj, early_exit).1 is Dead) ==> self.recalculate_all(
                adj,
                early_exit,
            ).0.damage.len() == 0,
        decreases self.support(), self.damage.len(),
    {
        if self.damage.len() != 0 {
            let p = self.damage.last();
            let popped = self.without_last_damage();
            self.lemma_without_last_damage_wf(adj);
            popped.lemma_recalculate(adj, p);
            popped.lemma_recalculate_wf(adj, p);
            let next = popped.recalculate(adj, p);
            let severity = popped.recalculate_severity(adj, p);
            if early_exit && severity is Dead {
            } else {
                next.lemma_recalculate_all(adj, early_exit);
            }
        }
    }
}

impl GridSpec {
    /// Recomputing a cell changes the state of no cell that is decided or
    /// dead.
    pub proof fn lemma_recalculate_keeps(self, adj: AdjacencySpec, p: Pos)
        requires
            self.wf(adj),
            adj.wf(),
            self.contains(p),
        ensures
            self.keeps_settled(self.recalculate(adj, p)),
    {
        if self.type_at(p) is Field {
            let fresh = self.renewed_cell(adj, p);
            let renewed = self.with_cell(p, fresh);
            let queued = if self.damaged(adj, p) {
                renewed.with_neighbors_queued(p)
            } else {
                renewed
            };
            let listed = if self.has_decided_neighbor(p) && !self.candidates.contains(p) {
                GridSpec { candidates: queued.candidates.push(p), ..queued }
            } else {
                queued
            };
            self.lemma_with_cell_wf(adj, p, fresh);
            renewed.lemma_with_neighbors_queued_wf(adj, p);
            queued.lemma_push_wf(adj, p);
            listed.lemma_with_type_at(adj, p, TileType::Dead);
            assert(listed.types == self.types);
        }
    }

    /// Recomputing the queued cells changes the state of no cell that is
    /// decided or dead.
    pub proof fn lemma_recalculate_all_keeps(self, adj: AdjacencySpec, early_exit: bool)
        requires
            self.wf(adj),
            adj.wf(),
        ensures
            self.keeps_settled(self.recalculate_all(adj, early_exit).0),
        decreases self.support(), self.damage.len(),
    {
        if self.damage.len() != 0 {
            let p = self.damage.last();
            let popped = self.without_last_damage();
            self.lemma_without_last_damage_wf(adj);
            popped.lemma_recalculate(adj, p);
            popped.lemma_recalculate_wf(adj, p);
            popped.lemma_recalculate_keeps(adj, p);
            let next = popped.recalculate(adj, p);
            let severity = popped.recalculate_severity(adj, p);
            if early_exit && severity is Dead {
            } else {
                next.lemma_recalculate_all_keeps(adj, early_exit);
                let last = next.recalculate_all(adj, early_exit).0;
                assert forall|q: Pos| self.contains(q) && !(self.type_at(q) is Field) implies #[trigger] last.type_at(
                    q,
                ) == self.type_at(q) by {
                    assert(next.type_at(q) == popped.type_at(q));
                }
            }
        }
    }
}

impl GridSpec {
    /// Recomputing a cell changes no state but that of the cell itself, which
    /// may die; and it takes nothing from the queue or the candidates.
    pub proof fn lemma_recalculate_decays(self, adj: AdjacencySpec, p: Pos)
        requires
            self.wf(adj),
            adj.wf(),
            self.contains(p),
        ensures
            self.decays_to(self.recalculate(adj, p)),
            forall|q: Pos| self.damage.contains(q) ==> self.recalculate(adj, p).damage.contains(q),
            forall|q: Pos| self.candidates.contains(q) ==> self.recalculate(adj, p).candidates.contains(q),
            self.type_at(p) is Field && self.has_decided_neighbor(p) ==> self.recalculate(adj, p).candidates.contains(
                p,
            ),
    {
        if self.type_at(p) is Field {
            let fresh = self.renewed_cell(adj, p);
            let renewed = self.with_cell(p, fresh);
            let queued = if self.damaged(adj, p) {
                renewed.with_neighbors_queued(p)
            } else {
                renewed
            };
            let listed = if self.has_decided_neighbor(p) && !self.candidates.contains(p) {
                GridSpec { candidates: queued.candidates.push(p), ..queued }
            } else {
                queued
            };
            self.lemma_with_cell_wf(adj, p, fresh);
            renewed.lemma_with_neighbors_queued_wf(adj, p);
            queued.lemma_push_wf(adj, p);
            listed.lemma_with_type_at(adj, p, TileType::Dead);
            assert(listed.types == self.types);
            let next = self.recalculate(adj, p);
            assert forall|q: Pos| self.damage.contains(q) implies next.damage.contains(q) by {
                let i = choose|i: int| 0 <= i < self.damage.len() && self.damage[i] == q;
                assert(next.damage[i] == q);
            }
            assert forall|q: Pos| self.candidates.contains(q) implies next.candidates.contains(q) by {
                let i = choose|i: int| 0 <= i < self.candidates.len() && self.candidates[i] == q;
                assert(next.candidates[i] == q);
            }
            if self.has_decided_neighbor(p) && !self.candidates.contains(p) {
                assert(next.candidates[self.candidates.len() as int] == p);
            }
        }
    }

    /// Recomputing the last queued cell keeps every undecided cell with a
    /// decided neighbour among the candidates and the queued cells.
    pub proof fn lemma_step_covered(self, adj: AdjacencySpec, skip: Option<Pos>)
        requires
            self.wf(adj),
            adj.wf(),
            self.damage.len() > 0,
            self.covered_except(skip),
        ensures
            self.without_last_damage().recalculate(adj, self.damage.last()).covered_except(skip),
    {
        let p0 = self.damage.last();
        let popped = self.without_last_damage();
        self.lemma_without_last_damage_wf(adj);
        popped.lemma_recalculate_decays(adj, p0);
        let next = popped.recalculate(adj, p0);
        assert forall|q: Pos|
            next.contains(q) && next.type_at(q) is Field && #[trigger] next.has_decided_neighbor(q) && Some(q)
                != skip implies next.candidates.contains(q) || next.damage.contains(q) by {
            assert(popped.type_at(q) is Field);
            popped.lemma_toward(adj, q, 0);
            popped.lemma_toward(adj, q, 1);
            popped.lemma_toward(adj, q, 2);
            popped.lemma_toward(adj, q, 3);
            assert(next.type_at(popped.toward(q, 0)) is Tile ==> popped.type_at(popped.toward(q, 0)) is Tile);
            assert(next.type_at(popped.toward(q, 1)) is Tile ==> popped.type_at(popped.toward(q, 1)) is Tile);
            assert(next.type_at(popped.toward(q, 2)) is Tile ==> popped.type_at(popped.toward(q, 2)) is Tile);
            assert(next.type_at(popped.toward(q, 3)) is Tile ==> popped.type_at(popped.toward(q, 3)) is Tile);
            assert(self.has_decided_neighbor(q));
            if self.candidates.contains(q) {
                assert(popped.candidates.contains(q));
            } else {
                assert(self.damage.contains(q));
                let i = choose|i: int| 0 <= i < self.damage.len() && self.damage[i] == q;
                if i < self.damage.len() - 1 {
                    assert(popped.damage[i] == q);
                    assert(popped.damage.contains(q));
                } else {
                    assert(q == p0);
                    assert(popped.has_decided_neighbor(p0));
                }
            }
        }
    }

    /// Recomputing the queued cells changes no state but that of cells that
    /// die, and keeps every undecided cell with a decided neighbour among the
    /// candidates and the queued cells.
    pub proof fn lemma_recalculate_all_covered(self, adj: AdjacencySpec, early_exit: bool, skip: Option<Pos>)
        requires
            self.wf(adj),
            adj.wf(),
            self.covered_except(skip),
        ensures
            self.recalculate_all(adj, early_exit).0.covered_except(skip),
            self.decays_to(self.recalculate_all(adj, early_exit).0),
            forall|q: Pos|
                self.candidates.contains(q) ==> self.recalculate_all(adj, early_exit).0.candidates.contains(q),
        decreases self.support(), self.damage.len(),
    {
        if self.damage.len() != 0 {
            let p = self.damage.last();
            let popped = self.without_last_damage();
            self.lemma_without_last_damage_wf(adj);
            popped.lemma_recalculate(adj, p);
            popped.lemma_recalculate_wf(adj, p);
            popped.lemma_recalculate_decays(adj, p);
            self.lemma_step_covered(adj, skip);
            let next = popped.recalculate(adj, p);
            let severity = popped.recalculate_severity(adj, p);
            if early_exit && severity is Dead {
            } else {
                next.lemma_recalculate_all_covered(adj, early_exit, skip);
                let last = next.recalculate_all(adj, early_exit).0;
                assert forall|q: Pos| self.contains(q) implies #[trigger] last.type_at(q) == self.type_at(q) || (
                    self.type_at(q) is Field && last.type_at(q) is Dead) by {
                    assert(next.type_at(q) == popped.type_at(q) || (popped.type_at(q) is Field && next.type_at(q) is Dead));
                }
            }
        }
    }

    /// Recomputing the queued cells changes no state but that of cells that
    /// die, and does not count fallbacks.
    pub proof fn lemma_recalculate_all_decays(self, adj: AdjacencySpec, early_exit: bool)
        requires
            self.wf(adj),
            adj.wf(),
        ensures
            self.decays_to(self.recalculate_all(adj, early_exit).0),
            self.recalculate_all(adj, early_exit).0.fallbacks == self.fallbacks,
        decreases self.support(), self.damage.len(),
    {
        if self.damage.len() != 0 {
            let p = self.damage.last();
            let popped = self.without_last_damage();
            self.lemma_without_last_damage_wf(adj);
            popped.lemma_recalculate(adj, p);
            popped.lemma_recalculate_wf(adj, p);
            popped.lemma_recalculate_decays(adj, p);
            let next = popped.recalculate(adj, p);
            let severity = popped.recalculate_severity(adj, p);
            if early_exit && severity is Dead {
            } else {
                next.lemma_recalculate_all_decays(adj, early_exit);
                let last = next.recalculate_all(adj, early_exit).0;
                assert forall|q: Pos| self.contains(q) implies #[trigger] last.type_at(q) == self.type_at(q) || (
                    self.type_at(q) is Field && last.type_at(q) is Dead) by {
                    assert(next.type_at(q) == popped.type_at(q) || (popped.type_at(q) is Field && next.type_at(q) is Dead));
                }
            }
        }
    }
}

} // verus!
