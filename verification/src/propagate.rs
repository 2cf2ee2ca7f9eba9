//! Constraint propagation: recomputing the beliefs of one cell from its
//! neighbours, and draining the queue of cells to recompute.

use vstd::prelude::*;
use crate::adjacency::slot;
use crate::belief::{Severity, alive, any_alive, culled, field_pull, pull};
use crate::catalog::TileId;
use crate::collapser::{Collapser, contains_pos};
use crate::direction::{DIRECTIONS, get_opposite_direction};
use crate::grid::{GridSpec, Pos, TileType};
use crate::weight::{ONE, blend_weight, settle_weight};

verus! {

impl Collapser {
    /// What a neighbour in state `tile_type` with beliefs `fields` says for
    /// tile `edge` standing next to it in direction `direction`, in units of
    /// `1 / (ONE * ONE)`.
    pub fn actual_weight(&self, tile_type: TileType, fields: &Vec<u32>, edge: TileId, direction: usize) -> (raw:
        u128)
        requires
            self.wf(),
            fields.len() == self.adjacency().n * 4,
            tile_type matches TileType::Tile(id) ==> id < self.adjacency().n,
            edge < self.adjacency().n,
            direction < DIRECTIONS,
        ensures
            raw == pull(self.adjacency(), tile_type, fields@, edge, direction as int),
    {
        match tile_type {
            TileType::Tile(id) => {
                let w: u32 = self.model.edge_weight(id, edge, direction);
                assert(w * ONE <= 0xffff_ffff * 1_000_000) by (nonlinear_arith)
                    requires
                        w <= 0xffff_ffff,
                        ONE == 1_000_000,
                ;
                (w as u128) * (ONE as u128)
            },
            TileType::Field => {
                let n: usize = self.model.tile_count();
                let mut total: u128 = 0;
                let mut k: usize = 0;
                while k < n
                    invariant
                        k <= n,
                        n == self.adjacency().n,
                        self.wf(),
                        fields.len() == n * 4,
                        edge < n,
                        direction < DIRECTIONS,
                        total == field_pull(self.adjacency(), fields@, edge, direction as int, k as int),
                        total <= k * 0xffff_fffe_0000_0001,
                    decreases n - k,
                {
                    assert(slot(k as int, 3) < n * 4);
                    if fields[k * 4] != 0 && fields[k * 4 + 1] != 0 && fields[k * 4 + 2] != 0 && fields[k * 4 + 3] != 0 {
                        let w: u32 = self.model.edge_weight(k, edge, direction);
                        let f: u32 = fields[k * 4 + direction];
                        assert(w * f <= 0xffff_fffe_0000_0001) by (nonlinear_arith)
                            requires
                                w <= 0xffff_ffff,
                                f <= 0xffff_ffff,
                        ;
                        total = total + (w as u128) * (f as u128);
                    }
                    k += 1;
                }
                total
            },
            TileType::Dead => {
                assert(ONE * ONE == 1_000_000_000_000);
                (ONE as u128) * (ONE as u128)
            },
        }
    }

    /// The compatibility of tile `j` at cell `p` with what lies in direction
    /// `dir`.
    pub fn modifier(&self, p: Pos, dir: usize, j: TileId) -> (m: u32)
        requires
            self.wf(),
            self@.contains(p),
            dir < DIRECTIONS,
            j < self.adjacency().n,
        ensures
            m == self@.modifier(self.adjacency(), p, dir as int, j),
    {
        proof {
            reveal(GridSpec::modifier);
        }
        if j == self.model.forbidden() {
            return 0;
        }
        let q: Pos = self.toward(p, dir);
        let t: TileType = self.get_type(q);
        let cell: &Vec<u32> = self.get_all_fields(q);
        let raw: u128 = self.actual_weight(t, cell, j, get_opposite_direction(dir));
        settle_weight(raw)
    }

    /// The beliefs of the undecided cell `p` after it has looked at its four
    /// neighbours, and whether one of them fell to zero.
    pub fn look_around(&self, p: Pos) -> (out: (Vec<u32>, bool))
        requires
            self.wf(),
            self@.contains(p),
        ensures
            out.0@ == self@.updated_cell(self.adjacency(), p),
            out.1 == self@.damaged(self.adjacency(), p),
    {
        let ghost g = self@;
        let ghost adj = self.adjacency();
        let n: usize = self.model.tile_count();
        let mut fresh: Vec<u32> = Vec::new();
        let mut damaged: bool = false;
        let mut k: usize = 0;
        proof {
            if n > 0 {
                g.lemma_damaged_below(adj, p, 0);
            }
        }
        while k < n * 4
            invariant
                k <= n * 4,
                n == adj.n,
                self.wf(),
                self@ == g,
                self.adjacency() == adj,
                g.contains(p),
                fresh.len() == k,
                forall|i: int| 0 <= i < k ==> #[trigger] fresh[i] == g.updated(adj, p, i % 4, (i / 4) as usize),
                damaged == g.damaged_below(adj, p, k as int),
            decreases n * 4 - k,
        {
            let j: TileId = k / 4;
            let dir: usize = k % 4;
            assert(k == slot(j as int, dir as int));
            let old_belief: u32 = self.get_field(p, dir, j);
            let mut belief: u32 = 0;
            if old_belief != 0 {
                let m: u32 = self.modifier(p, dir, j);
                if m != 0 {
                    let q: Pos = self.toward(p, dir);
                    if self.get_type(q).is_real() {
                        belief = m;
                    } else {
                        belief = blend_weight(old_belief, m);
                    }
                } else {
                    damaged = true;
                }
            }
            fresh.push(belief);
            proof {
                g.lemma_damaged_below(adj, p, k as int);
            }
            k += 1;
        }
        proof {
            if n > 0 {
                g.lemma_damaged_below(adj, p, 0);
            }
            assert(fresh@ =~= g.updated_cell(adj, p));
        }
        (fresh, damaged)
    }

    /// Recomputes the beliefs of cell `p` from its four neighbours.
    pub fn recalculate(&mut self, p: Pos) -> (severity: Severity)
        requires
            old(self).wf(),
            old(self)@.contains(p),
        ensures
            final(self).wf(),
            final(self).same_sample(old(self)),
            final(self)@ == old(self)@.recalculate(old(self).adjacency(), p),
            severity == old(self)@.recalculate_severity(old(self).adjacency(), p),
    {
        let ghost g = self@;
        let ghost adj = self.adjacency();
        if self.get_type(p) != TileType::Field {
            return Severity::Skipped;
        }
        let (mut fresh, damaged) = self.look_around(p);
        let any: bool = cull(&mut fresh);
        proof {
            g.lemma_recalculate_wf(adj, p);
            g.lemma_with_cell_wf(adj, p, fresh@);
        }
        self.set_cell(p, fresh);
        if damaged {
            proof {
                self@.lemma_with_neighbors_queued_wf(adj, p);
            }
            self.queue_neighbors(p);
        }
        let near: bool = self.get_type(self.toward(p, 0)).is_real() || self.get_type(self.toward(p, 1)).is_real()
            || self.get_type(self.toward(p, 2)).is_real() || self.get_type(self.toward(p, 3)).is_real();
        assert(near == g.has_decided_neighbor(p));
        if near && !contains_pos(&self.candidates, p) {
            self.candidates.push(p);
            proof {
                assert(self@.fields =~~= g.recalculate(adj, p).fields);
                assert(self@.types =~~= g.types);
            }
        }
        if damaged && !any {
            proof {
                let before = self@;
                if g.has_decided_neighbor(p) && !g.candidates.contains(p) {
                    assert(before.wf(adj)) by {
                        let queued = g.with_cell(p, fresh@).with_neighbors_queued(p);
                        queued.lemma_push_wf(adj, p);
                    }
                }
            }
            self.set_type(p, TileType::Dead);
            Severity::Dead
        } else if damaged {
            Severity::Changed
        } else {
            Severity::Unchanged
        }
    }

    /// Recomputes the queued cells, the last queued first, until the queue is
    /// empty or, with `fail_early`, until a cell died.  Returns the gravest
    /// severity met.
    pub fn recalculate_all(&mut self, fail_early: bool) -> (worst: Severity)
        requires
            old(self).wf(),
        ensures
            final(self).wf(),
            final(self).same_sample(old(self)),
            (final(self)@, worst) == old(self)@.recalculate_all(old(self).adjacency(), fail_early),
    {
        let ghost start = self@;
        let ghost adj = self.adjacency();
        let mut worst: Severity = Severity::Skipped;
        while self.damage.len() > 0
            invariant
                self.wf(),
                self.same_sample(old(self)),
                self.adjacency() == adj,
                start == old(self)@,
                adj == old(self).adjacency(),
                start.wf(adj),
                start.recalculate_all(adj, fail_early).0 == self@.recalculate_all(adj, fail_early).0,
                start.recalculate_all(adj, fail_early).1 == worst.worst(self@.recalculate_all(adj, fail_early).1),
            decreases self@.support(), self@.damage.len(),
        {
            let ghost before = self@;
            proof {
                before.lemma_without_last_damage_wf(adj);
                before.without_last_damage().lemma_recalculate(adj, before.damage.last());
            }
            let p: Pos = self.pop_damage();
            let severity: Severity = self.recalculate(p);
            worst = worst.max(severity);
            proof {
                let popped = before.without_last_damage();
                assert(self@ == popped.recalculate(adj, p));
                assert(severity == popped.recalculate_severity(adj, p));
                if fail_early && severity is Dead {
                    assert(before.recalculate_all(adj, fail_early) == (self@, severity));
                } else {
                    let rest = self@.recalculate_all(adj, fail_early);
                    assert(before.recalculate_all(adj, fail_early) == (rest.0, severity.worst(rest.1)));
                }
            }
            if fail_early && severity == Severity::Dead {
                return worst;
            }
        }
        worst
    }
}

/// Sets every tile that is not possible in the cell to zero in every
/// direction, and says whether some tile is possible.
pub fn cull(cell: &mut Vec<u32>) -> (any: bool)
    requires
        old(cell).len() % 4 == 0,
    ensures
        final(cell)@ == culled(old(cell)@),
        any == any_alive(old(cell)@),
{
    let ghost before = cell@;
    let n: usize = cell.len() / 4;
    let mut any: bool = false;
    let mut t: TileId = 0;
    while t < n
        invariant
            t <= n,
            n * 4 == cell.len(),
            cell.len() == before.len(),
            forall|i: int| 0 <= i < t * 4 ==> #[trigger] cell[i] == culled(before)[i],
            forall|i: int| t * 4 <= i < n * 4 ==> #[trigger] cell[i] == before[i],
            any == exists|u: TileId| u < t && #[trigger] alive(before, u),
        decreases n - t,
    {
        let b: usize = t * 4;
        assert(b == slot(t as int, 0));
        if cell[b] != 0 && cell[b + 1] != 0 && cell[b + 2] != 0 && cell[b + 3] != 0 {
            any = true;
            assert(alive(before, t));
        } else {
            cell.set(b, 0);
            cell.set(b + 1, 0);
            cell.set(b + 2, 0);
            cell.set(b + 3, 0);
            assert(!alive(before, t));
        }
        proof {
            assert forall|i: int| 0 <= i < (t + 1) * 4 implies #[trigger] cell[i] == culled(before)[i] by {
                if i >= b {
                    assert((i / 4) as usize == t);
                }
            }
            if exists|u: TileId| u < t + 1 && #[trigger] alive(before, u) {
                let u = choose|u: TileId| u < t + 1 && #[trigger] alive(before, u);
                if u < t {
                    assert(any);
                }
            }
        }
        t += 1;
    }
    assert(cell@ =~= culled(before));
    any
}

} // verus!
