//! How a cell is decided: the score of each tile, the draw among the scored
//! tiles, and the attempt that commits the drawn tile and takes it back if a
//! cell dies of it.

use vstd::prelude::*;
use crate::adjacency::{AdjacencySpec, slot};
use crate::catalog::TileId;
use crate::direction::opposite;
use crate::grid::{GridSpec, Pos, TileType, nonzero, lemma_cell_support_update};
use crate::weight::{lemma_product4, product4, strength};

verus! {

/// The number that a random draw picks between 0 and `total`: the upper 53
/// bits of the draw, as a fraction of one, times `total`.
pub open spec fn threshold(draw: u64, total: nat) -> nat {
    ((draw as nat / 0x800) * total) / 0x20_0000_0000_0000
}

/// What is kept of a grid so that an attempt can be taken back.
pub struct SnapshotSpec {
    /// The beliefs of all cells.
    pub fields: Seq<Seq<Seq<u32>>>,
    /// The cells queued for recomputation.
    pub damage: Seq<Pos>,
    /// The candidates.
    pub candidates: Seq<Pos>,
}

impl GridSpec {
    /// How strongly cell `p` believes in tile `t`: the product of its beliefs
    /// over the four directions, cut down to 64 bits.
    pub open spec fn cell_strength(self, p: Pos, t: TileId) -> u64 {
        strength(
            product4(self.field_at(p, 0, t), self.field_at(p, 1, t), self.field_at(p, 2, t), self.field_at(p, 3, t)),
        )
    }

    /// Numerator of the frequency bias of tile `t`: its share of the sample
    /// over its share of the accepted decisions, where one more decision for
    /// `t` is counted and the share is 1 as long as nothing is decided.
    pub open spec fn bias_num(self, adj: AdjacencySpec, t: TileId) -> nat {
        if self.out_total == 0 {
            adj.freqs[t as int] as nat
        } else {
            (adj.freqs[t as int] as nat) * self.out_total
        }
    }

    /// Denominator of the frequency bias of tile `t`.
    pub open spec fn bias_den(self, adj: AdjacencySpec, t: TileId) -> nat {
        if self.out_total == 0 {
            adj.total
        } else {
            adj.total * ((self.out_freqs[t as int] + 1) as nat)
        }
    }

    /// The score of tile `t` at cell `p`: the strength of the cell's belief in
    /// it times the frequency bias.  It is zero exactly when the tile is not
    /// possible at the cell or absent from the sample.
    pub open spec fn score(self, adj: AdjacencySpec, p: Pos, t: TileId) -> nat {
        let s = self.cell_strength(p, t) as nat;
        let num = self.bias_num(adj, t);
        let den = self.bias_den(adj, t);
        if s == 0 || num == 0 {
            0
        } else if (s * num) / den == 0 {
            1
        } else {
            (s * num) / den
        }
    }

    /// The sum of the scores of the tiles below `t_end`.
    pub open spec fn score_sum(self, adj: AdjacencySpec, p: Pos, t_end: int) -> nat
        decreases t_end,
    {
        if t_end <= 0 {
            0
        } else {
            self.score_sum(adj, p, t_end - 1) + self.score(adj, p, (t_end - 1) as usize)
        }
    }

    /// Number of tiles below `t_end` with a nonzero score.
    pub open spec fn possible_count(self, adj: AdjacencySpec, p: Pos, t_end: int) -> nat
        decreases t_end,
    {
        if t_end <= 0 {
            0
        } else {
            self.possible_count(adj, p, t_end - 1) + if self.score(adj, p, (t_end - 1) as usize) != 0 {
                1nat
            } else {
                0nat
            }
        }
    }

    /// Whether there is no real choice at cell `p`: fewer than two tiles have
    /// a nonzero score.
    pub open spec fn forced(self, adj: AdjacencySpec, p: Pos) -> bool {
        self.possible_count(adj, p, adj.n as int) < 2
    }

    /// The first tile from `t` on that has a nonzero score and with which the
    /// running sum of the scores reaches `goal`.
    pub open spec fn drawn_from(self, adj: AdjacencySpec, p: Pos, goal: nat, t: int) -> Option<TileId>
        decreases adj.n - t,
    {
        if t < 0 || t >= adj.n {
            None
        } else if self.score(adj, p, t as usize) != 0 && self.score_sum(adj, p, t + 1) >= goal {
            Some(t as usize)
        } else {
            self.drawn_from(adj, p, goal, t + 1)
        }
    }

    /// The tile that the draw picks at cell `p`, each tile with a chance in
    /// proportion to its score; none if no tile has a nonzero score.
    pub open spec fn drawn(self, adj: AdjacencySpec, p: Pos, draw: u64) -> Option<TileId> {
        self.drawn_from(adj, p, threshold(draw, self.score_sum(adj, p, adj.n as int)), 0)
    }

    /// The tile that cell `p` is decided to: the drawn tile or, if there is
    /// none, the most common tile of the sample.
    pub open spec fn decision(self, adj: AdjacencySpec, p: Pos, draw: u64) -> TileId {
        match self.drawn(adj, p, draw) {
            Some(t) => t,
            None => adj.most_common,
        }
    }

    /// What has to be kept of the grid so that it can be restored.
    pub open spec fn snapshot(self) -> SnapshotSpec {
        SnapshotSpec { fields: self.fields, damage: self.damage, candidates: self.candidates }
    }

    /// Whether a snapshot can be put back into this grid: it holds beliefs for
    /// the cells of this grid and positions of this grid.
    pub open spec fn admits(self, s: SnapshotSpec, adj: AdjacencySpec) -> bool {
        &&& s.fields.len() == self.height
        &&& forall|y: int| 0 <= y < self.height ==> (#[trigger] s.fields[y]).len() == self.width
        &&& forall|y: int, x: int|
            0 <= y < self.height && 0 <= x < self.width ==> (#[trigger] s.fields[y][x]).len() == adj.n * 4
        &&& forall|i: int| 0 <= i < s.damage.len() ==> self.contains(#[trigger] s.damage[i])
        &&& forall|i: int| 0 <= i < s.candidates.len() ==> self.contains(#[trigger] s.candidates[i])
    }

    /// The grid with its beliefs and queues put back to a snapshot.
    pub open spec fn restored(self, s: SnapshotSpec) -> GridSpec {
        GridSpec { fields: s.fields, damage: s.damage, candidates: s.candidates, ..self }
    }

    /// The grid with cell `p` decided to tile `t` and its neighbours queued.
    pub open spec fn committed(self, p: Pos, t: TileId) -> GridSpec {
        self.with_type(p, TileType::Tile(t)).with_neighbors_queued(p)
    }

    /// The grid with one belief of cell `p` set to zero.
    pub open spec fn with_zero(self, p: Pos, k: int) -> GridSpec {
        self.with_cell(p, self.cell(p).update(k, 0))
    }

    /// The grid where tile `t` is excluded at cell `p` toward direction `d`,
    /// and at the neighbour in that direction toward `p`, and the neighbour is
    /// queued.
    pub open spec fn banned(self, p: Pos, t: TileId, d: int) -> GridSpec {
        let q = self.toward(p, d);
        let cleared = self.with_zero(p, slot(t as int, d)).with_zero(q, slot(t as int, opposite(d)));
        GridSpec { damage: cleared.damage.push(q), ..cleared }
    }

    /// The grid put back to a snapshot, with cell `p` undecided, a candidate
    /// and queued again.
    pub open spec fn reopened(self, s: SnapshotSpec, p: Pos) -> GridSpec {
        let back = self.with_type(p, TileType::Field).restored(s);
        GridSpec { candidates: back.candidates.push(p), damage: back.damage.push(p), ..back }
    }

    /// The grid after a failed attempt to decide cell `p` to tile `t` was taken
    /// back: beliefs and queues are those of the snapshot, the cell is
    /// undecided, a candidate and queued again, and the tile is excluded there
    /// in every direction.  Cells that died in the attempt stay dead.
    pub open spec fn rolled_back(self, s: SnapshotSpec, p: Pos, t: TileId) -> GridSpec {
        self.reopened(s, p).banned(p, t, 0).banned(p, t, 1).banned(p, t, 2).banned(p, t, 3)
    }

    /// The grid with one more accepted decision for tile `t`; `fell_back`
    /// says that the tile was not drawn but fallen back on.
    pub open spec fn accepted(self, t: TileId, fell_back: bool) -> GridSpec {
        GridSpec {
            out_freqs: self.out_freqs.update(t as int, (self.out_freqs[t as int] + 1) as u32),
            out_total: self.out_total + 1,
            fallbacks: if fell_back {
                self.fallbacks + 1
            } else {
                self.fallbacks
            },
            ..self
        }
    }

    /// One attempt to decide cell `p` with the random number `draw`: the grid
    /// after it, and whether it failed and is to be tried again.  A cell that
    /// is not undecided is left alone.  Otherwise the decision is committed and
    /// its consequences are computed.  If a cell dies of them and there was a
    /// choice, the attempt is taken back, the tile is excluded at the cell and
    /// the queue is drained; else the decision is accepted and counted.
    pub open spec fn collapse(self, adj: AdjacencySpec, p: Pos, draw: u64) -> (GridSpec, bool) {
        if !(self.type_at(p) is Field) {
            (self, false)
        } else {
            let t = self.decision(adj, p, draw);
            let force = self.forced(adj, p);
            let tried = self.committed(p, t).recalculate_all(adj, !force);
            if tried.1 is Dead && !force {
                (tried.0.rolled_back(self.snapshot(), p, t).recalculate_all(adj, false).0, true)
            } else {
                (tried.0.accepted(t, self.drawn(adj, p, draw) is None), false)
            }
        }
    }
}

/// A well-formed grid stays well formed when a snapshot that it admits is put
/// back.
pub proof fn lemma_admitted_wf(grid: GridSpec, s: SnapshotSpec, adj: AdjacencySpec)
    requires
        grid.wf(adj),
        grid.admits(s, adj),
    ensures
        grid.restored(s).wf(adj),
{
}

/// A well-formed grid admits its own snapshots and those of every well-formed
/// grid of its size, and stays well formed when one is put back.
pub proof fn lemma_restore_wf(before: GridSpec, after: GridSpec, adj: AdjacencySpec)
    requires
        before.wf(adj),
        after.wf(adj),
        before.width == after.width,
        before.height == after.height,
    ensures
        after.admits(before.snapshot(), adj),
        after.restored(before.snapshot()).wf(adj),
{
}

/// Restoring a snapshot gives back the beliefs, the queue and the candidates
/// that the grid had when the snapshot was taken, whatever was done to the
/// grid in between.
pub proof fn lemma_restore_gives_back(before: GridSpec, after: GridSpec)
    ensures
        after.restored(before.snapshot()).fields == before.fields,
        after.restored(before.snapshot()).damage == before.damage,
        after.restored(before.snapshot()).candidates == before.candidates,
        after.restored(before.snapshot()).snapshot() == before.snapshot(),
        before.restored(before.snapshot()) == before,
{
}

/// The largest score that a tile can have.
pub open spec fn score_bound() -> nat {
    0xffff_ffff_ffff_ffff * 0xffff_ffff
}

/// The number that a draw picks is at most the total.
pub proof fn lemma_threshold_bound(draw: u64, total: nat)
    ensures
        threshold(draw, total) <= total,
{
    let r = draw as nat / 0x800;
    assert(r < 0x20_0000_0000_0000);
    assert(r * total <= 0x20_0000_0000_0000 * total) by (nonlinear_arith)
        requires
            r < 0x20_0000_0000_0000,
    ;
    assert((r * total) / 0x20_0000_0000_0000 <= total) by (nonlinear_arith)
        requires
            r * total <= 0x20_0000_0000_0000 * total,
    ;
}

impl GridSpec {
    /// A tile has a nonzero score only where all four beliefs in it are
    /// nonzero and the sample holds it; and no score exceeds the bound.
    pub proof fn lemma_score(self, adj: AdjacencySpec, p: Pos, t: TileId)
        requires
            self.wf(adj),
            adj.wf(),
            self.contains(p),
            t < adj.n,
        ensures
            self.score(adj, p, t) != 0 <==> (self.field_at(p, 0, t) != 0 && self.field_at(p, 1, t) != 0
                && self.field_at(p, 2, t) != 0 && self.field_at(p, 3, t) != 0 && adj.freqs[t as int] != 0),
            self.score(adj, p, t) <= score_bound(),
            self.bias_den(adj, t) > 0,
            self.bias_num(adj, t) <= 0xffff_ffff * 0xffff_ffff,
            self.bias_den(adj, t) <= 0xffff_ffff * 0x1_0000_0000,
    {
        lemma_product4(self.field_at(p, 0, t), self.field_at(p, 1, t), self.field_at(p, 2, t), self.field_at(p, 3, t));
        let s = self.cell_strength(p, t) as nat;
        let num = self.bias_num(adj, t);
        let den = self.bias_den(adj, t);
        let sf = adj.freqs[t as int] as nat;
        let tf = adj.total;
        let ot = self.out_total;
        let of = self.out_freqs[t as int] as nat;
        assert(ot <= 0xffff_ffff);
        assert(sf <= tf);
        if ot == 0 {
            assert(s * num <= s * den) by (nonlinear_arith)
                requires
                    num <= den,
            ;
            assert((s * num) / den <= s) by (nonlinear_arith)
                requires
                    s * num <= s * den,
                    den > 0,
            ;
        } else {
            assert(num != 0 <==> sf != 0) by (nonlinear_arith)
                requires
                    num == sf * ot,
                    ot > 0,
            ;
            assert(den > 0 && den <= 0xffff_ffff * 0x1_0000_0000) by (nonlinear_arith)
                requires
                    den == tf * (of + 1),
                    0 < tf <= 0xffff_ffff,
                    of <= 0xffff_ffff,
            ;
            assert(num <= 0xffff_ffff * 0xffff_ffff) by (nonlinear_arith)
                requires
                    num == sf * ot,
                    sf <= 0xffff_ffff,
                    ot <= 0xffff_ffff,
            ;
            assert(s * num <= (s * ot) * den) by (nonlinear_arith)
                requires
                    num == sf * ot,
                    den == tf * (of + 1),
                    sf <= tf,
            ;
            assert((s * num) / den <= s * ot) by (nonlinear_arith)
                requires
                    s * num <= (s * ot) * den,
                    den > 0,
            ;
            assert(s * ot <= 0xffff_ffff_ffff_ffff * 0xffff_ffff) by (nonlinear_arith)
                requires
                    s <= 0xffff_ffff_ffff_ffff,
                    ot <= 0xffff_ffff,
            ;
        }
    }

    /// The sum of the first scores is bounded by their number times the
    /// largest score, and grows with their number.
    pub proof fn lemma_score_sum(self, adj: AdjacencySpec, p: Pos, t_end: int)
        requires
            self.wf(adj),
            adj.wf(),
            self.contains(p),
            0 <= t_end <= adj.n,
        ensures
            self.score_sum(adj, p, t_end) <= t_end * score_bound(),
            self.score_sum(adj, p, t_end) <= self.score_sum(adj, p, adj.n as int),
            self.possible_count(adj, p, t_end) <= self.possible_count(adj, p, adj.n as int),
            self.possible_count(adj, p, t_end) == 0 <==> self.score_sum(adj, p, t_end) == 0,
        decreases adj.n - t_end,
    {
        self.lemma_score_prefix(adj, p, t_end);
        if t_end < adj.n {
            self.lemma_score_sum(adj, p, t_end + 1);
        }
    }

    proof fn lemma_score_prefix(self, adj: AdjacencySpec, p: Pos, t_end: int)
        requires
            self.wf(adj),
            adj.wf(),
            self.contains(p),
            0 <= t_end <= adj.n,
        ensures
            self.score_sum(adj, p, t_end) <= t_end * score_bound(),
            self.possible_count(adj, p, t_end) == 0 <==> self.score_sum(adj, p, t_end) == 0,
        decreases t_end,
    {
        if t_end > 0 {
            self.lemma_score_prefix(adj, p, t_end - 1);
            self.lemma_score(adj, p, (t_end - 1) as usize);
            assert((t_end - 1) * score_bound() + score_bound() == t_end * score_bound()) by (nonlinear_arith);
        }
    }

    /// A drawn tile is a tile of the model, from the start of the search on,
    /// with a nonzero score.
    pub proof fn lemma_drawn_from(self, adj: AdjacencySpec, p: Pos, goal: nat, t: int)
        requires
            adj.wf(),
            0 <= t,
        ensures
            self.drawn_from(adj, p, goal, t) matches Some(u) ==> t <= u < adj.n && self.score(adj, p, u) != 0,
        decreases adj.n - t,
    {
        if t < adj.n {
            self.lemma_drawn_from(adj, p, goal, t + 1);
        }
    }

    /// Where a tile from `t` on has a nonzero score and the goal is at most
    /// the sum of all scores, a tile is drawn.
    pub proof fn lemma_drawn_exists(self, adj: AdjacencySpec, p: Pos, goal: nat, t: int)
        requires
            self.wf(adj),
            adj.wf(),
            self.contains(p),
            0 <= t <= adj.n,
            goal <= self.score_sum(adj, p, adj.n as int),
            self.score_sum(adj, p, t) < self.score_sum(adj, p, adj.n as int),
        ensures
            self.drawn_from(adj, p, goal, t) is Some,
        decreases adj.n - t,
    {
        if t < adj.n {
            if self.score(adj, p, t as usize) != 0 && self.score_sum(adj, p, t + 1) >= goal {
            } else {
                if self.score_sum(adj, p, t + 1) < self.score_sum(adj, p, adj.n as int) {
                    self.lemma_drawn_exists(adj, p, goal, t + 1);
                } else {
                    self.lemma_score_sum(adj, p, t + 1);
                }
            }
        }
    }

    /// Where some tile has a nonzero score, every draw picks a tile.
    pub proof fn lemma_drawn(self, adj: AdjacencySpec, p: Pos, draw: u64)
        requires
            self.wf(adj),
            adj.wf(),
            self.contains(p),
        ensures
            self.drawn(adj, p, draw) matches Some(t) ==> t < adj.n && self.score(adj, p, t) != 0,
            self.drawn(adj, p, draw) is None <==> self.possible_count(adj, p, adj.n as int) == 0,
            self.decision(adj, p, draw) < adj.n,
    {
        let total = self.score_sum(adj, p, adj.n as int);
        let goal = threshold(draw, total);
        lemma_threshold_bound(draw, total);
        self.lemma_drawn_from(adj, p, goal, 0);
        self.lemma_score_sum(adj, p, adj.n as int);
        if total > 0 {
            self.lemma_drawn_exists(adj, p, goal, 0);
        } else {
            if self.drawn(adj, p, draw) is Some {
                let t = self.drawn(adj, p, draw)->0;
                self.lemma_score_sum(adj, p, t as int + 1);
                assert(self.score_sum(adj, p, t as int + 1) >= self.score(adj, p, t));
            }
        }
    }
}

impl GridSpec {
    /// Setting a belief to zero keeps the grid well formed and takes the
    /// belief out of the support, if it was in it.
    pub proof fn lemma_with_zero(self, adj: AdjacencySpec, p: Pos, k: int)
        requires
            self.wf(adj),
            self.contains(p),
            0 <= k < adj.n * 4,
        ensures
            self.with_zero(p, k).wf(adj),
            self.with_zero(p, k).support() + nonzero(self.cell(p)[k]) == self.support(),
    {
        let cell = self.cell(p);
        lemma_cell_support_update(cell, k, 0);
        self.lemma_with_cell_support(p, cell.update(k, 0));
        self.lemma_with_cell_wf(adj, p, cell.update(k, 0));
    }

    /// Excluding a tile at a cell toward one direction keeps the grid well
    /// formed, makes no belief nonzero, and removes the cell's belief in the
    /// tile toward that direction from the support, if it was in it.
    pub proof fn lemma_banned(self, adj: AdjacencySpec, p: Pos, t: TileId, d: int)
        requires
            self.wf(adj),
            self.contains(p),
            t < adj.n,
            0 <= d < 4,
        ensures
            self.banned(p, t, d).wf(adj),
            self.banned(p, t, d).support() + nonzero(self.field_at(p, d, t)) <= self.support(),
            self.banned(p, t, d).types == self.types,
            self.banned(p, t, d).out_total == self.out_total,
    {
        let q = self.toward(p, d);
        let first = self.with_zero(p, slot(t as int, d));
        self.lemma_with_zero(adj, p, slot(t as int, d));
        first.lemma_with_zero(adj, q, slot(t as int, opposite(d)));
        let cleared = first.with_zero(q, slot(t as int, opposite(d)));
        cleared.lemma_push_wf(adj, q);
    }

    /// Deciding an undecided cell and queueing its neighbours keeps the grid
    /// well formed and leaves one cell fewer undecided.
    pub proof fn lemma_committed(self, adj: AdjacencySpec, p: Pos, t: TileId)
        requires
            self.wf(adj),
            self.contains(p),
            self.type_at(p) is Field,
            t < adj.n,
        ensures
            self.committed(p, t).wf(adj),
            self.committed(p, t).undecided_count() + 1 == self.undecided_count(),
            self.committed(p, t).support() == self.support(),
            self.committed(p, t).out_total == self.out_total,
    {
        self.lemma_with_type_wf(adj, p, TileType::Tile(t));
        self.with_type(p, TileType::Tile(t)).lemma_with_neighbors_queued_wf(adj, p);
    }

    /// Putting the grid back to a snapshot and reopening a cell gives a
    /// well-formed grid with the snapshot's support and at most one more
    /// undecided cell.
    pub proof fn lemma_reopened(self, adj: AdjacencySpec, before: GridSpec, p: Pos)
        requires
            self.wf(adj),
            before.wf(adj),
            self.width == before.width,
            self.height == before.height,
            self.contains(p),
            self.out_total + self.undecided_count() + 1 <= self.width * self.height,
        ensures
            self.with_type(p, TileType::Field).restored(before.snapshot()).wf(adj),
            self.reopened(before.snapshot(), p).wf(adj),
            self.reopened(before.snapshot(), p).undecided_count() <= self.undecided_count() + 1,
            self.reopened(before.snapshot(), p).support() == before.support(),
            self.reopened(before.snapshot(), p).out_total == self.out_total,
            self.reopened(before.snapshot(), p).cell(p) == before.cell(p),
    {
        let typed = self.with_type(p, TileType::Field);
        self.lemma_with_type_undecided(p, TileType::Field);
        assert(typed.wf(adj)) by {
            assert forall|y: int| 0 <= y < typed.height implies (#[trigger] typed.types[y]).len() == typed.width by {
                assert(self.types[y].len() == self.width);
            }
            assert forall|y: int, x: int| 0 <= y < typed.height && 0 <= x < typed.width implies ((#[trigger] typed.types[y][x]) matches TileType::Tile(
                id,
            ) ==> id < adj.n) by {
                if y == p.1 && x == p.0 {
                } else {
                    assert(typed.types[y][x] == self.types[y][x]);
                }
            }
        }
        let back = typed.restored(before.snapshot());
        assert(back.wf(adj));
        back.lemma_push_wf(adj, p);
        let half = GridSpec { candidates: back.candidates.push(p), ..back };
        half.lemma_push_wf(adj, p);
        assert(self.reopened(before.snapshot(), p) == (GridSpec { damage: half.damage.push(p), ..half }));
    }

    /// Taking back a failed attempt gives a well-formed grid with at most one
    /// more undecided cell, and with less support than the snapshot had if the
    /// cell's belief in the tile was nonzero there.
    pub proof fn lemma_rolled_back(self, adj: AdjacencySpec, before: GridSpec, p: Pos, t: TileId)
        requires
            self.wf(adj),
            before.wf(adj),
            self.width == before.width,
            self.height == before.height,
            self.contains(p),
            t < adj.n,
            self.out_total + self.undecided_count() + 1 <= self.width * self.height,
        ensures
            self.rolled_back(before.snapshot(), p, t).wf(adj),
            self.rolled_back(before.snapshot(), p, t).undecided_count() <= self.undecided_count() + 1,
            self.rolled_back(before.snapshot(), p, t).support() + nonzero(before.field_at(p, 0, t))
                <= before.support(),
            self.rolled_back(before.snapshot(), p, t).out_total == self.out_total,
    {
        self.lemma_reopened(adj, before, p);
        let listed = self.reopened(before.snapshot(), p);
        listed.lemma_banned(adj, p, t, 0);
        let b0 = listed.banned(p, t, 0);
        b0.lemma_banned(adj, p, t, 1);
        let b1 = b0.banned(p, t, 1);
        b1.lemma_banned(adj, p, t, 2);
        let b2 = b1.banned(p, t, 2);
        b2.lemma_banned(adj, p, t, 3);
    }

    /// Counting one more accepted decision keeps the grid well formed if a
    /// cell is accounted for that is no longer undecided.
    pub proof fn lemma_accepted(self, adj: AdjacencySpec, t: TileId, fell_back: bool)
        requires
            self.wf(adj),
            t < adj.n,
            self.out_total + self.undecided_count() + 1 <= self.width * self.height,
        ensures
            self.accepted(t, fell_back).wf(adj),
            self.out_freqs[t as int] < u32::MAX,
            self.out_total < u32::MAX,
            self.fallbacks < u32::MAX,
    {
        let g = self.accepted(t, fell_back);
        assert forall|u: int| 0 <= u < adj.n implies (#[trigger] g.out_freqs[u]) <= g.out_total by {
            assert(self.out_freqs[u] <= self.out_total);
        }
    }

    /// What an attempt leaves: a well-formed grid of the same size with an
    /// empty queue, if the cell was undecided; after a failure less support
    /// and no more undecided cells than before; after a success fewer
    /// undecided cells, if the cell was undecided.
    pub proof fn lemma_collapse(self, adj: AdjacencySpec, p: Pos, draw: u64)
        requires
            self.wf(adj),
            adj.wf(),
            self.contains(p),
        ensures
            self.collapse(adj, p, draw).0.wf(adj),
            self.collapse(adj, p, draw).0.width == self.width,
            self.collapse(adj, p, draw).0.height == self.height,
            !(self.type_at(p) is Field) ==> self.collapse(adj, p, draw) == (self, false),
            self.type_at(p) is Field ==> self.collapse(adj, p, draw).0.damage.len() == 0,
            self.collapse(adj, p, draw).1 ==> self.collapse(adj, p, draw).0.support() < self.support()
                && self.collapse(adj, p, draw).0.undecided_count() <= self.undecided_count(),
            self.type_at(p) is Field && !self.collapse(adj, p, draw).1 ==> self.collapse(
                adj,
                p,
                draw,
            ).0.undecided_count() < self.undecided_count(),
    {
        if self.type_at(p) is Field {
            let t = self.decision(adj, p, draw);
            let force = self.forced(adj, p);
            self.lemma_drawn(adj, p, draw);
            self.lemma_committed(adj, p, t);
            let start = self.committed(p, t);
            start.lemma_recalculate_all(adj, !force);
            let tried = start.recalculate_all(adj, !force);
            if tried.1 is Dead && !force {
                assert(self.drawn(adj, p, draw) is Some);
                self.lemma_score(adj, p, t);
                tried.0.lemma_rolled_back(adj, self, p, t);
                let back = tried.0.rolled_back(self.snapshot(), p, t);
                back.lemma_recalculate_all(adj, false);
            } else {
                tried.0.lemma_accepted(adj, t, self.drawn(adj, p, draw) is None);
            }
        }
    }
}

impl GridSpec {
    /// An attempt changes the state of no cell that is decided or dead; and
    /// where it succeeds on an undecided cell, the cell holds the decision.
    pub proof fn lemma_collapse_keeps(self, adj: AdjacencySpec, p: Pos, draw: u64)
        requires
            self.wf(adj),
            adj.wf(),
            self.contains(p),
        ensures
            self.keeps_settled(self.collapse(adj, p, draw).0),
            self.type_at(p) is Field && !self.collapse(adj, p, draw).1 ==> self.collapse(adj, p, draw).0.type_at(p)
                == TileType::Tile(self.decision(adj, p, draw)),
    {
        if self.type_at(p) is Field {
            let t = self.decision(adj, p, draw);
            let force = self.forced(adj, p);
            self.lemma_drawn(adj, p, draw);
            self.lemma_committed(adj, p, t);
            self.lemma_with_type_at(adj, p, TileType::Tile(t));
            let start = self.committed(p, t);
            assert(start.type_at(p) == TileType::Tile(t));
            start.lemma_recalculate_all(adj, !force);
            start.lemma_recalculate_all_keeps(adj, !force);
            let tried = start.recalculate_all(adj, !force);
            assert forall|q: Pos| self.contains(q) && !(self.type_at(q) is Field) implies #[trigger] tried.0.type_at(
                q,
            ) == self.type_at(q) by {
                assert(start.type_at(q) == self.type_at(q));
            }
            if tried.1 is Dead && !force {
                self.lemma_score(adj, p, t);
                tried.0.lemma_rolled_back(adj, self, p, t);
                tried.0.lemma_with_type_at(adj, p, TileType::Field);
                let back = tried.0.rolled_back(self.snapshot(), p, t);
                tried.0.lemma_rolled_back_types(adj, self, p, t);
                assert(back.types == tried.0.with_type(p, TileType::Field).types);
                back.lemma_recalculate_all(adj, false);
                back.lemma_recalculate_all_keeps(adj, false);
                let last = back.recalculate_all(adj, false).0;
                assert forall|q: Pos| self.contains(q) && !(self.type_at(q) is Field) implies #[trigger] last.type_at(
                    q,
                ) == self.type_at(q) by {
                    assert(tried.0.type_at(q) == self.type_at(q));
                    assert(back.type_at(q) == tried.0.type_at(q));
                }
                assert(self.keeps_settled(last));
            } else {
                assert(tried.0.type_at(p) == start.type_at(p));
                let done = tried.0.accepted(t, self.drawn(adj, p, draw) is None);
                assert(done.types == tried.0.types);
                assert forall|q: Pos| self.contains(q) && !(self.type_at(q) is Field) implies #[trigger] done.type_at(
                    q,
                ) == self.type_at(q) by {
                    assert(tried.0.type_at(q) == self.type_at(q));
                }
                assert(self.keeps_settled(done));
            }
        }
    }

    /// Taking back an attempt changes the state of the reopened cell only.
    pub proof fn lemma_rolled_back_types(self, adj: AdjacencySpec, before: GridSpec, p: Pos, t: TileId)
        requires
            self.wf(adj),
            before.wf(adj),
            self.width == before.width,
            self.height == before.height,
            self.contains(p),
            t < adj.n,
            self.out_total + self.undecided_count() + 1 <= self.width * self.height,
        ensures
            self.rolled_back(before.snapshot(), p, t).types == self.with_type(p, TileType::Field).types,
            self.rolled_back(before.snapshot(), p, t).width == self.width,
            self.rolled_back(before.snapshot(), p, t).height == self.height,
    {
        self.lemma_reopened(adj, before, p);
        let listed = self.reopened(before.snapshot(), p);
        listed.lemma_banned(adj, p, t, 0);
        let b0 = listed.banned(p, t, 0);
        b0.lemma_banned(adj, p, t, 1);
        let b1 = b0.banned(p, t, 1);
        b1.lemma_banned(adj, p, t, 2);
        let b2 = b1.banned(p, t, 2);
        b2.lemma_banned(adj, p, t, 3);
    }
}

impl GridSpec {
    /// After a cell was decided and its neighbours were queued, every
    /// undecided cell with a decided neighbour is a candidate or queued, if
    /// that held before of every cell but the decided one.
    pub proof fn lemma_committed_covered(self, adj: AdjacencySpec, p: Pos, t: TileId)
        requires
            self.wf(adj),
            self.contains(p),
            self.type_at(p) is Field,
            t < adj.n,
            self.covered_except(Some(p)),
        ensures
            self.committed(p, t).covered(),
    {
        let typed = self.with_type(p, TileType::Tile(t));
        let next = self.committed(p, t);
        self.lemma_with_type_at(adj, p, TileType::Tile(t));
        assert(next.types == typed.types);
        let n = self.damage.len() as int;
        assert(next.damage[n] == self.toward(p, 0));
        assert(next.damage[n + 1] == self.toward(p, 1));
        assert(next.damage[n + 2] == self.toward(p, 2));
        assert(next.damage[n + 3] == self.toward(p, 3));
        assert forall|q: Pos|
            next.contains(q) && next.type_at(q) is Field && #[trigger] next.has_decided_neighbor(q) implies next.candidates.contains(
            q,
        ) || next.damage.contains(q) by {
            assert(q != p);
            self.lemma_toward(adj, q, 0);
            self.lemma_toward(adj, q, 1);
            self.lemma_toward(adj, q, 2);
            self.lemma_toward(adj, q, 3);
            if self.toward(q, 0) == p || self.toward(q, 1) == p || self.toward(q, 2) == p || self.toward(q, 3) == p {
                assert(q == self.toward(p, 0) || q == self.toward(p, 1) || q == self.toward(p, 2) || q
                    == self.toward(p, 3));
            } else {
                assert(self.has_decided_neighbor(q));
                if self.damage.contains(q) {
                    let i = choose|i: int| 0 <= i < self.damage.len() && self.damage[i] == q;
                    assert(next.damage[i] == q);
                }
            }
        }
    }

    /// Excluding a tile changes neither states nor candidates and takes
    /// nothing from the queue.
    pub proof fn lemma_banned_queues(self, adj: AdjacencySpec, p: Pos, t: TileId, d: int)
        requires
            self.wf(adj),
            self.contains(p),
            t < adj.n,
            0 <= d < 4,
        ensures
            self.banned(p, t, d).types == self.types,
            self.banned(p, t, d).candidates == self.candidates,
            self.banned(p, t, d).width == self.width,
            self.banned(p, t, d).height == self.height,
            self.banned(p, t, d).damage == self.damage.push(self.toward(p, d)),
            forall|q: Pos| self.damage.contains(q) ==> self.banned(p, t, d).damage.contains(q),
    {
        let next = self.banned(p, t, d);
        assert forall|q: Pos| self.damage.contains(q) implies next.damage.contains(q) by {
            let i = choose|i: int| 0 <= i < self.damage.len() && self.damage[i] == q;
            assert(next.damage[i] == q);
        }
    }

    /// After a failed attempt was taken back, every undecided cell with a
    /// decided neighbour is a candidate or queued, if that held before the
    /// attempt of every cell but the attempted one and the attempt changed no
    /// state but that of the attempted cell and of cells that died.
    pub proof fn lemma_rolled_back_covered(self, adj: AdjacencySpec, before: GridSpec, p: Pos, t: TileId)
        requires
            self.wf(adj),
            before.wf(adj),
            self.width == before.width,
            self.height == before.height,
            self.contains(p),
            t < adj.n,
            self.out_total + self.undecided_count() + 1 <= self.width * self.height,
            before.covered_except(Some(p)),
            forall|q: Pos|
                before.contains(q) && q != p ==> #[trigger] self.type_at(q) == before.type_at(q) || (
                before.type_at(q) is Field && self.type_at(q) is Dead),
        ensures
            self.rolled_back(before.snapshot(), p, t).covered(),
    {
        self.lemma_reopened(adj, before, p);
        self.lemma_with_type_at(adj, p, TileType::Field);
        let listed = self.reopened(before.snapshot(), p);
        listed.lemma_banned(adj, p, t, 0);
        listed.lemma_banned_queues(adj, p, t, 0);
        let b0 = listed.banned(p, t, 0);
        b0.lemma_banned(adj, p, t, 1);
        b0.lemma_banned_queues(adj, p, t, 1);
        let b1 = b0.banned(p, t, 1);
        b1.lemma_banned(adj, p, t, 2);
        b1.lemma_banned_queues(adj, p, t, 2);
        let b2 = b1.banned(p, t, 2);
        b2.lemma_banned(adj, p, t, 3);
        b2.lemma_banned_queues(adj, p, t, 3);
        let last = b2.banned(p, t, 3);
        assert(last.types == self.with_type(p, TileType::Field).types);
        assert(listed.candidates[before.candidates.len() as int] == p);
        assert(listed.candidates.contains(p));
        assert forall|q: Pos|
            last.contains(q) && last.type_at(q) is Field && #[trigger] last.has_decided_neighbor(q) implies last.candidates.contains(
            q,
        ) || last.damage.contains(q) by {
            if q != p {
                assert(last.type_at(q) == self.type_at(q));
                assert(before.type_at(q) is Field);
                before.lemma_toward(adj, q, 0);
                before.lemma_toward(adj, q, 1);
                before.lemma_toward(adj, q, 2);
                before.lemma_toward(adj, q, 3);
                assert forall|d: int| 0 <= d < 4 && last.type_at(before.toward(q, d)) is Tile implies before.type_at(
                    before.toward(q, d),
                ) is Tile by {
                    let r = before.toward(q, d);
                    assert(r != p);
                    assert(last.type_at(r) == self.type_at(r));
                }
                assert(before.has_decided_neighbor(q));
                if before.candidates.contains(q) {
                    let i = choose|i: int| 0 <= i < before.candidates.len() && before.candidates[i] == q;
                    assert(listed.candidates[i] == q);
                } else {
                    let i = choose|i: int| 0 <= i < before.damage.len() && before.damage[i] == q;
                    assert(listed.damage[i] == q);
                    assert(listed.damage.contains(q));
                }
            }
        }
    }

    /// After an attempt on an undecided cell, every undecided cell with a
    /// decided neighbour is a candidate or queued, if that held before of
    /// every cell but the attempted one.
    pub proof fn lemma_collapse_covered(self, adj: AdjacencySpec, p: Pos, draw: u64)
        requires
            self.wf(adj),
            adj.wf(),
            self.contains(p),
            self.type_at(p) is Field,
            self.covered_except(Some(p)),
        ensures
            self.collapse(adj, p, draw).0.covered(),
    {
        let t = self.decision(adj, p, draw);
        let force = self.forced(adj, p);
        self.lemma_drawn(adj, p, draw);
        self.lemma_committed(adj, p, t);
        self.lemma_committed_covered(adj, p, t);
        self.lemma_with_type_at(adj, p, TileType::Tile(t));
        let start = self.committed(p, t);
        start.lemma_recalculate_all(adj, !force);
        start.lemma_recalculate_all_covered(adj, !force, None);
        let tried = start.recalculate_all(adj, !force);
        if tried.1 is Dead && !force {
            assert forall|q: Pos| self.contains(q) && q != p implies #[trigger] tried.0.type_at(q) == self.type_at(q)
                || (self.type_at(q) is Field && tried.0.type_at(q) is Dead) by {
                assert(start.type_at(q) == self.type_at(q));
            }
            tried.0.lemma_rolled_back(adj, self, p, t);
            tried.0.lemma_rolled_back_covered(adj, self, p, t);
            let back = tried.0.rolled_back(self.snapshot(), p, t);
            back.lemma_recalculate_all_covered(adj, false, None);
        } else {
            let done = tried.0.accepted(t, self.drawn(adj, p, draw) is None);
            assert forall|q: Pos|
                done.contains(q) && done.type_at(q) is Field && #[trigger] done.has_decided_neighbor(q) implies done.candidates.contains(
                q,
            ) || done.damage.contains(q) by {
                assert(tried.0.has_decided_neighbor(q));
            }
        }
    }
}

} // verus!
