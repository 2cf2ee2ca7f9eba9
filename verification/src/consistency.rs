//! Local consistency: decided neighbours hold tiles that touched in the
//! sample, as long as no decision had to fall back on the most common tile.

use vstd::prelude::*;
use crate::adjacency::{AdjacencySpec, slot};
use crate::belief::pull;
use crate::catalog::TileId;
use crate::direction::opposite;
use crate::grid::{GridSpec, Pos, TileType};
use crate::rng::rand64_rand_u64;

verus! {

impl GridSpec {
    /// Whether cell `p` believes, toward direction `d`, only in tiles that may
    /// stand next to the decided neighbour there, if there is one.
    pub open spec fn agrees(self, adj: AdjacencySpec, p: Pos, d: int) -> bool {
        self.type_at(self.toward(p, d)) matches TileType::Tile(b) ==> forall|j: TileId|
            j < adj.n && #[trigger] self.field_at(p, d, j) != 0 ==> adj.weight(b, j, opposite(d)) > 0
    }

    /// Whether every undecided cell that is not queued agrees with its
    /// decided neighbours.
    pub open spec fn informed(self, adj: AdjacencySpec) -> bool {
        forall|p: Pos, d: int|
            self.contains(p) && 0 <= d < 4 && self.type_at(p) is Field && !self.damage.contains(p)
                ==> #[trigger] self.agrees(adj, p, d)
    }

    /// Whether cell `p` and its neighbour in direction `d`, if both are
    /// decided and not both hold the border tile, hold tiles of which the
    /// second was seen next to the first in that direction.
    pub open spec fn pair_fits(self, adj: AdjacencySpec, p: Pos, d: int) -> bool {
        match (self.type_at(p), self.type_at(self.toward(p, d))) {
            (TileType::Tile(a), TileType::Tile(b)) => (a == adj.forbidden && b == adj.forbidden) || adj.weight(
                a,
                b,
                d,
            ) > 0,
            _ => true,
        }
    }

    /// Whether all pairs of decided neighbours fit.
    pub open spec fn consistent(self, adj: AdjacencySpec) -> bool {
        forall|p: Pos, d: int| self.contains(p) && 0 <= d < 4 ==> #[trigger] self.pair_fits(adj, p, d)
    }

    /// Whether the grid is sound: undecided cells agree with their decided
    /// neighbours, and decided neighbours fit unless a decision fell back on
    /// the most common tile.
    pub open spec fn sound(self, adj: AdjacencySpec) -> bool {
        &&& self.informed(adj)
        &&& self.fallbacks == 0 ==> self.consistent(adj)
    }

    /// A recomputed cell agrees with its decided neighbours.
    pub proof fn lemma_renewed_agrees(self, adj: AdjacencySpec, p: Pos, d: int, j: TileId)
        requires
            self.wf(adj),
            adj.wf(),
            self.contains(p),
            0 <= d < 4,
            j < adj.n,
            self.type_at(self.toward(p, d)) is Tile,
            self.renewed_cell(adj, p)[slot(j as int, d)] != 0,
        ensures
            adj.weight(self.type_at(self.toward(p, d))->0, j, opposite(d)) > 0,
    {
        reveal(GridSpec::modifier);
        self.lemma_updated_cell(adj, p);
        self.lemma_renewed_cell(adj, p);
        let k = slot(j as int, d);
        assert(self.updated_cell(adj, p)[k] != 0);
        assert(self.updated(adj, p, d, j) != 0);
        let q = self.toward(p, d);
        let b = self.type_at(q)->0;
        let m = self.modifier(adj, p, d, j);
        assert(m != 0);
        let raw = pull(adj, self.type_at(q), self.cell(q), j, opposite(d));
        assert(raw != 0);
        assert(raw == (adj.weight(b, j, opposite(d)) as nat) * (crate::weight::ONE as nat));
        assert(adj.weight(b, j, opposite(d)) != 0) by (nonlinear_arith)
            requires
                (adj.weight(b, j, opposite(d)) as nat) * (crate::weight::ONE as nat) != 0,
        ;
    }

    /// Recomputing the last queued cell keeps the undecided cells that are
    /// not queued in agreement with their decided neighbours.
    pub proof fn lemma_step_informed(self, adj: AdjacencySpec)
        requires
            self.wf(adj),
            adj.wf(),
            self.damage.len() > 0,
            self.informed(adj),
        ensures
            self.without_last_damage().recalculate(adj, self.damage.last()).informed(adj),
    {
        let p0 = self.damage.last();
        let popped = self.without_last_damage();
        self.lemma_without_last_damage_wf(adj);
        popped.lemma_recalculate_decays(adj, p0);
        popped.lemma_recalculate_wf(adj, p0);
        let next = popped.recalculate(adj, p0);
        let fresh = popped.renewed_cell(adj, p0);
        if popped.type_at(p0) is Field {
            popped.lemma_with_cell_at(adj, p0, fresh);
            assert(next.fields == popped.with_cell(p0, fresh).fields);
        }
        assert forall|p: Pos, d: int|
            next.contains(p) && 0 <= d < 4 && next.type_at(p) is Field && !next.damage.contains(p) implies #[trigger] next.agrees(
            adj,
            p,
            d,
        ) by {
            let q = next.toward(p, d);
            popped.lemma_toward(adj, p, d);
            if next.type_at(q) is Tile {
                assert(popped.type_at(q) == next.type_at(q));
                let b = next.type_at(q)->0;
                assert(popped.type_at(p) is Field);
                if p == p0 {
                    assert forall|j: TileId| j < adj.n && #[trigger] next.field_at(p, d, j) != 0 implies adj.weight(
                        b,
                        j,
                        opposite(d),
                    ) > 0 by {
                        popped.lemma_renewed_agrees(adj, p, d, j);
                    }
                } else {
                    assert(!popped.damage.contains(p));
                    assert(!self.damage.contains(p)) by {
                        if self.damage.contains(p) {
                            let i = choose|i: int| 0 <= i < self.damage.len() && self.damage[i] == p;
                            if i < self.damage.len() - 1 {
                                assert(popped.damage[i] == p);
                            }
                        }
                    }
                    assert(self.agrees(adj, p, d));
                    assert(next.cell(p) == popped.cell(p));
                    assert forall|j: TileId| j < adj.n && #[trigger] next.field_at(p, d, j) != 0 implies adj.weight(
                        b,
                        j,
                        opposite(d),
                    ) > 0 by {
                        assert(self.field_at(p, d, j) != 0);
                    }
                }
            }
        }
    }

    /// Recomputing a cell keeps the pairs of decided neighbours.
    pub proof fn lemma_decays_consistent(self, adj: AdjacencySpec, later: GridSpec)
        requires
            self.wf(adj),
            self.decays_to(later),
            self.consistent(adj),
        ensures
            later.consistent(adj),
    {
        assert forall|p: Pos, d: int| later.contains(p) && 0 <= d < 4 implies #[trigger] later.pair_fits(adj, p, d) by {
            self.lemma_toward(adj, p, d);
            assert(self.pair_fits(adj, p, d));
        }
    }

    /// Recomputing the queued cells keeps the grid sound.
    pub proof fn lemma_recalculate_all_sound(self, adj: AdjacencySpec, early_exit: bool)
        requires
            self.wf(adj),
            adj.wf(),
            self.informed(adj),
        ensures
            self.recalculate_all(adj, early_exit).0.informed(adj),
            self.consistent(adj) ==> self.recalculate_all(adj, early_exit).0.consistent(adj),
        decreases self.support(), self.damage.len(),
    {
        if self.damage.len() != 0 {
            let p = self.damage.last();
            let popped = self.without_last_damage();
            self.lemma_without_last_damage_wf(adj);
            popped.lemma_recalculate(adj, p);
            popped.lemma_recalculate_wf(adj, p);
            popped.lemma_recalculate_decays(adj, p);
            self.lemma_step_informed(adj);
            let next = popped.recalculate(adj, p);
            let severity = popped.recalculate_severity(adj, p);
            if self.consistent(adj) {
                assert(popped.consistent(adj)) by {
                    assert forall|q: Pos, d: int| popped.contains(q) && 0 <= d < 4 implies #[trigger] popped.pair_fits(
                        adj,
                        q,
                        d,
                    ) by {
                        assert(self.pair_fits(adj, q, d));
                    }
                }
                popped.lemma_decays_consistent(adj, next);
            }
            if early_exit && severity is Dead {
            } else {
                next.lemma_recalculate_all_sound(adj, early_exit);
            }
        }
    }
}

impl GridSpec {
    /// After a cell was decided and its neighbours were queued, the undecided
    /// cells that are not queued agree with their decided neighbours, if they
    /// did before.
    pub proof fn lemma_committed_informed(self, adj: AdjacencySpec, p: Pos, t: TileId)
        requires
            self.wf(adj),
            adj.wf(),
            self.contains(p),
            self.type_at(p) is Field,
            t < adj.n,
            self.informed(adj),
        ensures
            self.committed(p, t).informed(adj),
    {
        let next = self.committed(p, t);
        self.lemma_with_type_at(adj, p, TileType::Tile(t));
        assert(next.types == self.with_type(p, TileType::Tile(t)).types);
        assert(next.fields == self.fields);
        let n = self.damage.len() as int;
        assert(next.damage[n] == self.toward(p, 0));
        assert(next.damage[n + 1] == self.toward(p, 1));
        assert(next.damage[n + 2] == self.toward(p, 2));
        assert(next.damage[n + 3] == self.toward(p, 3));
        assert forall|q: Pos, d: int|
            next.contains(q) && 0 <= d < 4 && next.type_at(q) is Field && !next.damage.contains(q) implies #[trigger] next.agrees(
            adj,
            q,
            d,
        ) by {
            self.lemma_toward(adj, q, d);
            let r = self.toward(q, d);
            assert(q != p);
            assert(next.type_at(q) == self.type_at(q));
            if r == p {
                assert(q == self.toward(p, opposite(d)));
                assert(next.damage.contains(q));
            }
            assert(next.type_at(r) == self.type_at(r));
            assert(!self.damage.contains(q)) by {
                if self.damage.contains(q) {
                    let i = choose|i: int| 0 <= i < self.damage.len() && self.damage[i] == q;
                    assert(next.damage[i] == q);
                }
            }
            assert(self.agrees(adj, q, d));
            if next.type_at(r) is Tile {
                let b = next.type_at(r)->0;
                assert forall|j: TileId| j < adj.n && #[trigger] next.field_at(q, d, j) != 0 implies adj.weight(
                    b,
                    j,
                    opposite(d),
                ) > 0 by {
                    assert(self.field_at(q, d, j) != 0);
                }
            }
        }
    }

    /// After a cell that was not queued was decided to a tile in which it
    /// believed in every direction, all pairs of decided neighbours fit, if
    /// they did before and the cell agreed with its decided neighbours.
    pub proof fn lemma_committed_consistent(self, adj: AdjacencySpec, p: Pos, t: TileId)
        requires
            self.wf(adj),
            adj.wf(),
            self.width > 1,
            self.height > 1,
            self.contains(p),
            self.type_at(p) is Field,
            t < adj.n,
            self.informed(adj),
            !self.damage.contains(p),
            self.consistent(adj),
            self.field_at(p, 0, t) != 0,
            self.field_at(p, 1, t) != 0,
            self.field_at(p, 2, t) != 0,
            self.field_at(p, 3, t) != 0,
        ensures
            self.committed(p, t).consistent(adj),
    {
        let next = self.committed(p, t);
        self.lemma_with_type_at(adj, p, TileType::Tile(t));
        assert(next.types == self.with_type(p, TileType::Tile(t)).types);
        assert forall|q: Pos, d: int| next.contains(q) && 0 <= d < 4 implies #[trigger] next.pair_fits(adj, q, d) by {
            self.lemma_toward(adj, q, d);
            let r = self.toward(q, d);
            let back = opposite(d);
            assert(opposite(back) == d);
            if q == p {
                assert(r != p);
                assert(next.type_at(r) == self.type_at(r));
                if self.type_at(r) is Tile {
                    let b = self.type_at(r)->0;
                    assert(self.agrees(adj, p, d));
                    assert(self.field_at(p, d, t) != 0);
                    assert(adj.weight(b, t, back) > 0);
                    assert(adj.weight(t, b, d) > 0);
                }
            } else if r == p {
                assert(next.type_at(q) == self.type_at(q));
                if self.type_at(q) is Tile {
                    let b = self.type_at(q)->0;
                    assert(self.toward(p, back) == q);
                    assert(self.agrees(adj, p, back));
                    assert(self.field_at(p, back, t) != 0);
                    assert(adj.weight(b, t, d) > 0);
                }
            } else {
                assert(next.type_at(q) == self.type_at(q));
                assert(next.type_at(r) == self.type_at(r));
                assert(self.pair_fits(adj, q, d));
            }
        }
    }

    /// Excluding a tile changes a belief only by setting it to zero.
    pub proof fn lemma_banned_fields(self, adj: AdjacencySpec, p: Pos, t: TileId, d: int)
        requires
            self.wf(adj),
            self.contains(p),
            t < adj.n,
            0 <= d < 4,
        ensures
            forall|q: Pos, k: int|
                self.contains(q) && 0 <= k < adj.n * 4 ==> #[trigger] self.banned(p, t, d).cell(q)[k] == self.cell(
                    q,
                )[k] || self.banned(p, t, d).cell(q)[k] == 0,
    {
        let r = self.toward(p, d);
        self.lemma_toward(adj, p, d);
        let k1 = slot(t as int, d);
        let k2 = slot(t as int, opposite(d));
        let first = self.with_zero(p, k1);
        self.lemma_with_zero(adj, p, k1);
        self.lemma_with_cell_at(adj, p, self.cell(p).update(k1, 0));
        first.lemma_with_cell_at(adj, r, first.cell(r).update(k2, 0));
        let second = first.with_zero(r, k2);
        assert(self.banned(p, t, d).fields == second.fields);
        assert forall|q: Pos, k: int| self.contains(q) && 0 <= k < adj.n * 4 implies #[trigger] self.banned(
            p,
            t,
            d,
        ).cell(q)[k] == self.cell(q)[k] || self.banned(p, t, d).cell(q)[k] == 0 by {
            if q == r {
                assert(second.cell(q) == first.cell(r).update(k2, 0));
            } else {
                assert(second.cell(q) == first.cell(q));
            }
            if q == p {
                assert(first.cell(q) == self.cell(p).update(k1, 0));
            } else {
                assert(first.cell(q) == self.cell(q));
            }
        }
    }

    /// After a failed attempt was taken back, the grid is sound if it was
    /// before the attempt and the attempt changed no state but that of the
    /// attempted cell and of cells that died.
    pub proof fn lemma_rolled_back_sound(self, adj: AdjacencySpec, before: GridSpec, p: Pos, t: TileId)
        requires
            self.wf(adj),
            before.wf(adj),
            self.width == before.width,
            self.height == before.height,
            self.contains(p),
            t < adj.n,
            self.out_total + self.undecided_count() + 1 <= self.width * self.height,
            before.informed(adj),
            before.type_at(p) is Field,
            forall|q: Pos|
                before.contains(q) && q != p ==> #[trigger] self.type_at(q) == before.type_at(q) || (
                before.type_at(q) is Field && self.type_at(q) is Dead),
        ensures
            self.rolled_back(before.snapshot(), p, t).informed(adj),
            before.consistent(adj) ==> self.rolled_back(before.snapshot(), p, t).consistent(adj),
            self.rolled_back(before.snapshot(), p, t).fallbacks == self.fallbacks,
    {
        self.lemma_reopened(adj, before, p);
        self.lemma_with_type_at(adj, p, TileType::Field);
        let listed = self.reopened(before.snapshot(), p);
        listed.lemma_banned(adj, p, t, 0);
        listed.lemma_banned_queues(adj, p, t, 0);
        listed.lemma_banned_fields(adj, p, t, 0);
        let b0 = listed.banned(p, t, 0);
        b0.lemma_banned(adj, p, t, 1);
        b0.lemma_banned_queues(adj, p, t, 1);
        b0.lemma_banned_fields(adj, p, t, 1);
        let b1 = b0.banned(p, t, 1);
        b1.lemma_banned(adj, p, t, 2);
        b1.lemma_banned_queues(adj, p, t, 2);
        b1.lemma_banned_fields(adj, p, t, 2);
        let b2 = b1.banned(p, t, 2);
        b2.lemma_banned(adj, p, t, 3);
        b2.lemma_banned_queues(adj, p, t, 3);
        b2.lemma_banned_fields(adj, p, t, 3);
        let last = b2.banned(p, t, 3);
        assert(last.types == self.with_type(p, TileType::Field).types);
        assert(listed.damage[before.damage.len() as int] == p);
        assert(listed.damage.contains(p));
        assert(last.damage.contains(p));
        assert(listed.fields == before.fields);
        assert forall|q: Pos, d: int|
            last.contains(q) && 0 <= d < 4 && last.type_at(q) is Field && !last.damage.contains(q) implies #[trigger] last.agrees(
            adj,
            q,
            d,
        ) by {
            before.lemma_toward(adj, q, d);
            let r = before.toward(q, d);
            assert(q != p);
            assert(last.type_at(q) == self.type_at(q));
            assert(before.type_at(q) is Field);
            assert(!before.damage.contains(q)) by {
                if before.damage.contains(q) {
                    let i = choose|i: int| 0 <= i < before.damage.len() && before.damage[i] == q;
                    assert(listed.damage[i] == q);
                    assert(listed.damage.contains(q));
                }
            }
            assert(before.agrees(adj, q, d));
            if last.type_at(r) is Tile {
                assert(r != p);
                assert(last.type_at(r) == self.type_at(r));
                assert(before.type_at(r) == last.type_at(r));
                let b = last.type_at(r)->0;
                assert forall|j: TileId| j < adj.n && #[trigger] last.field_at(q, d, j) != 0 implies adj.weight(
                    b,
                    j,
                    opposite(d),
                ) > 0 by {
                    let k = slot(j as int, d);
                    assert(0 <= k < adj.n * 4);
                    assert(last.cell(q)[k] == b2.cell(q)[k] || last.cell(q)[k] == 0);
                    assert(b2.cell(q)[k] == b1.cell(q)[k] || b2.cell(q)[k] == 0);
                    assert(b1.cell(q)[k] == b0.cell(q)[k] || b1.cell(q)[k] == 0);
                    assert(b0.cell(q)[k] == listed.cell(q)[k] || b0.cell(q)[k] == 0);
                    assert(before.field_at(q, d, j) != 0);
                }
            }
        }
        if before.consistent(adj) {
            assert forall|q: Pos, d: int| last.contains(q) && 0 <= d < 4 implies #[trigger] last.pair_fits(adj, q, d) by {
                before.lemma_toward(adj, q, d);
                let r = before.toward(q, d);
                if q != p && r != p {
                    assert(last.type_at(q) == self.type_at(q));
                    assert(last.type_at(r) == self.type_at(r));
                    assert(before.pair_fits(adj, q, d));
                }
            }
        }
    }

    /// An attempt on an undecided cell that is not queued keeps the grid
    /// sound.
    pub proof fn lemma_collapse_sound(self, adj: AdjacencySpec, p: Pos, draw: u64)
        requires
            self.wf(adj),
            adj.wf(),
            self.width > 1,
            self.height > 1,
            self.contains(p),
            self.sound(adj),
            !self.damage.contains(p),
        ensures
            self.collapse(adj, p, draw).0.sound(adj),
    {
        if self.type_at(p) is Field {
            let t = self.decision(adj, p, draw);
            let force = self.forced(adj, p);
            let fell_back = self.drawn(adj, p, draw) is None;
            self.lemma_drawn(adj, p, draw);
            self.lemma_score(adj, p, t);
            self.lemma_committed(adj, p, t);
            self.lemma_committed_informed(adj, p, t);
            if self.fallbacks == 0 && !fell_back {
                self.lemma_committed_consistent(adj, p, t);
            }
            self.lemma_with_type_at(adj, p, TileType::Tile(t));
            let start = self.committed(p, t);
            start.lemma_recalculate_all(adj, !force);
            start.lemma_recalculate_all_decays(adj, !force);
            start.lemma_recalculate_all_sound(adj, !force);
            let tried = start.recalculate_all(adj, !force);
            if tried.1 is Dead && !force {
                assert forall|q: Pos| self.contains(q) && q != p implies #[trigger] tried.0.type_at(q)
                    == self.type_at(q) || (self.type_at(q) is Field && tried.0.type_at(q) is Dead) by {
                    assert(start.type_at(q) == self.type_at(q));
                }
                tried.0.lemma_rolled_back(adj, self, p, t);
                tried.0.lemma_rolled_back_sound(adj, self, p, t);
                let back = tried.0.rolled_back(self.snapshot(), p, t);
                back.lemma_recalculate_all(adj, false);
                back.lemma_recalculate_all_sound(adj, false);
            } else {
                let done = tried.0.accepted(t, fell_back);
                assert(done.fields == tried.0.fields);
                assert(done.types == tried.0.types);
                assert(done.damage == tried.0.damage);
                assert forall|q: Pos, d: int|
                    done.contains(q) && 0 <= d < 4 && done.type_at(q) is Field && !done.damage.contains(q) implies #[trigger] done.agrees(
                    adj,
                    q,
                    d,
                ) by {
                    assert(tried.0.agrees(adj, q, d));
                    let r = done.toward(q, d);
                    if done.type_at(r) is Tile {
                        let b = done.type_at(r)->0;
                        assert forall|j: TileId| j < adj.n && #[trigger] done.field_at(q, d, j) != 0 implies adj.weight(
                            b,
                            j,
                            opposite(d),
                        ) > 0 by {
                            assert(tried.0.field_at(q, d, j) != 0);
                        }
                    }
                }
                if done.fallbacks == 0 {
                    assert(!fell_back);
                    assert(tried.0.consistent(adj));
                    assert forall|q: Pos, d: int| done.contains(q) && 0 <= d < 4 implies #[trigger] done.pair_fits(
                        adj,
                        q,
                        d,
                    ) by {
                        assert(tried.0.pair_fits(adj, q, d));
                    }
                }
            }
        }
    }

    /// The attempts on a cell keep a grid with an empty queue sound.
    pub proof fn lemma_retried_sound(self, adj: AdjacencySpec, p: Pos, rng: (u128, u128))
        requires
            self.wf(adj),
            adj.wf(),
            self.width > 1,
            self.height > 1,
            self.contains(p),
            self.sound(adj),
            self.damage.len() == 0,
        ensures
            self.retried(adj, p, rng).0.sound(adj),
        decreases self.support(),
    {
        if self.type_at(p) is Field {
            let out = rand64_rand_u64(rng);
            let tried = self.collapse(adj, p, out.0);
            self.lemma_collapse(adj, p, out.0);
            self.lemma_collapse_sound(adj, p, out.0);
            if tried.1 {
                tried.0.lemma_retried_sound(adj, p, out.1);
            }
        }
    }
}

impl GridSpec {
    /// A grid with the same cells, queue and fallbacks as a sound grid is
    /// sound.
    pub proof fn lemma_sound_frame(self, adj: AdjacencySpec, other: GridSpec)
        requires
            self.sound(adj),
            other.width == self.width,
            other.height == self.height,
            other.types == self.types,
            other.fields == self.fields,
            other.damage == self.damage,
            other.fallbacks == self.fallbacks,
        ensures
            other.sound(adj),
    {
        assert forall|q: Pos, d: int|
            other.contains(q) && 0 <= d < 4 && other.type_at(q) is Field && !other.damage.contains(q) implies #[trigger] other.agrees(
            adj,
            q,
            d,
        ) by {
            assert(self.agrees(adj, q, d));
            let r = other.toward(q, d);
            if other.type_at(r) is Tile {
                let b = other.type_at(r)->0;
                assert forall|j: TileId| j < adj.n && #[trigger] other.field_at(q, d, j) != 0 implies adj.weight(
                    b,
                    j,
                    opposite(d),
                ) > 0 by {
                    assert(self.field_at(q, d, j) != 0);
                }
            }
        }
        if other.fallbacks == 0 {
            assert forall|q: Pos, d: int| other.contains(q) && 0 <= d < 4 implies #[trigger] other.pair_fits(adj, q, d) by {
                assert(self.pair_fits(adj, q, d));
            }
        }
    }

    /// The blank grid with the border tile laid on its border is sound.
    pub proof fn lemma_edged_sound(width: nat, height: nat, adj: AdjacencySpec)
        requires
            adj.wf(),
            0 < width,
            0 < height,
            width * height <= u32::MAX,
        ensures
            GridSpec::blank(width, height, adj.n).edged(adj.forbidden).sound(adj),
    {
        let blank = GridSpec::blank(width, height, adj.n);
        let e = blank.edged(adj.forbidden);
        GridSpec::lemma_blank_wf(width, height, adj);
        GridSpec::lemma_blank_covered(width, height, adj);
        blank.lemma_edged_wf(adj, adj.forbidden);
        blank.lemma_edged_covered(adj, adj.forbidden);
        assert forall|q: Pos, d: int|
            e.contains(q) && 0 <= d < 4 && e.type_at(q) is Field && !e.damage.contains(q) implies #[trigger] e.agrees(
            adj,
            q,
            d,
        ) by {
            if e.has_decided_neighbor(q) {
                assert(e.candidates.contains(q) || e.damage.contains(q));
                assert(e.candidates.len() == 0);
            }
        }
        assert forall|q: Pos, d: int| e.contains(q) && 0 <= d < 4 implies #[trigger] e.pair_fits(adj, q, d) by {
            e.lemma_toward(adj, q, d);
            let r = e.toward(q, d);
            assert(e.type_at(q) is Tile ==> e.type_at(q) == TileType::Tile(adj.forbidden));
            assert(e.type_at(r) is Tile ==> e.type_at(r) == TileType::Tile(adj.forbidden));
        }
    }

    /// A grid in which every cell holds the border tile is consistent.
    pub proof fn lemma_all_border_consistent(self, adj: AdjacencySpec)
        requires
            self.wf(adj),
            forall|q: Pos| self.contains(q) ==> #[trigger] self.type_at(q) == TileType::Tile(adj.forbidden),
        ensures
            self.consistent(adj),
    {
        assert forall|q: Pos, d: int| self.contains(q) && 0 <= d < 4 implies #[trigger] self.pair_fits(adj, q, d) by {
            self.lemma_toward(adj, q, d);
        }
    }
}

} // verus!
