//! Deciding a cell: scoring the tiles, drawing one, committing it, and
//! taking it back if a cell dies of it.

use vstd::prelude::*;
use crate::adjacency::slot;
use crate::belief::Severity;
use crate::catalog::TileId;
use crate::choice::{SnapshotSpec, score_bound, threshold};
use crate::collapser::{Collapser, copy_positions, fields_view};
use crate::direction::{DIRECTIONS, get_opposite_direction};
use crate::grid::{Pos, TileType};
use crate::rng::{Rng, rand64_rand_u64};
use crate::weight::{multiply4, reduce_strength};

verus! {

/// What is kept of an engine so that an attempt can be taken back.
pub struct Snapshot {
    fields: Vec<Vec<Vec<u32>>>,
    damage: Vec<Pos>,
    candidates: Vec<Pos>,
}

impl View for Snapshot {
    type V = SnapshotSpec;

    closed spec fn view(&self) -> SnapshotSpec {
        SnapshotSpec { fields: fields_view(&self.fields), damage: self.damage@, candidates: self.candidates@ }
    }
}

/// Computes the number that a random draw picks between 0 and `total`.
pub fn pick_goal(draw: u64, total: u128) -> (goal: u128)
    ensures
        goal == threshold(draw, total as nat),
        goal <= total,
{
    let r: u128 = (draw / 0x800) as u128;
    let unit: u128 = 0x20_0000_0000_0000;
    let hi: u128 = total / unit;
    let lo: u128 = total % unit;
    proof {
        let ri = r as int;
        let hi_i = hi as int;
        let lo_i = lo as int;
        let k = 0x20_0000_0000_0000int;
        let all = total as int;
        assert(ri < k);
        assert(0 <= ri * hi_i <= k * hi_i) by (nonlinear_arith)
            requires
                0 <= ri < k,
                0 <= hi_i,
        ;
        assert(0 <= ri * lo_i <= k * k) by (nonlinear_arith)
            requires
                0 <= ri < k,
                0 <= lo_i < k,
        ;
        assert(all == k * hi_i + lo_i);
        assert(ri * all == ri * lo_i + (ri * hi_i) * k) by (nonlinear_arith)
            requires
                all == k * hi_i + lo_i,
        ;
        vstd::arithmetic::div_mod::lemma_hoist_over_denominator(ri * lo_i, ri * hi_i, k as nat);
        assert((ri * lo_i) / k <= k) by (nonlinear_arith)
            requires
                0 <= ri * lo_i <= k * k,
                k == 0x20_0000_0000_0000,
        ;
        crate::choice::lemma_threshold_bound(draw, total as nat);
        assert(threshold(draw, total as nat) == (ri * all) / k);
    }
    r * hi + (r * lo) / unit
}

impl Collapser {
    /// The share of tile `id` among the accepted decisions, with one more
    /// decision for it counted, as numerator and denominator; 1 as long as
    /// nothing is decided.
    pub fn get_freq(&self, id: TileId) -> (share: (u64, u64))
        requires
            self.wf(),
            id < self.adjacency().n,
        ensures
            share == (if self@.out_total == 0 {
                (1u64, 1u64)
            } else {
                ((self@.out_freqs[id as int] + 1) as u64, self@.out_total as u64)
            }),
    {
        if self.out_total > 0 {
            (self.out_freqs[id] as u64 + 1, self.out_total as u64)
        } else {
            (1, 1)
        }
    }

    /// The frequency bias of tile `id`, as numerator and denominator: its
    /// share of the sample over its share of the accepted decisions.
    pub fn get_freq_multiplier(&self, id: TileId) -> (bias: (u64, u64))
        requires
            self.wf(),
            id < self.adjacency().n,
        ensures
            bias.0 == self@.bias_num(self.adjacency(), id),
            bias.1 == self@.bias_den(self.adjacency(), id),
            bias.1 > 0,
    {
        let truth: (u32, u32) = (self.model.freq(id), self.model.total_freq());
        let local: (u64, u64) = self.get_freq(id);
        proof {
            let sf = truth.0 as nat;
            let tf = truth.1 as nat;
            let ln = local.0 as nat;
            let ld = local.1 as nat;
            assert(sf * ld <= 0xffff_ffff * 0xffff_ffff && 0 < tf * ln <= 0xffff_ffff * 0x1_0000_0000) by (nonlinear_arith)
                requires
                    sf <= 0xffff_ffff,
                    0 < tf <= 0xffff_ffff,
                    ld <= 0xffff_ffff,
                    0 < ln <= 0x1_0000_0000,
            ;
            assert(sf * 1 == sf && tf * 1 == tf);
        }
        ((truth.0 as u64) * local.1, (truth.1 as u64) * local.0)
    }

    /// The score of tile `t` at cell `p`.
    pub fn score(&self, p: Pos, t: TileId) -> (s: u128)
        requires
            self.wf(),
            self@.contains(p),
            t < self.adjacency().n,
        ensures
            s == self@.score(self.adjacency(), p, t),
            s <= score_bound(),
    {
        proof {
            self@.lemma_score(self.adjacency(), p, t);
        }
        let product: u128 = multiply4(
            self.get_field(p, 0, t),
            self.get_field(p, 1, t),
            self.get_field(p, 2, t),
            self.get_field(p, 3, t),
        );
        let strength: u64 = reduce_strength(product);
        let bias: (u64, u64) = self.get_freq_multiplier(t);
        if strength == 0 || bias.0 == 0 {
            return 0;
        }
        assert(strength * bias.0 <= 0xffff_ffff_ffff_ffff * (0xffff_ffff * 0xffff_ffff)) by (nonlinear_arith)
            requires
                strength <= 0xffff_ffff_ffff_ffff,
                bias.0 <= 0xffff_ffff * 0xffff_ffff,
        ;
        let q: u128 = ((strength as u128) * (bias.0 as u128)) / (bias.1 as u128);
        if q == 0 {
            1
        } else {
            q
        }
    }

    /// Draws a tile for cell `p` with the random number `draw`, and says
    /// whether there was no real choice.
    pub fn decide(&self, p: Pos, draw: u64) -> (out: (Option<TileId>, bool))
        requires
            self.wf(),
            self@.contains(p),
        ensures
            out.0 == self@.drawn(self.adjacency(), p, draw),
            out.1 == self@.forced(self.adjacency(), p),
    {
        let ghost g = self@;
        let ghost adj = self.adjacency();
        let n: usize = self.model.tile_count();
        let mut total: u128 = 0;
        let mut possible: usize = 0;
        let mut t: TileId = 0;
        while t < n
            invariant
                t <= n,
                n == adj.n,
                self.wf(),
                self@ == g,
                self.adjacency() == adj,
                g.contains(p),
                total == g.score_sum(adj, p, t as int),
                possible == g.possible_count(adj, p, t as int),
                possible <= t,
                total <= t * score_bound(),
            decreases n - t,
        {
            let s: u128 = self.score(p, t);
            proof {
                assert((t + 1) * score_bound() <= 0xffff_ffff * score_bound()) by (nonlinear_arith)
                    requires
                        t + 1 <= 0xffff_ffff,
                ;
                assert((t + 1) * score_bound() == t * score_bound() + score_bound()) by (nonlinear_arith);
            }
            total = total + s;
            if s != 0 {
                possible = possible + 1;
            }
            t += 1;
        }
        let goal: u128 = pick_goal(draw, total);
        let mut running: u128 = 0;
        let mut u: TileId = 0;
        while u < n
            invariant
                u <= n,
                n == adj.n,
                self.wf(),
                self@ == g,
                self.adjacency() == adj,
                g.contains(p),
                goal == threshold(draw, g.score_sum(adj, p, n as int)),
                possible == g.possible_count(adj, p, n as int),
                running == g.score_sum(adj, p, u as int),
                g.drawn(adj, p, draw) == g.drawn_from(adj, p, goal as nat, u as int),
            decreases n - u,
        {
            let s: u128 = self.score(p, u);
            proof {
                g.lemma_score_sum(adj, p, u as int + 1);
                assert(n * score_bound() <= 0xffff_ffff * score_bound()) by (nonlinear_arith)
                    requires
                        n <= 0xffff_ffff,
                ;
            }
            running = running + s;
            if s != 0 && running >= goal {
                return (Some(u), possible < 2);
            }
            u += 1;
        }
        (None, possible < 2)
    }

    /// Copies what has to be kept so that the engine can be put back.
    pub fn snapshot(&self) -> (snap: Snapshot)
        ensures
            snap@ == self@.snapshot(),
            self.wf() ==> self@.admits(snap@, self.adjacency()),
    {
        let snap = Snapshot {
            fields: self.fields.clone(),
            damage: copy_positions(&self.damage),
            candidates: copy_positions(&self.candidates),
        };
        assert(snap@.fields =~~= self@.fields);
        snap
    }

    /// Puts the beliefs and the queues back to a snapshot.
    pub fn restore(&mut self, snap: Snapshot)
        ensures
            final(self)@ == old(self)@.restored(snap@),
            final(self).same_sample(old(self)),
            old(self).wf() && old(self)@.admits(snap@, old(self).adjacency()) ==> final(self).wf(),
    {
        let ghost kept = snap@;
        self.fields = snap.fields;
        self.damage = snap.damage;
        self.candidates = snap.candidates;
        proof {
            assert(self@.types =~~= old(self)@.types);
            assert(self@ == old(self)@.restored(kept));
            if old(self).wf() && old(self)@.admits(kept, old(self).adjacency()) {
                crate::choice::lemma_admitted_wf(old(self)@, kept, old(self).adjacency());
            }
        }
    }

    /// Counts one more accepted decision for tile `id`.  There must be a cell
    /// that is neither undecided nor counted yet: the counted decisions and the
    /// undecided cells together never exceed the cells of the grid.
    pub fn add_to_freq(&mut self, id: TileId, fell_back: bool)
        requires
            old(self).wf(),
            id < old(self).adjacency().n,
            old(self)@.out_total + old(self)@.undecided_count() + 1 <= old(self)@.width * old(self)@.height,
        ensures
            final(self)@ == old(self)@.accepted(id, fell_back),
            final(self).wf(),
            final(self).same_sample(old(self)),
    {
        proof {
            self@.lemma_accepted(self.adjacency(), id, fell_back);
        }
        let count: u32 = self.out_freqs[id] + 1;
        self.out_freqs.set(id, count);
        self.out_total = self.out_total + 1;
        if fell_back {
            self.fallbacks = self.fallbacks + 1;
        }
        assert(self@.types =~~= old(self)@.types);
        assert(self@.fields =~~= old(self)@.fields);
    }

    /// Excludes tile `t` at cell `p` toward direction `dir`, and at the
    /// neighbour in that direction toward `p`, and queues the neighbour.
    pub fn ban(&mut self, p: Pos, t: TileId, dir: usize)
        requires
            old(self).wf(),
            old(self)@.contains(p),
            t < old(self).adjacency().n,
            dir < DIRECTIONS,
        ensures
            final(self)@ == old(self)@.banned(p, t, dir as int),
            final(self).wf(),
            final(self).same_sample(old(self)),
    {
        let ghost g = self@;
        let ghost adj = self.adjacency();
        proof {
            g.lemma_banned(adj, p, t, dir as int);
            g.lemma_with_zero(adj, p, slot(t as int, dir as int));
        }
        let q: Pos = self.toward(p, dir);
        let opp: usize = get_opposite_direction(dir);
        self.set_field(p, t * 4 + dir, 0);
        self.set_field(q, t * 4 + opp, 0);
        self.damage.push(q);
        assert(self@.types =~~= g.types);
        assert(self@.fields =~~= g.banned(p, t, dir as int).fields);
    }

    /// One attempt to decide cell `choice` with the random number `draw`.
    /// Returns whether the attempt failed and is to be made again.
    pub fn collapse_with(&mut self, choice: Pos, draw: u64) -> (failed: bool)
        requires
            old(self).wf(),
            old(self)@.contains(choice),
        ensures
            final(self).wf(),
            final(self).same_sample(old(self)),
            (final(self)@, failed) == old(self)@.collapse(old(self).adjacency(), choice, draw),
    {
        let ghost g = self@;
        let ghost adj = self.adjacency();
        if self.get_type(choice) != TileType::Field {
            return false;
        }
        let (drawn, force) = self.decide(choice, draw);
        let decision: TileId = match drawn {
            Some(t) => t,
            None => self.model.most_common(),
        };
        proof {
            g.lemma_drawn(adj, choice, draw);
            g.lemma_committed(adj, choice, decision);
            g.lemma_with_type_wf(adj, choice, TileType::Tile(decision));
            g.committed(choice, decision).lemma_recalculate_all(adj, !force);
        }
        let snap: Snapshot = self.snapshot();
        self.set_type(choice, TileType::Tile(decision));
        self.queue_neighbors(choice);
        let worst: Severity = self.recalculate_all(!force);
        let ghost tried = self@;
        if worst == Severity::Dead && !force {
            proof {
                tried.lemma_reopened(adj, g, choice);
            }
            self.set_type(choice, TileType::Field);
            self.restore(snap);
            self.candidates.push(choice);
            self.damage.push(choice);
            proof {
                assert(self@.types =~~= tried.reopened(g.snapshot(), choice).types);
                assert(self@.fields =~~= tried.reopened(g.snapshot(), choice).fields);
                assert(self@ == tried.reopened(g.snapshot(), choice));
            }
            self.ban(choice, decision, 0);
            self.ban(choice, decision, 1);
            self.ban(choice, decision, 2);
            self.ban(choice, decision, 3);
            let _ = self.recalculate_all(false);
            true
        } else {
            self.add_to_freq(decision, drawn.is_none());
            false
        }
    }

    /// One attempt to decide cell `choice`, with a number drawn from `rng` if
    /// the cell is undecided.  Returns whether the attempt failed and is to be
    /// made again.
    pub fn collapse(&mut self, choice: Pos, rng: &mut Rng) -> (failed: bool)
        requires
            old(self).wf(),
            old(self)@.contains(choice),
            old(rng).wf(),
        ensures
            final(self).wf(),
            final(rng).wf(),
            final(self).same_sample(old(self)),
            !(old(self)@.type_at(choice) is Field) ==> final(self)@ == old(self)@ && !failed && final(rng)@ == old(
                rng,
            )@,
            old(self)@.type_at(choice) is Field ==> final(rng)@ == rand64_rand_u64(old(rng)@).1 && (
                final(self)@,
                failed,
            ) == old(self)@.collapse(old(self).adjacency(), choice, rand64_rand_u64(old(rng)@).0),
    {
        if self.get_type(choice) != TileType::Field {
            return false;
        }
        let draw: u64 = rng.rand_u64();
        self.collapse_with(choice, draw)
    }
}

} // verus!
