//! The scheduler: picking a candidate, deciding it with as many attempts as
//! it takes, and going on until no candidate is left; and the report on the
//! finished grid.

use vstd::prelude::*;
use crate::adjacency::{AdjacencySpec, lemma_model_unique};
use crate::catalog::{lemma_catalog_unique, well_tiled};
use crate::collapser::{Collapser, InitError, sizes_fit};
use crate::grid::{GridSpec, Pos, TileType, on_border};
use crate::pixel::Rgba;
use crate::rng::{Rng, rand64_new, rand64_rand_range, rand64_rand_u64};

verus! {

/// The dead cells among the first `x_end` cells of row `y`, from left to
/// right.
pub open spec fn dead_in_row(row: Seq<TileType>, y: usize, x_end: int) -> Seq<Pos>
    decreases x_end,
{
    if x_end <= 0 {
        Seq::empty()
    } else if row[x_end - 1] is Dead {
        dead_in_row(row, y, x_end - 1).push(((x_end - 1) as usize, y))
    } else {
        dead_in_row(row, y, x_end - 1)
    }
}

/// The dead cells of the first `y_end` rows, row by row.
pub open spec fn dead_upto(types: Seq<Seq<TileType>>, y_end: int) -> Seq<Pos>
    decreases y_end,
{
    if y_end <= 0 {
        Seq::empty()
    } else {
        dead_upto(types, y_end - 1) + dead_in_row(types[y_end - 1], (y_end - 1) as usize, types[y_end - 1].len() as int)
    }
}

impl GridSpec {
    /// Whether some cell is undecided.
    pub open spec fn has_undecided(self) -> bool {
        exists|p: Pos| self.contains(p) && #[trigger] self.type_at(p) is Field
    }

    /// The dead cells, row by row.
    pub open spec fn dead_cells(self) -> Seq<Pos> {
        dead_upto(self.types, self.height as int)
    }
}

/// The dead cells listed for a row are the dead cells of the row.
pub proof fn lemma_dead_in_row(row: Seq<TileType>, y: usize, x_end: int, p: Pos)
    requires
        0 <= x_end <= row.len() <= usize::MAX,
    ensures
        dead_in_row(row, y, x_end).contains(p) <==> (p.1 == y && p.0 < x_end && row[p.0 as int] is Dead),
    decreases x_end,
{
    if x_end > 0 {
        lemma_dead_in_row(row, y, x_end - 1, p);
        let rest = dead_in_row(row, y, x_end - 1);
        let last: Pos = ((x_end - 1) as usize, y);
        if row[x_end - 1] is Dead {
            let all = rest.push(last);
            assert(all[all.len() - 1] == last);
            if rest.contains(p) {
                let i = choose|i: int| 0 <= i < rest.len() && rest[i] == p;
                assert(all[i] == p);
            }
            if all.contains(p) {
                let i = choose|i: int| 0 <= i < all.len() && all[i] == p;
                if i < rest.len() {
                    assert(rest[i] == p);
                }
            }
        }
    }
}

/// The dead cells listed for a grid are the dead cells of the grid.
pub proof fn lemma_dead_upto(types: Seq<Seq<TileType>>, y_end: int, p: Pos)
    requires
        0 <= y_end <= types.len() <= usize::MAX,
        forall|y: int| 0 <= y < types.len() ==> (#[trigger] types[y]).len() <= usize::MAX,
    ensures
        dead_upto(types, y_end).contains(p) <==> (p.1 < y_end && p.0 < types[p.1 as int].len()
            && types[p.1 as int][p.0 as int] is Dead),
    decreases y_end,
{
    if y_end > 0 {
        lemma_dead_upto(types, y_end - 1, p);
        let row = types[y_end - 1];
        lemma_dead_in_row(row, (y_end - 1) as usize, row.len() as int, p);
        let head = dead_upto(types, y_end - 1);
        let tail = dead_in_row(row, (y_end - 1) as usize, row.len() as int);
        let all = head + tail;
        if head.contains(p) {
            let i = choose|i: int| 0 <= i < head.len() && head[i] == p;
            assert(all[i] == p);
        }
        if tail.contains(p) {
            let i = choose|i: int| 0 <= i < tail.len() && tail[i] == p;
            assert(all[head.len() + i] == p);
        }
        if all.contains(p) {
            let i = choose|i: int| 0 <= i < all.len() && all[i] == p;
            if i < head.len() {
                assert(head[i] == p);
            } else {
                assert(tail[i - head.len()] == p);
            }
        }
    }
}

impl GridSpec {
    /// The list of dead cells holds exactly the cells that are dead.
    pub proof fn lemma_dead_cells(self, adj: AdjacencySpec, p: Pos)
        requires
            self.wf(adj),
        ensures
            self.dead_cells().contains(p) <==> (self.contains(p) && self.type_at(p) is Dead),
    {
        lemma_dead_upto(self.types, self.height as int, p);
    }
}

impl GridSpec {
    /// The grid and the generator's state after cell `p` was attempted until
    /// an attempt did not fail, each attempt with a fresh random number.
    pub open spec fn retried(self, adj: AdjacencySpec, p: Pos, rng: (u128, u128)) -> (GridSpec, (u128, u128))
        decreases self.support(),
        when self.wf(adj) && adj.wf() && self.contains(p)
        via Self::retried_decreases
    {
        if !(self.type_at(p) is Field) {
            (self, rng)
        } else {
            let out = rand64_rand_u64(rng);
            let tried = self.collapse(adj, p, out.0);
            if tried.1 {
                tried.0.retried(adj, p, out.1)
            } else {
                (tried.0, out.1)
            }
        }
    }

    #[via_fn]
    proof fn retried_decreases(self, adj: AdjacencySpec, p: Pos, rng: (u128, u128)) {
        if self.type_at(p) is Field {
            self.lemma_collapse(adj, p, rand64_rand_u64(rng).0);
        }
    }

    /// The grid without its candidate at index `i`.
    pub open spec fn without_candidate(self, i: int) -> GridSpec {
        GridSpec { candidates: self.candidates.remove(i), ..self }
    }

    /// The grid and the generator's state after the scheduler has run: as long
    /// as there are candidates, one is drawn, taken from the list and
    /// attempted until an attempt does not fail.
    pub open spec fn scheduled(self, adj: AdjacencySpec, rng: (u128, u128)) -> (GridSpec, (u128, u128))
        decreases self.undecided_count(), self.candidates.len(),
        when self.wf(adj) && adj.wf()
        via Self::scheduled_decreases
    {
        if self.candidates.len() == 0 {
            (self, rng)
        } else {
            let out = rand64_rand_range(rng, 0, self.candidates.len() as u64);
            if out.0 >= self.candidates.len() {
                (self, out.1)
            } else {
                let p = self.candidates[out.0 as int];
                let next = self.without_candidate(out.0 as int).retried(adj, p, out.1);
                next.0.scheduled(adj, next.1)
            }
        }
    }

    #[via_fn]
    proof fn scheduled_decreases(self, adj: AdjacencySpec, rng: (u128, u128)) {
        if self.candidates.len() != 0 {
            let out = rand64_rand_range(rng, 0, self.candidates.len() as u64);
            if out.0 < self.candidates.len() {
                let p = self.candidates[out.0 as int];
                self.lemma_without_candidate(adj, out.0 as int);
                self.without_candidate(out.0 as int).lemma_retried(adj, p, out.1);
            }
        }
    }

    /// The grid and the generator's state after a whole run: the queued cells
    /// are recomputed, then the scheduler runs.
    pub open spec fn run(self, adj: AdjacencySpec, rng: (u128, u128)) -> (GridSpec, (u128, u128)) {
        self.recalculate_all(adj, false).0.scheduled(adj, rng)
    }

    /// Taking a candidate from the list keeps the grid well formed.
    pub proof fn lemma_without_candidate(self, adj: AdjacencySpec, i: int)
        requires
            self.wf(adj),
            0 <= i < self.candidates.len(),
        ensures
            self.without_candidate(i).wf(adj),
            self.contains(self.candidates[i]),
            self.without_candidate(i).candidates.len() + 1 == self.candidates.len(),
    {
        let g = self.without_candidate(i);
        assert forall|k: int| 0 <= k < g.candidates.len() implies g.contains(#[trigger] g.candidates[k]) by {
            if k < i {
                assert(g.candidates[k] == self.candidates[k]);
            } else {
                assert(g.candidates[k] == self.candidates[k + 1]);
            }
        }
    }

    /// Where the attempts on a cell end: the grid is well formed and keeps
    /// what was settled, the cell is no longer undecided, and a grid whose
    /// cell was not undecided is left as it was.
    pub proof fn lemma_retried(self, adj: AdjacencySpec, p: Pos, rng: (u128, u128))
        requires
            self.wf(adj),
            adj.wf(),
            self.contains(p),
        ensures
            self.retried(adj, p, rng).0.wf(adj),
            self.keeps_settled(self.retried(adj, p, rng).0),
            !(self.retried(adj, p, rng).0.type_at(p) is Field),
            !(self.type_at(p) is Field) ==> self.retried(adj, p, rng).0 == self,
            self.type_at(p) is Field ==> self.retried(adj, p, rng).0.undecided_count() < self.undecided_count()
                && self.retried(adj, p, rng).0.damage.len() == 0,
            self.retried(adj, p, rng).0.undecided_count() <= self.undecided_count(),
        decreases self.support(),
    {
        if self.type_at(p) is Field {
            let out = rand64_rand_u64(rng);
            let tried = self.collapse(adj, p, out.0);
            self.lemma_collapse(adj, p, out.0);
            self.lemma_collapse_keeps(adj, p, out.0);
            if tried.1 {
                tried.0.lemma_retried(adj, p, out.1);
                let last = tried.0.retried(adj, p, out.1).0;
                assert forall|q: Pos| self.contains(q) && !(self.type_at(q) is Field) implies #[trigger] last.type_at(
                    q,
                ) == self.type_at(q) by {
                    assert(tried.0.type_at(q) == self.type_at(q));
                }
                self.lemma_keeps_settled_count(adj, last);
            }
        }
    }

    /// Where the scheduler ends: the grid is well formed and keeps what was
    /// settled, and no candidate is left.
    pub proof fn lemma_scheduled(self, adj: AdjacencySpec, rng: (u128, u128))
        requires
            self.wf(adj),
            adj.wf(),
        ensures
            self.scheduled(adj, rng).0.wf(adj),
            self.keeps_settled(self.scheduled(adj, rng).0),
        decreases self.undecided_count(), self.candidates.len(),
    {
        if self.candidates.len() != 0 {
            let out = rand64_rand_range(rng, 0, self.candidates.len() as u64);
            if out.0 < self.candidates.len() {
                let p = self.candidates[out.0 as int];
                self.lemma_without_candidate(adj, out.0 as int);
                let taken = self.without_candidate(out.0 as int);
                taken.lemma_retried(adj, p, out.1);
                let next = taken.retried(adj, p, out.1);
                next.0.lemma_scheduled(adj, next.1);
                let last = next.0.scheduled(adj, next.1).0;
                assert forall|q: Pos| self.contains(q) && !(self.type_at(q) is Field) implies #[trigger] last.type_at(
                    q,
                ) == self.type_at(q) by {
                    assert(taken.type_at(q) == self.type_at(q));
                    assert(next.0.type_at(q) == taken.type_at(q));
                }
            }
        }
    }
}

impl GridSpec {
    /// Taking a candidate from the list leaves every other undecided cell with
    /// a decided neighbour among the candidates and the queued cells.
    pub proof fn lemma_without_candidate_covered(self, adj: AdjacencySpec, i: int)
        requires
            self.wf(adj),
            0 <= i < self.candidates.len(),
            self.covered(),
        ensures
            self.without_candidate(i).covered_except(Some(self.candidates[i])),
    {
        let g = self.without_candidate(i);
        let p = self.candidates[i];
        assert forall|q: Pos|
            g.contains(q) && g.type_at(q) is Field && #[trigger] g.has_decided_neighbor(q) && Some(q) != Some(
                p,
            ) implies g.candidates.contains(q) || g.damage.contains(q) by {
            assert(self.has_decided_neighbor(q));
            if self.candidates.contains(q) {
                let k = choose|k: int| 0 <= k < self.candidates.len() && self.candidates[k] == q;
                if k < i {
                    assert(g.candidates[k] == q);
                } else {
                    assert(g.candidates[k - 1] == q);
                }
            }
        }
    }

    /// After the attempts on a cell, every undecided cell with a decided
    /// neighbour is a candidate or queued, if that held before of every cell
    /// but the attempted one.
    pub proof fn lemma_retried_covered(self, adj: AdjacencySpec, p: Pos, rng: (u128, u128))
        requires
            self.wf(adj),
            adj.wf(),
            self.contains(p),
            self.covered_except(Some(p)),
        ensures
            self.retried(adj, p, rng).0.covered(),
        decreases self.support(),
    {
        if self.type_at(p) is Field {
            let out = rand64_rand_u64(rng);
            let tried = self.collapse(adj, p, out.0);
            self.lemma_collapse(adj, p, out.0);
            self.lemma_collapse_covered(adj, p, out.0);
            if tried.1 {
                tried.0.lemma_retried_covered(adj, p, out.1);
            }
        }
    }

    /// In a grid at rest whose first column is decided, an undecided cell has a
    /// dead cell somewhere to its left in its row.
    pub proof fn lemma_undecided_behind_dead(self, adj: AdjacencySpec, p: Pos) -> (x: usize)
        requires
            self.wf(adj),
            self.at_rest(),
            forall|q: Pos| self.contains(q) && q.0 == 0 ==> #[trigger] self.type_at(q) is Tile,
            self.contains(p),
            self.type_at(p) is Field,
        ensures
            x < p.0,
            self.type_at((x, p.1)) is Dead,
        decreases p.0,
    {
        let left: Pos = ((p.0 - 1) as usize, p.1);
        assert(self.toward(p, 2) == left);
        assert(self.has_decided_neighbor(p) || !(self.type_at(left) is Tile));
        if self.type_at(left) is Field {
            self.lemma_undecided_behind_dead(adj, left)
        } else {
            left.0
        }
    }

    /// In a grid at rest whose first column is decided and in which no cell is
    /// dead, no cell is undecided.
    pub proof fn lemma_complete(self, adj: AdjacencySpec, p: Pos)
        requires
            self.wf(adj),
            self.at_rest(),
            forall|q: Pos| self.contains(q) && q.0 == 0 ==> #[trigger] self.type_at(q) is Tile,
            forall|q: Pos| self.contains(q) ==> !(#[trigger] self.type_at(q) is Dead),
            self.contains(p),
        ensures
            self.type_at(p) is Tile,
    {
        if self.type_at(p) is Field {
            let x = self.lemma_undecided_behind_dead(adj, p);
            assert(self.contains((x, p.1)));
        }
    }
}

impl Collapser {
    /// Attempts cell `choice` until an attempt does not fail.
    pub fn collapse_until_accepted(&mut self, choice: Pos, rng: &mut Rng)
        requires
            old(self).wf(),
            old(self)@.contains(choice),
            old(rng).wf(),
        ensures
            final(self).wf(),
            final(rng).wf(),
            final(self).same_sample(old(self)),
            (final(self)@, final(rng)@) == old(self)@.retried(old(self).adjacency(), choice, old(rng)@),
    {
        let ghost start = self@;
        let ghost adj = self.adjacency();
        let ghost seed = rng@;
        loop
            invariant_except_break
                start.retried(adj, choice, seed) == self@.retried(adj, choice, rng@),
            invariant
                self.wf(),
                rng.wf(),
                self.same_sample(old(self)),
                self.adjacency() == adj,
                self@.contains(choice),
                start == old(self)@,
                adj == old(self).adjacency(),
                seed == old(rng)@,
                start.wf(adj),
                start.contains(choice),
            ensures
                self.wf(),
                rng.wf(),
                self.same_sample(old(self)),
                (self@, rng@) == start.retried(adj, choice, seed),
            decreases self@.support(),
        {
            let ghost before = self@;
            let ghost state = rng@;
            proof {
                before.lemma_collapse(adj, choice, rand64_rand_u64(state).0);
            }
            let failed: bool = self.collapse(choice, rng);
            if !failed {
                break;
            }
        }
    }

    /// Runs the synthesis to its end: recomputes the queued cells, then draws
    /// candidates and decides them until none is left.
    pub fn run(&mut self, rng: &mut Rng)
        requires
            old(self).wf(),
            old(rng).wf(),
        ensures
            final(self).wf(),
            final(rng).wf(),
            final(self).same_sample(old(self)),
            (final(self)@, final(rng)@) == old(self)@.run(old(self).adjacency(), old(rng)@),
            old(self)@.keeps_settled(final(self)@),
            final(self)@.damage.len() == 0,
            final(self)@.candidates.len() == 0,
            old(self)@.covered() ==> final(self)@.at_rest(),
            old(self)@.sound(old(self).adjacency()) && old(self)@.width > 1 && old(self)@.height > 1
                ==> final(self)@.sound(old(self).adjacency()),
    {
        let ghost was_sound = self@.sound(self.adjacency()) && self@.width > 1 && self@.height > 1;
        let ghost adj = self.adjacency();
        let ghost seed = rng@;
        proof {
            self@.lemma_recalculate_all(adj, false);
            self@.lemma_recalculate_all_keeps(adj, false);
            if self@.covered() {
                self@.lemma_recalculate_all_covered(adj, false, None);
            }
            if was_sound {
                self@.lemma_recalculate_all_sound(adj, false);
                self@.lemma_recalculate_all_decays(adj, false);
            }
        }
        let _ = self.recalculate_all(false);
        let ghost start = self@;
        while self.candidates.len() > 0
            invariant
                self@.damage.len() == 0,
                start.keeps_settled(self@),
                old(self)@.covered() ==> self@.covered(),
                was_sound == (old(self)@.sound(adj) && old(self)@.width > 1 && old(self)@.height > 1),
                was_sound ==> self@.sound(adj) && self@.width > 1 && self@.height > 1,
                self.wf(),
                rng.wf(),
                self.same_sample(old(self)),
                self.adjacency() == adj,
                adj == old(self).adjacency(),
                seed == old(rng)@,
                start.wf(adj),
                start == old(self)@.recalculate_all(adj, false).0,
                start.scheduled(adj, seed) == self@.scheduled(adj, rng@),
            decreases self@.undecided_count(), self@.candidates.len(),
        {
            let ghost before = self@;
            let ghost state = rng@;
            let index: usize = rng.rand_range(0, self.candidates.len() as u64) as usize;
            proof {
                let taken = before.without_candidate(index as int);
                let p = before.candidates[index as int];
                before.lemma_without_candidate(adj, index as int);
                taken.lemma_retried(adj, p, rng@);
                if before.covered() {
                    before.lemma_without_candidate_covered(adj, index as int);
                    taken.lemma_retried_covered(adj, p, rng@);
                }
                if was_sound {
                    before.lemma_sound_frame(adj, taken);
                    taken.lemma_retried_sound(adj, p, rng@);
                }
                let last = taken.retried(adj, p, rng@).0;
                assert forall|q: Pos| start.contains(q) && !(start.type_at(q) is Field) implies #[trigger] last.type_at(
                    q,
                ) == start.type_at(q) by {
                    assert(before.type_at(q) == start.type_at(q));
                    assert(taken.type_at(q) == before.type_at(q));
                }
            }
            let choice: Pos = self.take_candidate(index);
            self.collapse_until_accepted(choice, rng);
        }
        proof {
            let g = self@;
            assert forall|q: Pos| old(self)@.contains(q) && !(old(self)@.type_at(q) is Field) implies #[trigger] g.type_at(
                q,
            ) == old(self)@.type_at(q) by {
                assert(start.type_at(q) == old(self)@.type_at(q));
            }
            if old(self)@.covered() {
                assert forall|p: Pos| g.contains(p) && g.type_at(p) is Field implies !#[trigger] g.has_decided_neighbor(
                    p,
                ) by {
                    if g.has_decided_neighbor(p) {
                        assert(g.candidates.contains(p) || g.damage.contains(p));
                    }
                }
            }
        }
    }
    /// Reports on the grid: the dead cells, row by row; or nothing if some
    /// cell is still undecided.
    pub fn dead_tiles(&self) -> (report: Option<Vec<Pos>>)
        requires
            self.wf(),
        ensures
            report is None <==> self@.has_undecided(),
            report matches Some(list) ==> list@ == self@.dead_cells(),
    {
        let ghost g = self@;
        let mut list: Vec<Pos> = Vec::new();
        let mut y: usize = 0;
        while y < self.height
            invariant
                y <= self.height,
                self.wf(),
                self@ == g,
                list@ == dead_upto(g.types, y as int),
                forall|p: Pos| g.contains(p) && p.1 < y ==> !(#[trigger] g.type_at(p) is Field),
            decreases self.height - y,
        {
            let mut x: usize = 0;
            while x < self.width
                invariant
                    x <= self.width,
                    y < self.height,
                    self.wf(),
                    self@ == g,
                    list@ == dead_upto(g.types, y as int) + dead_in_row(g.types[y as int], y, x as int),
                    forall|p: Pos| g.contains(p) && p.1 < y ==> !(#[trigger] g.type_at(p) is Field),
                    forall|p: Pos| g.contains(p) && p.1 == y && p.0 < x ==> !(#[trigger] g.type_at(p) is Field),
                decreases self.width - x,
            {
                let ghost before = list@;
                match self.get_type((x, y)) {
                    TileType::Dead => {
                        list.push((x, y));
                        assert(list@ =~= dead_upto(g.types, y as int) + dead_in_row(
                            g.types[y as int],
                            y,
                            x as int + 1,
                        ));
                    },
                    TileType::Field => {
                        assert(g.contains((x, y)) && g.type_at((x, y)) is Field);
                        return None;
                    },
                    TileType::Tile(_) => {},
                }
                x += 1;
            }
            assert(g.types[y as int].len() == self.width);
            y += 1;
        }
        Some(list)
    }

    /// Whether the engine is what a synthesis from the given sample, output
    /// size and seed leaves: its tiles and statistics are those of the sample,
    /// and its grid is the outcome of a whole run, with a generator started
    /// from the seed, on the blank grid with the border laid.
    pub open spec fn synthesized_from(&self, px: &Vec<Vec<Rgba>>, width: usize, height: usize, seed: u128) -> bool {
        &&& self.wf()
        &&& self.tiles().describes(px)
        &&& self.adjacency().built_from(self.tiles().ids(), self.tiles().count() as int)
        &&& self@ == GridSpec::blank(width as nat, height as nat, self.tiles().count()).edged(0).run(
            self.adjacency(),
            rand64_new(seed),
        ).0
    }

    /// Makes an engine for the sample and the output size, and runs the
    /// synthesis with a generator started from `seed`.
    pub fn synthesize(px_map: &Vec<Vec<Rgba>>, width: usize, height: usize, seed: u128) -> (made: Result<
        Collapser,
        InitError,
    >)
        ensures
            match made {
                Ok(c) => {
                    &&& well_tiled(px_map)
                    &&& sizes_fit(px_map, width as int, height as int)
                    &&& c.synthesized_from(px_map, width, height, seed)
                    &&& c@.at_rest()
                    &&& c@.fallbacks == 0 ==> c@.consistent(c.adjacency())
                    &&& forall|p: Pos|
                        c@.contains(p) && on_border(p.0 as int, p.1 as int, width as int, height as int)
                            ==> #[trigger] c@.type_at(p) == TileType::Tile(0)
                },
                Err(InitError::BadSample) => !well_tiled(px_map),
                Err(InitError::EmptyGrid) => well_tiled(px_map) && (width == 0 || height == 0),
                Err(InitError::TooLarge) => well_tiled(px_map) && width > 0 && height > 0 && !sizes_fit(
                    px_map,
                    width as int,
                    height as int,
                ),
            },
    {
        match Collapser::init(px_map, width, height) {
            Ok(c) => {
                let mut collapser = c;
                let mut rng = Rng::new(seed);
                proof {
                    let adj = collapser.adjacency();
                    let blank = GridSpec::blank(width as nat, height as nat, adj.n);
                    GridSpec::lemma_blank_wf(width as nat, height as nat, adj);
                    GridSpec::lemma_blank_covered(width as nat, height as nat, adj);
                    blank.lemma_edged_covered(adj, 0);
                    GridSpec::lemma_edged_sound(width as nat, height as nat, adj);
                }
                let ghost edged = collapser@;
                collapser.run(&mut rng);
                proof {
                    let adj = collapser.adjacency();
                    let g = collapser@;
                    if width == 1 || height == 1 {
                        assert forall|q: Pos| g.contains(q) implies #[trigger] g.type_at(q) == TileType::Tile(
                            adj.forbidden,
                        ) by {
                            assert(on_border(q.0 as int, q.1 as int, width as int, height as int));
                            assert(edged.type_at(q) == TileType::Tile(0));
                        }
                        g.lemma_all_border_consistent(adj);
                    }
                    assert forall|p: Pos|
                        g.contains(p) && on_border(p.0 as int, p.1 as int, width as int, height as int) implies #[trigger] g.type_at(
                        p,
                    ) == TileType::Tile(0) by {
                        assert(edged.type_at(p) == TileType::Tile(0));
                    }
                }
                Ok(collapser)
            },
            Err(e) => Err(e),
        }
    }
}

/// Determinism: two syntheses from the same sample, output size and seed
/// leave the same tiles, the same statistics and the same grid.
pub proof fn lemma_synthesis_is_determined(
    px: &Vec<Vec<Rgba>>,
    width: usize,
    height: usize,
    seed: u128,
    a: &Collapser,
    b: &Collapser,
)
    requires
        well_tiled(px),
        a.synthesized_from(px, width, height, seed),
        b.synthesized_from(px, width, height, seed),
    ensures
        a.tiles().ids() == b.tiles().ids(),
        a.tiles().pixels() == b.tiles().pixels(),
        a.adjacency() == b.adjacency(),
        a@ == b@,
{
    lemma_catalog_unique(px, &a.tiles(), &b.tiles());
    assert(a.tiles().count() == b.tiles().count()) by {
        assert(a.tiles().pixels().len() == b.tiles().pixels().len());
    }
    lemma_model_unique(a.tiles().ids(), a.tiles().count() as int, a.adjacency(), b.adjacency());
}

} // verus!
