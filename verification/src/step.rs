//! One frame: plan against the grid as it stands, then commit.

use crate::commit::{are_claims, cell_after, is_arbitration, is_live, is_resolution, is_vacated, resolved, wins};
use crate::grid::{Cell, CellMove, Simulation};
use vstd::prelude::*;

verus! {

impl Simulation {
    /// `next` is this grid one frame later: the size is the same, and the
    /// cells are those of this grid with some plan of it resolved.
    pub open spec fn advances_to(&self, next: Simulation) -> bool {
        &&& next.width == self.width
        &&& next.height == self.height
        &&& exists|moves: Seq<CellMove>| #[trigger]
            self.is_plan(moves) && is_resolution(self.grid@, moves, next.grid@)
    }

    /// The moves of a plan are claims on the grid.
    pub proof fn lemma_plan_claims(&self, moves: Seq<CellMove>)
        requires
            self.wf(),
            self.is_plan(moves),
        ensures
            are_claims(self.grid@, moves),
    {
        assert forall|k: int| 0 <= k < moves.len() implies {
            &&& (#[trigger] moves[k]).source < self.grid@.len()
            &&& moves[k].destination < self.grid@.len()
            &&& self.grid@[moves[k].source as int] == Cell::Sand
        } by {
            self.lemma_candidate_ends(moves[k]);
        }
    }

    /// Advances the grid by one frame: every grain that can fall asks for the
    /// cell it would fall to, and each free cell that is asked for receives
    /// one of the grains that asked, picked at random. Grains are neither
    /// made nor lost, a grain on the floor stays, stone stays, and a grid
    /// without grains is left as it is.
    pub fn update(&mut self)
        requires
            old(self).wf(),
        ensures
            final(self).wf(),
            old(self).advances_to(*final(self)),
            final(self).grid@.to_multiset() == old(self).grid@.to_multiset(),
            final(self).sand_count() == old(self).sand_count(),
            forall|i: int|
                0 <= i < old(self).area() && old(self).row_of(i) == old(self).height - 1 && old(
                    self,
                ).grid@[i] == Cell::Sand ==> #[trigger] final(self).grid@[i] == Cell::Sand,
            forall|i: int|
                0 <= i < old(self).area() ==> (old(self).grid@[i] == Cell::Stone
                    <==> #[trigger] final(self).grid@[i] == Cell::Stone),
            (forall|i: int| 0 <= i < old(self).area() ==> old(self).grid@[i] != Cell::Sand)
                ==> final(self).grid@ == old(self).grid@,
    {
        let changes = self.plan_parallel();
        proof {
            self.lemma_plan_claims(changes@);
        }
        self.commit_changes(changes);
        proof {
            let pre = *old(self);
            let post = *self;
            assert(pre.is_plan(changes@) && is_resolution(pre.grid@, changes@, post.grid@));
            assert(pre.advances_to(post));
            assert forall|i: int|
                0 <= i < pre.area() && pre.row_of(i) == pre.height - 1 && pre.grid@[i]
                    == Cell::Sand implies #[trigger] post.grid@[i] == Cell::Sand by {
                pre.lemma_floor_holds(post, i);
            }
            assert forall|i: int| 0 <= i < pre.area() implies (pre.grid@[i] == Cell::Stone
                <==> #[trigger] post.grid@[i] == Cell::Stone) by {
                pre.lemma_stone_stays(post, i);
            }
            if forall|i: int| 0 <= i < pre.area() ==> pre.grid@[i] != Cell::Sand {
                pre.lemma_still_without_sand(post);
            }
        }
    }

    /// A grain on the floor is still there one frame later.
    pub proof fn lemma_floor_holds(&self, next: Simulation, i: int)
        requires
            self.wf(),
            self.advances_to(next),
            0 <= i < self.area(),
            self.row_of(i) == self.height - 1,
            self.grid@[i] == Cell::Sand,
        ensures
            next.grid@[i] == Cell::Sand,
    {
        let moves = choose|moves: Seq<CellMove>| #[trigger]
            self.is_plan(moves) && is_resolution(self.grid@, moves, next.grid@);
        let winners = choose|winners: Seq<Option<usize>>| #[trigger]
            is_arbitration(self.grid@, moves, winners) && next.grid@ == resolved(
                self.grid@,
                moves,
                winners,
            );
        let upto = moves.len() as int;
        assert(winners[i].is_none());
        if is_vacated(moves, winners, upto, i) {
            let k = choose|k: int|
                0 <= k < upto && (#[trigger] moves[k]).source == i && wins(moves, winners, k);
            assert(self.is_candidate(moves[k]));
        }
        assert(next.grid@[i] == cell_after(self.grid@, moves, winners, upto, i));
    }

    /// Where stone is, stone stays, and no stone appears.
    pub proof fn lemma_stone_stays(&self, next: Simulation, i: int)
        requires
            self.wf(),
            self.advances_to(next),
            0 <= i < self.area(),
        ensures
            self.grid@[i] == Cell::Stone <==> next.grid@[i] == Cell::Stone,
    {
        let moves = choose|moves: Seq<CellMove>| #[trigger]
            self.is_plan(moves) && is_resolution(self.grid@, moves, next.grid@);
        let winners = choose|winners: Seq<Option<usize>>| #[trigger]
            is_arbitration(self.grid@, moves, winners) && next.grid@ == resolved(
                self.grid@,
                moves,
                winners,
            );
        let upto = moves.len() as int;
        self.lemma_plan_claims(moves);
        assert(next.grid@[i] == cell_after(self.grid@, moves, winners, upto, i));
        if winners[i].is_some() {
            let k = winners[i].unwrap() as int;
            assert(is_live(self.grid@, moves[k]));
            assert(self.grid@[moves[k].source as int] == Cell::Sand);
        } else if is_vacated(moves, winners, upto, i) {
            let k = choose|k: int|
                0 <= k < upto && (#[trigger] moves[k]).source == i && wins(moves, winners, k);
            assert(self.grid@[moves[k].source as int] == Cell::Sand);
        }
    }

    /// A grid without grains is the same one frame later.
    pub proof fn lemma_still_without_sand(&self, next: Simulation)
        requires
            self.wf(),
            self.advances_to(next),
            forall|i: int| 0 <= i < self.area() ==> self.grid@[i] != Cell::Sand,
        ensures
            next.grid@ == self.grid@,
    {
        let moves = choose|moves: Seq<CellMove>| #[trigger]
            self.is_plan(moves) && is_resolution(self.grid@, moves, next.grid@);
        let winners = choose|winners: Seq<Option<usize>>| #[trigger]
            is_arbitration(self.grid@, moves, winners) && next.grid@ == resolved(
                self.grid@,
                moves,
                winners,
            );
        self.lemma_plan_claims(moves);
        if moves.len() > 0 {
            assert(self.grid@[moves[0].source as int] == Cell::Sand);
        }
        assert(next.grid@ =~= self.grid@);
    }

    /// A grain that asks for a cell which no other grain can ask for, and
    /// which does not depend on a coin to ask for it, is in that cell one
    /// frame later, and the cell it left is free.
    pub proof fn lemma_unrivalled_move(&self, next: Simulation, m: CellMove)
        requires
            self.wf(),
            self.advances_to(next),
            self.is_candidate(m),
            !self.is_torn(self.col_of(m.source as int), self.row_of(m.source as int)),
            forall|other: CellMove|
                #[trigger] self.is_candidate(other) && other.destination == m.destination
                    ==> other.source == m.source,
        ensures
            next.grid@[m.source as int] == Cell::Empty,
            next.grid@[m.destination as int] == Cell::Sand,
    {
        let moves = choose|moves: Seq<CellMove>| #[trigger]
            self.is_plan(moves) && is_resolution(self.grid@, moves, next.grid@);
        let winners = choose|winners: Seq<Option<usize>>| #[trigger]
            is_arbitration(self.grid@, moves, winners) && next.grid@ == resolved(
                self.grid@,
                moves,
                winners,
            );
        let upto = moves.len() as int;
        let s = m.source as int;
        let d = m.destination as int;
        self.lemma_plan_claims(moves);
        self.lemma_candidate_ends(m);
        assert(self.has_candidate(s));
        let k = choose|k: int| 0 <= k < moves.len() && (#[trigger] moves[k]).source == s;
        assert(self.is_candidate(moves[k]));
        assert(moves[k] == m);
        assert(is_live(self.grid@, moves[k]));
        let j = winners[d].unwrap() as int;
        assert(self.is_candidate(moves[j]));
        assert(j == k);
        assert(wins(moves, winners, k));
        assert(is_vacated(moves, winners, upto, s));
        assert(winners[s].is_none());
        assert(next.grid@[s] == cell_after(self.grid@, moves, winners, upto, s));
        assert(next.grid@[d] == cell_after(self.grid@, moves, winners, upto, d));
    }

    /// Where two grains ask for the same cell, neither by a coin, and no
    /// third grain can ask for it, one frame later the cell holds a grain,
    /// one of the two has left its cell and the other is where it was.
    pub proof fn lemma_two_rivals(&self, next: Simulation, a: CellMove, b: CellMove)
        requires
            self.wf(),
            self.advances_to(next),
            self.is_candidate(a),
            self.is_candidate(b),
            a.source != b.source,
            a.destination == b.destination,
            !self.is_torn(self.col_of(a.source as int), self.row_of(a.source as int)),
            !self.is_torn(self.col_of(b.source as int), self.row_of(b.source as int)),
            forall|other: CellMove|
                #[trigger] self.is_candidate(other) && other.destination == a.destination
                    ==> other.source == a.source || other.source == b.source,
        ensures
            next.grid@[a.destination as int] == Cell::Sand,
            (next.grid@[a.source as int] == Cell::Empty && next.grid@[b.source as int]
                == Cell::Sand) || (next.grid@[a.source as int] == Cell::Sand
                && next.grid@[b.source as int] == Cell::Empty),
    {
        let moves = choose|moves: Seq<CellMove>| #[trigger]
            self.is_plan(moves) && is_resolution(self.grid@, moves, next.grid@);
        let winners = choose|winners: Seq<Option<usize>>| #[trigger]
            is_arbitration(self.grid@, moves, winners) && next.grid@ == resolved(
                self.grid@,
                moves,
                winners,
            );
        let upto = moves.len() as int;
        let d = a.destination as int;
        self.lemma_plan_claims(moves);
        self.lemma_candidate_ends(a);
        self.lemma_candidate_ends(b);
        assert(self.has_candidate(a.source as int));
        assert(self.has_candidate(b.source as int));
        let ka = choose|k: int| 0 <= k < moves.len() && (#[trigger] moves[k]).source == a.source;
        let kb = choose|k: int| 0 <= k < moves.len() && (#[trigger] moves[k]).source == b.source;
        assert(self.is_candidate(moves[ka]) && self.is_candidate(moves[kb]));
        assert(moves[ka] == a && moves[kb] == b);
        assert(is_live(self.grid@, moves[ka]));
        let j = winners[d].unwrap() as int;
        assert(self.is_candidate(moves[j]));
        assert(j == ka || j == kb);
        let won = if j == ka {
            a
        } else {
            b
        };
        let lost = if j == ka {
            b
        } else {
            a
        };
        assert(wins(moves, winners, j));
        assert(is_vacated(moves, winners, upto, won.source as int));
        assert(!is_vacated(moves, winners, upto, lost.source as int)) by {
            if is_vacated(moves, winners, upto, lost.source as int) {
                let k = choose|k: int|
                    0 <= k < upto && (#[trigger] moves[k]).source == lost.source && wins(
                        moves,
                        winners,
                        k,
                    );
                assert(k == ka || k == kb);
            }
        }
        assert(winners[a.source as int].is_none());
        assert(winners[b.source as int].is_none());
        assert(next.grid@[d] == cell_after(self.grid@, moves, winners, upto, d));
        assert(next.grid@[a.source as int] == cell_after(
            self.grid@,
            moves,
            winners,
            upto,
            a.source as int,
        ));
        assert(next.grid@[b.source as int] == cell_after(
            self.grid@,
            moves,
            winners,
            upto,
            b.source as int,
        ));
    }

    /// In a grid one column wide, a grain above a free cell is in that cell one
    /// frame later, and the cell it left is free.
    pub proof fn lemma_free_fall(&self, next: Simulation, y: int)
        requires
            self.wf(),
            self.width == 1,
            self.advances_to(next),
            0 <= y,
            y + 1 < self.height,
            self.grid@[y] == Cell::Sand,
            self.grid@[y + 1] == Cell::Empty,
        ensures
            next.grid@[y] == Cell::Empty,
            next.grid@[y + 1] == Cell::Sand,
    {
        assert(self.area() == self.height) by (nonlinear_arith)
            requires
                self.area() == self.width * self.height,
                self.width == 1,
        ;
        self.lemma_index_split(y);
        self.lemma_below(0, y);
        assert(self.col_of(y) == 0 && self.row_of(y) == y);
        assert(self.is_free(0, y + 1));
        let m = CellMove { destination: (y + 1) as usize, source: y as usize };
        assert(self.candidate(0, y, true) == Some(m));
        assert forall|other: CellMove|
            #[trigger] self.is_candidate(other) && other.destination
                == m.destination implies other.source == m.source by {
            self.lemma_candidate_ends(other);
            let s = other.source as int;
            self.lemma_index_split(s);
            self.lemma_below(0, self.row_of(s));
            assert(!self.is_free(-1, self.row_of(s) + 1));
            assert(!self.is_free(1, self.row_of(s) + 1));
        }
        self.lemma_unrivalled_move(next, m);
    }
}

} // verus!
