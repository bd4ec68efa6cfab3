//! Planning a whole frame: every row planned on its own, the rows at once
//! on a pool of workers or one after the other, and the row plans joined.

use crate::grid::{CellMove, Simulation};
use rayon::iter::{IntoParallelIterator, ParallelIterator};
use vstd::prelude::*;

verus! {

/// Appends a copy of `row` to `moves`.
fn append_row(moves: &mut Vec<CellMove>, row: &Vec<CellMove>)
    ensures
        final(moves)@ == old(moves)@ + row@,
{
    let mut k: usize = 0;
    while k < row.len()
        invariant
            k <= row@.len(),
            moves@ == old(moves)@ + row@.subrange(0, k as int),
        decreases row@.len() - k,
    {
        moves.push(row[k]);
        k += 1;
        assert(row@.subrange(0, k as int) == row@.subrange(0, k - 1).push(row@[k - 1]));
    }
    assert(row@.subrange(0, k as int) == row@);
}

impl Simulation {
    /// `moves` are in scan order: sorted by row from the floor up, and within
    /// a row by column, left to right in even rows and right to left in odd
    /// ones.
    pub open spec fn in_scan_order(&self, moves: Seq<CellMove>) -> bool {
        forall|k: int, l: int|
            0 <= k < l < moves.len() ==> {
                let a = (#[trigger] moves[k]).source as int;
                let b = (#[trigger] moves[l]).source as int;
                if self.row_of(a) != self.row_of(b) {
                    self.row_of(a) > self.row_of(b)
                } else if self.row_of(a) % 2 == 0 {
                    a < b
                } else {
                    a > b
                }
            }
    }

    /// `moves` is a plan of the rows from `lo` up to but not including `hi`:
    /// one candidate for each asking cell of those rows and nothing else, in
    /// scan order.
    pub open spec fn covers_rows(&self, lo: int, hi: int, moves: Seq<CellMove>) -> bool {
        &&& forall|k: int|
            0 <= k < moves.len() ==> self.is_candidate(#[trigger] moves[k]) && lo <= self.row_of(
                moves[k].source as int,
            ) < hi
        &&& self.in_scan_order(moves)
        &&& forall|i: int|
            0 <= i < self.area() && lo <= self.row_of(i) < hi && #[trigger] self.has_candidate(i)
                ==> exists|k: int| 0 <= k < moves.len() && (#[trigger] moves[k]).source == i
    }

    /// A plan of the rows from `y + 1` on, followed by a plan of row `y`, is a
    /// plan of the rows from `y` on.
    proof fn lemma_join_row(&self, y: int, hi: int, before: Seq<CellMove>, row: Seq<CellMove>)
        requires
            self.wf(),
            y < hi,
            self.covers_rows(y + 1, hi, before),
            self.is_row_plan(y, row),
        ensures
            self.covers_rows(y, hi, before + row),
    {
        let after = before + row;
        assert forall|k: int| 0 <= k < after.len() implies self.is_candidate(#[trigger] after[k])
            && y <= self.row_of(after[k].source as int) < hi by {
            if k < before.len() {
                assert(after[k] == before[k]);
            } else {
                assert(after[k] == row[k - before.len()]);
            }
        }
        assert forall|k: int, l: int| 0 <= k < l < after.len() implies {
            let a = (#[trigger] after[k]).source as int;
            let b = (#[trigger] after[l]).source as int;
            if self.row_of(a) != self.row_of(b) {
                self.row_of(a) > self.row_of(b)
            } else if self.row_of(a) % 2 == 0 {
                a < b
            } else {
                a > b
            }
        } by {
            if l < before.len() {
                assert(after[k] == before[k] && after[l] == before[l]);
            } else if k < before.len() {
                assert(after[k] == before[k] && after[l] == row[l - before.len()]);
            } else {
                assert(after[k] == row[k - before.len()] && after[l] == row[l - before.len()]);
            }
        }
        assert forall|i: int|
            0 <= i < self.area() && y <= self.row_of(i) < hi && #[trigger] self.has_candidate(
                i,
            ) implies exists|k: int| 0 <= k < after.len() && (#[trigger] after[k]).source == i by {
            if self.row_of(i) == y {
                let k = choose|k: int| 0 <= k < row.len() && (#[trigger] row[k]).source == i;
                assert(after[before.len() + k] == row[k]);
            } else {
                let k = choose|k: int| 0 <= k < before.len() && (#[trigger] before[k]).source == i;
                assert(after[k] == before[k]);
            }
        }
    }

    /// A plan of all the rows is a plan of the grid.
    proof fn lemma_all_rows(&self, moves: Seq<CellMove>)
        requires
            self.wf(),
            self.covers_rows(0, self.height as int, moves),
        ensures
            self.is_plan(moves),
            self.in_scan_order(moves),
    {
        assert forall|i: int| 0 <= i < self.area() && #[trigger] self.has_candidate(i) implies exists|
            k: int,
        | 0 <= k < moves.len() && (#[trigger] moves[k]).source == i by {
            self.lemma_index_split(i);
        }
    }

    /// Plans every row on rayon's pool of workers, with
    /// `into_par_iter().map(..).collect()` over the row numbers. The contract
    /// claims that the result holds one entry per row, in row order, and that
    /// entry `y` is what a call of `plan_row(y)` returned.
    #[verifier::external_body]
    fn plan_rows(&self) -> (rows: Vec<Vec<CellMove>>)
        requires
            self.wf(),
        ensures
            rows@.len() == self.height,
            forall|y: int| 0 <= y < self.height ==> self.is_row_plan(y, (#[trigger] rows@[y])@),
    {
        (0..self.height).into_par_iter().map(|y| self.plan_row(y)).collect()
    }

    /// The candidate moves of the whole grid, the rows planned in parallel and
    /// joined from the floor up.
    pub fn plan_parallel(&self) -> (moves: Vec<CellMove>)
        requires
            self.wf(),
        ensures
            self.is_plan(moves@),
            self.in_scan_order(moves@),
    {
        let rows = self.plan_rows();
        let mut moves: Vec<CellMove> = Vec::new();
        let mut y: usize = self.height;
        while y > 0
            invariant
                self.wf(),
                y <= self.height,
                rows@.len() == self.height,
                forall|r: int| 0 <= r < self.height ==> self.is_row_plan(r, (#[trigger] rows@[r])@),
                self.covers_rows(y as int, self.height as int, moves@),
            decreases y,
        {
            y -= 1;
            proof {
                self.lemma_join_row(y as int, self.height as int, moves@, rows@[y as int]@);
            }
            append_row(&mut moves, &rows[y]);
        }
        proof {
            self.lemma_all_rows(moves@);
        }
        moves
    }

    /// The candidate moves of the whole grid, planned row by row on the
    /// calling thread, from the floor up.
    pub fn plan_serial(&self) -> (moves: Vec<CellMove>)
        requires
            self.wf(),
        ensures
            self.is_plan(moves@),
            self.in_scan_order(moves@),
    {
        let mut moves: Vec<CellMove> = Vec::new();
        let mut y: usize = self.height;
        while y > 0
            invariant
                self.wf(),
                y <= self.height,
                self.covers_rows(y as int, self.height as int, moves@),
            decreases y,
        {
            y -= 1;
            let row = self.plan_row(y);
            proof {
                self.lemma_join_row(y as int, self.height as int, moves@, row@);
            }
            append_row(&mut moves, &row);
        }
        proof {
            self.lemma_all_rows(moves@);
        }
        moves
    }

    /// `moves` follow `coins`: each is what its source cell asks for under the
    /// coin that `coins` holds for that cell.
    pub open spec fn follows_coins(&self, moves: Seq<CellMove>, coins: Seq<bool>) -> bool {
        forall|k: int|
            0 <= k < moves.len() ==> self.candidate(
                self.col_of((#[trigger] moves[k]).source as int),
                self.row_of(moves[k].source as int),
                coins[moves[k].source as int],
            ) == Some(moves[k])
    }

    /// Under one plan that follows `coins`, every move of another such plan
    /// occurs.
    proof fn lemma_plan_holds(
        &self,
        coins: Seq<bool>,
        one: Seq<CellMove>,
        other: Seq<CellMove>,
        m: CellMove,
    )
        requires
            self.wf(),
            self.is_plan(one),
            self.is_plan(other),
            self.follows_coins(one, coins),
            self.follows_coins(other, coins),
            one.contains(m),
        ensures
            other.contains(m),
    {
        let k = choose|k: int| 0 <= k < one.len() && one[k] == m;
        assert(self.is_candidate(one[k]));
        self.lemma_candidate_ends(m);
        assert(self.has_candidate(m.source as int));
        let l = choose|l: int| 0 <= l < other.len() && (#[trigger] other[l]).source == m.source;
        assert(other[l] == m);
    }

    /// Whichever way a frame is planned, on many workers or on one, and in
    /// whatever order the rows are joined: two plans of one grid that were
    /// made with the same coin for every cell hold the same moves, each once.
    pub proof fn lemma_plans_agree(
        &self,
        coins: Seq<bool>,
        parallel: Seq<CellMove>,
        serial: Seq<CellMove>,
    )
        requires
            self.wf(),
            coins.len() == self.area(),
            self.is_plan(parallel),
            self.is_plan(serial),
            self.follows_coins(parallel, coins),
            self.follows_coins(serial, coins),
        ensures
            parallel.to_multiset() == serial.to_multiset(),
    {
        broadcast use vstd::seq_lib::to_multiset_contains;

        assert(parallel.no_duplicates());
        assert(serial.no_duplicates());
        parallel.lemma_multiset_has_no_duplicates();
        serial.lemma_multiset_has_no_duplicates();
        assert forall|m: CellMove| parallel.to_multiset().count(m) == serial.to_multiset().count(
            m,
        ) by {
            if parallel.contains(m) {
                self.lemma_plan_holds(coins, parallel, serial, m);
            }
            if serial.contains(m) {
                self.lemma_plan_holds(coins, serial, parallel, m);
            }
        }
        assert(parallel.to_multiset() =~= serial.to_multiset());
    }
}

} // verus!
