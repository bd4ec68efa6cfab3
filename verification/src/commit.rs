//! The conflict resolver: among the candidate moves that ask for one free
//! cell exactly one is carried out, and the grains of the others stay put.

use crate::grid::{Cell, CellMove, Simulation};
use crate::random::random_index;
use vstd::prelude::*;
use vstd::seq_lib::to_multiset_contains;

verus! {

/// `moves` are claims on `cells`: both ends of each are cell indices, each
/// starts at a grain, and no two start at the same cell.
pub open spec fn are_claims(cells: Seq<Cell>, moves: Seq<CellMove>) -> bool {
    &&& forall|k: int|
        0 <= k < moves.len() ==> {
            &&& (#[trigger] moves[k]).source < cells.len()
            &&& moves[k].destination < cells.len()
            &&& cells[moves[k].source as int] == Cell::Sand
        }
    &&& forall|k: int, l: int|
        0 <= k < l < moves.len() ==> (#[trigger] moves[k]).source != (#[trigger] moves[l]).source
}

/// The move asks for a cell that is free in `cells`; any other is dropped.
pub open spec fn is_live(cells: Seq<Cell>, m: CellMove) -> bool {
    cells[m.destination as int] == Cell::Empty
}

/// `winners` settles `moves` on `cells`: it names, for each cell that a live
/// move asks for, one live move that asks for it, by its position in `moves`,
/// and names nothing for any other cell.
pub open spec fn is_arbitration(
    cells: Seq<Cell>,
    moves: Seq<CellMove>,
    winners: Seq<Option<usize>>,
) -> bool {
    &&& winners.len() == cells.len()
    &&& forall|d: int|
        0 <= d < winners.len() ==> (#[trigger] winners[d] matches Some(k) ==> {
            &&& k < moves.len()
            &&& moves[k as int].destination == d
            &&& is_live(cells, moves[k as int])
        })
    &&& forall|k: int|
        0 <= k < moves.len() && is_live(cells, #[trigger] moves[k])
            ==> winners[moves[k].destination as int].is_some()
}

/// How many of the first `upto` moves are live and ask for cell `d`.
pub open spec fn claims_before(cells: Seq<Cell>, moves: Seq<CellMove>, d: int, upto: int) -> nat
    decreases upto,
{
    if upto <= 0 {
        0
    } else if moves[upto - 1].destination == d && is_live(cells, moves[upto - 1]) {
        claims_before(cells, moves, d, upto - 1) + 1
    } else {
        claims_before(cells, moves, d, upto - 1)
    }
}

/// Move number `k` takes the cell it asks for from whoever held it: it is
/// live, and its draw is a multiple of the number of live moves up to and
/// including it that ask for that cell. The first to ask always takes.
pub open spec fn takes(cells: Seq<Cell>, moves: Seq<CellMove>, draws: Seq<usize>, k: int) -> bool {
    &&& is_live(cells, moves[k])
    &&& draws[k] as int % (claims_before(cells, moves, moves[k].destination as int, k + 1) as int)
        == 0
}

/// Who holds cell `d` after the first `upto` moves have drawn: the last of
/// them that took it.
pub open spec fn holder(
    cells: Seq<Cell>,
    moves: Seq<CellMove>,
    draws: Seq<usize>,
    d: int,
    upto: int,
) -> Option<usize>
    decreases upto,
{
    if upto <= 0 {
        None
    } else if moves[upto - 1].destination == d && takes(cells, moves, draws, upto - 1) {
        Some((upto - 1) as usize)
    } else {
        holder(cells, moves, draws, d, upto - 1)
    }
}

/// The winners that the draws `draws`, one per move, make.
pub open spec fn drawn_winners(
    cells: Seq<Cell>,
    moves: Seq<CellMove>,
    draws: Seq<usize>,
) -> Seq<Option<usize>> {
    Seq::new(cells.len(), |d: int| holder(cells, moves, draws, d, moves.len() as int))
}

/// Move number `k` is the one that `winners` names for its destination.
pub open spec fn wins(moves: Seq<CellMove>, winners: Seq<Option<usize>>, k: int) -> bool {
    winners[moves[k].destination as int] matches Some(j) && j == k
}

/// Cell `i` is the source of one of the first `upto` moves, and that move wins.
pub open spec fn is_vacated(
    moves: Seq<CellMove>,
    winners: Seq<Option<usize>>,
    upto: int,
    i: int,
) -> bool {
    exists|k: int| 0 <= k < upto && (#[trigger] moves[k]).source == i && wins(moves, winners, k)
}

/// What cell `i` holds once the winners among the first `upto` moves are
/// carried out on `cells`: a destination holds what its winner's source held,
/// a winner's source holds nothing, and any other cell holds what it held.
pub open spec fn cell_after(
    cells: Seq<Cell>,
    moves: Seq<CellMove>,
    winners: Seq<Option<usize>>,
    upto: int,
    i: int,
) -> Cell {
    if winners[i].is_some() && winners[i].unwrap() < upto {
        cells[moves[winners[i].unwrap() as int].source as int]
    } else if is_vacated(moves, winners, upto, i) {
        Cell::Empty
    } else {
        cells[i]
    }
}

/// `cells` with every winner carried out.
pub open spec fn resolved(
    cells: Seq<Cell>,
    moves: Seq<CellMove>,
    winners: Seq<Option<usize>>,
) -> Seq<Cell> {
    Seq::new(cells.len(), |i: int| cell_after(cells, moves, winners, moves.len() as int, i))
}

/// `post` is `pre` with `moves` resolved under some arbitration.
pub open spec fn is_resolution(pre: Seq<Cell>, moves: Seq<CellMove>, post: Seq<Cell>) -> bool {
    exists|winners: Seq<Option<usize>>| #[trigger]
        is_arbitration(pre, moves, winners) && post == resolved(pre, moves, winners)
}

/// Moving a grain into a free cell keeps the multiset of cells.
proof fn lemma_swap_keeps_cells(cells: Seq<Cell>, s: int, d: int)
    requires
        0 <= s < cells.len(),
        0 <= d < cells.len(),
        cells[s] == Cell::Sand,
        cells[d] == Cell::Empty,
    ensures
        cells.update(d, Cell::Sand).update(s, Cell::Empty).to_multiset() == cells.to_multiset(),
{
    broadcast use {vstd::seq_lib::to_multiset_update, vstd::seq_lib::to_multiset_contains};

    let mid = cells.update(d, Cell::Sand);
    assert(mid.to_multiset() == cells.to_multiset().insert(Cell::Sand).remove(Cell::Empty));
    assert(mid[s] == Cell::Sand);
    assert(mid.update(s, Cell::Empty).to_multiset() == mid.to_multiset().insert(
        Cell::Empty,
    ).remove(Cell::Sand));
    assert(cells.contains(cells[d]));
    assert(cells.contains(cells[s]));
    assert(mid.update(s, Cell::Empty).to_multiset() =~= cells.to_multiset());
}

/// Draws `count` random numbers.
fn draw_lots(count: usize) -> (draws: Vec<usize>)
    ensures
        draws@.len() == count,
{
    let mut draws: Vec<usize> = Vec::new();
    let mut k: usize = 0;
    while k < count
        invariant
            k <= count,
            draws@.len() == k,
        decreases count - k,
    {
        draws.push(random_index());
        k += 1;
    }
    draws
}

impl Simulation {
    /// Settles `changes` by the draws `draws`, one per move: the moves draw in
    /// turn, and a live move takes the cell it asks for where it is the first
    /// to ask, or where its draw is a multiple of the number of live moves
    /// that have asked for that cell so far, itself included. With draws that
    /// are spread evenly, each of the moves that ask for a cell is as likely
    /// as any other to hold it in the end.
    pub fn arbitrate_with(&self, changes: &Vec<CellMove>, draws: &Vec<usize>) -> (winners: Vec<
        Option<usize>,
    >)
        requires
            are_claims(self.grid@, changes@),
            draws@.len() == changes@.len(),
        ensures
            winners@ == drawn_winners(self.grid@, changes@, draws@),
            is_arbitration(self.grid@, changes@, winners@),
    {
        let cells = self.grid.len();
        let mut winners: Vec<Option<usize>> = vec![None; cells];
        let mut rivals: Vec<usize> = vec![0; cells];
        let mut k: usize = 0;
        while k < changes.len()
            invariant
                k <= changes@.len(),
                draws@.len() == changes@.len(),
                cells == self.grid@.len(),
                winners@.len() == cells,
                rivals@.len() == cells,
                are_claims(self.grid@, changes@),
                forall|d: int|
                    0 <= d < cells ==> #[trigger] rivals@[d] == claims_before(
                        self.grid@,
                        changes@,
                        d,
                        k as int,
                    ),
                forall|d: int| 0 <= d < cells ==> #[trigger] rivals@[d] <= k,
                forall|d: int|
                    0 <= d < cells ==> #[trigger] winners@[d] == holder(
                        self.grid@,
                        changes@,
                        draws@,
                        d,
                        k as int,
                    ),
                forall|d: int|
                    0 <= d < cells && #[trigger] rivals@[d] > 0 ==> winners@[d].is_some(),
                forall|d: int|
                    0 <= d < cells ==> (#[trigger] winners@[d] matches Some(j) ==> {
                        &&& j < k
                        &&& changes@[j as int].destination == d
                        &&& is_live(self.grid@, changes@[j as int])
                    }),
                forall|j: int|
                    0 <= j < k && is_live(self.grid@, #[trigger] changes@[j])
                        ==> winners@[changes@[j].destination as int].is_some(),
            decreases changes@.len() - k,
        {
            let d: usize = changes[k].destination;
            if self.grid[d] == Cell::Empty {
                let count: usize = rivals[d] + 1;
                rivals[d] = count;
                if draws[k] % count == 0 {
                    winners[d] = Some(k);
                }
            }
            k += 1;
        }
        assert(winners@ =~= drawn_winners(self.grid@, changes@, draws@));
        winners
    }

    /// Picks, for every cell that a live move of `changes` asks for, one of
    /// the moves that ask for it, by one random draw for each move.
    pub fn arbitrate(&self, changes: &Vec<CellMove>) -> (winners: Vec<Option<usize>>)
        requires
            are_claims(self.grid@, changes@),
        ensures
            is_arbitration(self.grid@, changes@, winners@),
            exists|draws: Seq<usize>|
                draws.len() == changes@.len() && winners@ == #[trigger] drawn_winners(
                    self.grid@,
                    changes@,
                    draws,
                ),
    {
        let draws = draw_lots(changes.len());
        self.arbitrate_with(changes, &draws)
    }

    /// Resolves the candidate moves `changes` and carries the winners out:
    /// moves that ask for a cell that is not free are dropped, and of the
    /// moves that ask for the same free cell one, picked at random, moves its
    /// grain there while the others leave theirs where they are. Without
    /// candidates nothing happens.
    pub fn commit_changes(&mut self, changes: Vec<CellMove>)
        requires
            are_claims(old(self).grid@, changes@),
        ensures
            final(self).width == old(self).width,
            final(self).height == old(self).height,
            is_resolution(old(self).grid@, changes@, final(self).grid@),
            final(self).grid@.to_multiset() == old(self).grid@.to_multiset(),
    {
        if changes.len() == 0 {
            proof {
                let nobody = Seq::new(self.grid@.len(), |d: int| None::<usize>);
                assert(is_arbitration(self.grid@, changes@, nobody));
                assert(self.grid@ =~= resolved(self.grid@, changes@, nobody));
            }
            return ;
        }
        let winners = self.arbitrate(&changes);
        self.apply_winners(&changes, &winners);
    }

    /// Carries out the winning moves: for each, the destination takes what the
    /// source holds and the source is left empty.
    pub fn apply_winners(&mut self, changes: &Vec<CellMove>, winners: &Vec<Option<usize>>)
        requires
            are_claims(old(self).grid@, changes@),
            is_arbitration(old(self).grid@, changes@, winners@),
        ensures
            final(self).width == old(self).width,
            final(self).height == old(self).height,
            final(self).grid@ == resolved(old(self).grid@, changes@, winners@),
            final(self).grid@.to_multiset() == old(self).grid@.to_multiset(),
    {
        let mut k: usize = 0;
        while k < changes.len()
            invariant
                k <= changes@.len(),
                self.width == old(self).width,
                self.height == old(self).height,
                self.grid@.len() == old(self).grid@.len(),
                are_claims(old(self).grid@, changes@),
                is_arbitration(old(self).grid@, changes@, winners@),
                self.grid@.to_multiset() == old(self).grid@.to_multiset(),
                forall|i: int|
                    0 <= i < self.grid@.len() ==> #[trigger] self.grid@[i] == cell_after(
                        old(self).grid@,
                        changes@,
                        winners@,
                        k as int,
                        i,
                    ),
            decreases changes@.len() - k,
        {
            let m = changes[k];
            let won = match winners[m.destination] {
                Some(w) => w == k,
                None => false,
            };
            let ghost before = self.grid@;
            if won {
                proof {
                    lemma_winner_untouched(old(self).grid@, changes@, winners@, k as int);
                    lemma_swap_keeps_cells(before, m.source as int, m.destination as int);
                }
                let grain = self.grid[m.source];
                self.grid[m.destination] = grain;
                self.grid[m.source] = Cell::Empty;
            }
            proof {
                lemma_one_more_move(old(self).grid@, changes@, winners@, k as int, before, self.grid@);
            }
            k += 1;
        }
        assert(self.grid@ =~= resolved(old(self).grid@, changes@, winners@));
    }
}

/// Before move `k` is looked at, its ends are as they were at the start,
/// where it wins: no earlier winner has touched them.
proof fn lemma_winner_untouched(
    cells: Seq<Cell>,
    moves: Seq<CellMove>,
    winners: Seq<Option<usize>>,
    k: int,
)
    requires
        are_claims(cells, moves),
        is_arbitration(cells, moves, winners),
        0 <= k < moves.len(),
        wins(moves, winners, k),
    ensures
        cell_after(cells, moves, winners, k, moves[k].source as int) == Cell::Sand,
        cell_after(cells, moves, winners, k, moves[k].destination as int) == Cell::Empty,
        moves[k].source != moves[k].destination,
{
    let s = moves[k].source as int;
    let d = moves[k].destination as int;
    assert(is_live(cells, moves[k]));
    assert(winners[s].is_none());
    assert(!is_vacated(moves, winners, k, s));
    assert(!is_vacated(moves, winners, k, d)) by {
        if is_vacated(moves, winners, k, d) {
            let j = choose|j: int|
                0 <= j < k && (#[trigger] moves[j]).source == d && wins(moves, winners, j);
            assert(cells[moves[j].source as int] == Cell::Sand);
        }
    }
}

/// Looking at move `k` takes the grid from what the first `k` moves made of
/// it to what the first `k + 1` make of it.
proof fn lemma_one_more_move(
    cells: Seq<Cell>,
    moves: Seq<CellMove>,
    winners: Seq<Option<usize>>,
    k: int,
    before: Seq<Cell>,
    after: Seq<Cell>,
)
    requires
        are_claims(cells, moves),
        is_arbitration(cells, moves, winners),
        0 <= k < moves.len(),
        before.len() == cells.len(),
        forall|i: int|
            0 <= i < cells.len() ==> #[trigger] before[i] == cell_after(cells, moves, winners, k, i),
        after == if wins(moves, winners, k) {
            before.update(moves[k].destination as int, before[moves[k].source as int]).update(
                moves[k].source as int,
                Cell::Empty,
            )
        } else {
            before
        },
    ensures
        after.len() == cells.len(),
        forall|i: int|
            0 <= i < cells.len() ==> #[trigger] after[i] == cell_after(
                cells,
                moves,
                winners,
                k + 1,
                i,
            ),
{
    let s = moves[k].source as int;
    let d = moves[k].destination as int;
    assert forall|i: int| 0 <= i < cells.len() implies #[trigger] after[i] == cell_after(
        cells,
        moves,
        winners,
        k + 1,
        i,
    ) by {
        assert(before[i] == cell_after(cells, moves, winners, k, i));
        if wins(moves, winners, k) {
            lemma_winner_untouched(cells, moves, winners, k);
            assert(before[s] == cell_after(cells, moves, winners, k, s));
        }
        if is_vacated(moves, winners, k, i) {
            let j = choose|j: int|
                0 <= j < k && (#[trigger] moves[j]).source == i && wins(moves, winners, j);
            assert(is_vacated(moves, winners, k + 1, i));
        }
        if is_vacated(moves, winners, k + 1, i) && !is_vacated(moves, winners, k, i) {
            let j = choose|j: int|
                0 <= j < k + 1 && (#[trigger] moves[j]).source == i && wins(moves, winners, j);
            assert(j == k);
        }
        if i == s && wins(moves, winners, k) {
            assert(is_vacated(moves, winners, k + 1, i));
        }
    }
}

/// The winners of `winners`, named by their positions in `other`, a list
/// that holds the same moves as `moves`.
pub open spec fn renamed(
    moves: Seq<CellMove>,
    winners: Seq<Option<usize>>,
    other: Seq<CellMove>,
) -> Seq<Option<usize>> {
    Seq::new(
        winners.len(),
        |d: int|
            match winners[d] {
                Some(k) => Some(other.index_of(moves[k as int]) as usize),
                None => None,
            },
    )
}

/// The order in which the candidate moves are listed does not show in the
/// outcome: whatever grid can come of resolving a list of claims can come
/// of resolving any other list of the same claims.
pub proof fn lemma_order_unobservable(
    pre: Seq<Cell>,
    moves: Seq<CellMove>,
    other: Seq<CellMove>,
    post: Seq<Cell>,
)
    requires
        are_claims(pre, moves),
        are_claims(pre, other),
        other.len() <= usize::MAX,
        moves.to_multiset() == other.to_multiset(),
        is_resolution(pre, moves, post),
    ensures
        is_resolution(pre, other, post),
{
    let winners = choose|winners: Seq<Option<usize>>| #[trigger]
        is_arbitration(pre, moves, winners) && post == resolved(pre, moves, winners);
    let named = renamed(moves, winners, other);
    assert forall|k: int| 0 <= k < moves.len() implies other.contains(#[trigger] moves[k]) by {
        assert(moves.contains(moves[k]));
        to_multiset_contains(moves, moves[k]);
        to_multiset_contains(other, moves[k]);
    }
    assert forall|l: int| 0 <= l < other.len() implies moves.contains(#[trigger] other[l]) by {
        assert(other.contains(other[l]));
        to_multiset_contains(moves, other[l]);
        to_multiset_contains(other, other[l]);
    }
    assert forall|l: int| 0 <= l < other.len() implies other.index_of(#[trigger] other[l])
        == l by {
        let at = other.index_of(other[l]);
        assert(other.contains(other[l]));
        assert(0 <= at < other.len() && other[at] == other[l]);
    }
    // Each winner keeps its move under the new names.
    assert forall|d: int| 0 <= d < named.len() && winners[d].is_some() implies {
        let k = winners[d].unwrap() as int;
        let l = named[d].unwrap() as int;
        0 <= l < other.len() && other[l] == moves[k]
    } by {
        let k = winners[d].unwrap() as int;
        assert(other.contains(moves[k]));
    }
    assert(is_arbitration(pre, other, named)) by {
        assert forall|l: int| 0 <= l < other.len() && is_live(pre, #[trigger] other[l]) implies named[other[l].destination as int].is_some() by {
            let k = moves.index_of(other[l]);
            assert(moves[k] == other[l]);
        }
    }
    let upto = moves.len() as int;
    let upto_other = other.len() as int;
    assert forall|i: int| 0 <= i < pre.len() implies cell_after(pre, moves, winners, upto, i)
        == cell_after(pre, other, named, upto_other, i) by {
        if is_vacated(moves, winners, upto, i) {
            let k = choose|k: int|
                0 <= k < upto && (#[trigger] moves[k]).source == i && wins(moves, winners, k);
            let d = moves[k].destination as int;
            let l = named[d].unwrap() as int;
            assert(other[l] == moves[k]);
            assert(wins(other, named, l));
            assert(is_vacated(other, named, upto_other, i));
        }
        if is_vacated(other, named, upto_other, i) {
            let l = choose|l: int|
                0 <= l < upto_other && (#[trigger] other[l]).source == i && wins(other, named, l);
            let d = other[l].destination as int;
            let k = winners[d].unwrap() as int;
            assert(other[named[d].unwrap() as int] == moves[k]);
            assert(wins(moves, winners, k));
            assert(is_vacated(moves, winners, upto, i));
        }
    }
    assert(post =~= resolved(pre, other, named));
}

} // verus!
