//! Estimates of the number of moves that separate a board from the target.

use crate::board::utils::{
    coord_of, fstod, is_board, lemma_coord_of_index, lemma_every_label_present, lemma_square_fits,
};
use vstd::prelude::*;

verus! {

/// An estimate of the remaining cost. The search asks nothing of it but
/// that it is a function of its arguments and never negative.
pub trait Heuristic {
    /// The estimate for `board` on the way to `target`.
    spec fn cost(&self, size: int, board: Seq<i32>, target: Seq<i32>) -> nat;

    /// Computes the estimate.
    fn estimate(&self, size: i32, board: &Vec<i32>, target: &Vec<i32>) -> (h: i32)
        requires
            is_board(size as int, board@),
            is_board(size as int, target@),
        ensures
            h == self.cost(size as int, board@, target@),
    ;
}

/// Index of the cell of `board` that holds `label`.
pub open spec fn position_of(board: Seq<i32>, label: int) -> int {
    choose|i: int| 0 <= i < board.len() && board[i] == label
}

/// Distance between two integers.
pub open spec fn gap(a: int, b: int) -> nat {
    if a <= b {
        (b - a) as nat
    } else {
        (a - b) as nat
    }
}

/// Number of rows plus number of columns between the tile in `cell` of
/// `board` and the cell that holds the same tile in `target`; zero for the
/// empty slot.
pub open spec fn tile_distance(size: int, board: Seq<i32>, target: Seq<i32>, cell: int) -> nat {
    if board[cell] == size * size {
        0
    } else {
        let here = coord_of(size, cell);
        let there = coord_of(size, position_of(target, board[cell] as int));
        gap(here.0, there.0) + gap(here.1, there.1)
    }
}

/// Sum of the tile distances over the first `cells` cells.
pub open spec fn distance_sum(size: int, board: Seq<i32>, target: Seq<i32>, cells: int) -> nat
    decreases cells,
{
    if cells <= 0 {
        0
    } else {
        distance_sum(size, board, target, cells - 1) + tile_distance(
            size,
            board,
            target,
            cells - 1,
        )
    }
}

/// Sum over all tiles of the rows and columns that separate the tile from
/// its place in `target`.
pub open spec fn manhattan(size: int, board: Seq<i32>, target: Seq<i32>) -> nat {
    distance_sum(size, board, target, board.len() as int)
}


/// No tile is further from its place than two sides of the grid.
pub proof fn lemma_tile_distance_bound(size: int, board: Seq<i32>, target: Seq<i32>, cell: int)
    requires
        is_board(size, board),
        is_board(size, target),
        0 <= cell < board.len(),
    ensures
        tile_distance(size, board, target, cell) <= 2 * (size - 1),
{
    if board[cell] != size * size {
        lemma_every_label_present(size, target, board[cell] as int);
        lemma_coord_of_index(size, cell);
        lemma_coord_of_index(size, position_of(target, board[cell] as int));
    }
}



/// The sum of tile distances, cut off at the largest `i32`.
pub struct Manhattan;

impl Heuristic for Manhattan {
    open spec fn cost(&self, size: int, board: Seq<i32>, target: Seq<i32>) -> nat {
        if manhattan(size, board, target) <= i32::MAX {
            manhattan(size, board, target)
        } else {
            i32::MAX as nat
        }
    }

    fn estimate(&self, size: i32, board: &Vec<i32>, target: &Vec<i32>) -> (h: i32) {
        proof {
            lemma_square_fits(size as int);
        }
        let cells: usize = board.len();
        let blank: i32 = size * size;
        let mut places: Vec<i32> = Vec::new();
        let mut k: usize = 0;
        while k <= cells
            invariant
                0 <= k <= cells + 1,
                cells <= i32::MAX,
                places.len() == k,
            decreases cells + 1 - k,
        {
            places.push(0);
            k += 1;
        }
        let mut j: usize = 0;
        while j < cells
            invariant
                0 <= j <= cells,
                cells == target.len(),
                cells == size * size,
                cells <= i32::MAX,
                is_board(size as int, target@),
                places.len() == cells + 1,
                forall|l: int| 0 <= l < j ==> #[trigger] places[target[l] as int] == l,
            decreases cells - j,
        {
            let ghost before = places@;
            places.set(target[j] as usize, j as i32);
            proof {
                assert forall|l: int| 0 <= l < j + 1 implies #[trigger] places[target[l] as int]
                    == l by {
                    if l < j {
                        assert(target[l] != target[j as int]);
                        assert(before[target[l] as int] == l);
                    }
                }
            }
            j += 1;
        }
        let mut total: i64 = 0;
        let mut i: usize = 0;
        while i < cells
            invariant
                0 <= i <= cells,
                cells == board.len(),
                cells == size * size,
                cells <= i32::MAX,
                blank == size * size,
                is_board(size as int, board@),
                is_board(size as int, target@),
                places.len() == cells + 1,
                forall|l: int| 0 <= l < cells ==> #[trigger] places[target[l] as int] == l,
                total == distance_sum(size as int, board@, target@, i as int),
                0 <= total <= i * 2 * (size - 1),
            decreases cells - i,
        {
            let label: i32 = board[i];
            proof {
                lemma_tile_distance_bound(size as int, board@, target@, i as int);
                assert((i + 1) * 2 * (size - 1) == i * 2 * (size - 1) + 2 * (size - 1))
                    by (nonlinear_arith);
                assert(i * 2 * (size - 1) <= 0x7fff_ffff * 2 * 46340) by (nonlinear_arith)
                    requires
                        0 <= i <= 0x7fff_ffff,
                        2 <= size <= 46340,
                ;
            }
            if label != blank {
                proof {
                    lemma_every_label_present(size as int, target@, label as int);
                    let there = position_of(target@, label as int);
                    assert(places[target[there] as int] == there);
                }
                let here: (i32, i32) = fstod(i as i32, size);
                let there: (i32, i32) = fstod(places[label as usize], size);
                let dx: i32 = if here.0 <= there.0 {
                    there.0 - here.0
                } else {
                    here.0 - there.0
                };
                let dy: i32 = if here.1 <= there.1 {
                    there.1 - here.1
                } else {
                    here.1 - there.1
                };
                total = total + dx as i64 + dy as i64;
            }
            i += 1;
        }
        if total > i32::MAX as i64 {
            i32::MAX
        } else {
            total as i32
        }
    }
}

/// The estimate that is always zero: the search then deepens by the
/// number of moves alone.
pub struct Uninformed;

impl Heuristic for Uninformed {
    open spec fn cost(&self, size: int, board: Seq<i32>, target: Seq<i32>) -> nat {
        0
    }

    fn estimate(&self, size: i32, board: &Vec<i32>, target: &Vec<i32>) -> (h: i32) {
        0
    }
}

} // verus!
