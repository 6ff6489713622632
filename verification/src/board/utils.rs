//! Coordinates, linear indices and the validity of a board.

use vstd::prelude::*;
use vstd::set_lib::{lemma_int_range, lemma_len_subset, lemma_subset_equality, set_int_range};

verus! {

/// Largest side length whose square still fits in an `i32`.
pub const MAX_SIZE: i32 = 46340;

/// A side length the solver accepts.
pub open spec fn valid_size(size: int) -> bool {
    2 <= size <= MAX_SIZE
}

/// The cell `(x, y)` lies on a grid of side `size`.
pub open spec fn in_grid(size: int, x: int, y: int) -> bool {
    0 <= x < size && 0 <= y < size
}

/// Row-major index of the cell `(x, y)`.
pub open spec fn index_of(size: int, x: int, y: int) -> int {
    y * size + x
}

/// Column and row of the cell with the given row-major index.
pub open spec fn coord_of(size: int, index: int) -> (int, int) {
    (index % size, index / size)
}

/// A well-formed board: `size * size` cells holding each label of
/// `1..=size * size` exactly once.
pub open spec fn is_board(size: int, board: Seq<i32>) -> bool {
    &&& valid_size(size)
    &&& board.len() == size * size
    &&& forall|i: int| 0 <= i < board.len() ==> 1 <= #[trigger] board[i] <= size * size
    &&& forall|i: int, j: int| 0 <= i < j < board.len() ==> board[i] != board[j]
}

/// Index of the cell that holds the empty slot.
pub open spec fn blank_index(size: int, board: Seq<i32>) -> int {
    choose|i: int| 0 <= i < board.len() && board[i] == size * size
}

/// The square of a valid side length fits in an `i32`, and is at least 4.
pub proof fn lemma_square_fits(size: int)
    requires
        valid_size(size),
    ensures
        4 <= size * size <= i32::MAX,
{
    assert(4 <= size * size <= 46340 * 46340) by (nonlinear_arith)
        requires
            2 <= size <= 46340,
    ;
}

/// Every cell of the grid has an index below `size * size`, and the index
/// determines the cell.
pub proof fn lemma_index_of_coord(size: int, x: int, y: int)
    requires
        0 < size,
        in_grid(size, x, y),
    ensures
        0 <= index_of(size, x, y) < size * size,
        coord_of(size, index_of(size, x, y)) == (x, y),
{
    assert(0 <= y * size + x < size * size && (y * size + x) % size == x && (y * size + x) / size
        == y) by (nonlinear_arith)
        requires
            0 < size,
            0 <= x < size,
            0 <= y < size,
    ;
}

/// Every index below `size * size` names a cell of the grid, and the cell
/// determines the index.
pub proof fn lemma_coord_of_index(size: int, index: int)
    requires
        0 < size,
        0 <= index < size * size,
    ensures
        in_grid(size, coord_of(size, index).0, coord_of(size, index).1),
        index_of(size, coord_of(size, index).0, coord_of(size, index).1) == index,
{
    assert(0 <= index % size < size && 0 <= index / size < size && (index / size) * size + index
        % size == index) by (nonlinear_arith)
        requires
            0 < size,
            0 <= index < size * size,
    ;
}

/// Converting an index to a coordinate, back to an index and to a
/// coordinate again gives the first coordinate.
pub proof fn lemma_coord_round_trip(size: int, index: int)
    requires
        0 < size,
        0 <= index < size * size,
    ensures
        ({
            let c = coord_of(size, index);
            coord_of(size, index_of(size, c.0, c.1)) == c
        }),
{
    lemma_coord_of_index(size, index);
}

/// Row-major index of the cell `(x, y)`.
pub fn fdtos(x: i32, y: i32, size: i32) -> (index: i32)
    requires
        valid_size(size as int),
        in_grid(size as int, x as int, y as int),
    ensures
        index == index_of(size as int, x as int, y as int),
        0 <= index < size * size,
{
    proof {
        lemma_square_fits(size as int);
        lemma_index_of_coord(size as int, x as int, y as int);
        assert(0 <= y * size <= size * size) by (nonlinear_arith)
            requires
                0 <= y < size,
        ;
    }
    y * size + x
}

/// Column and row of the cell with the given row-major index.
pub fn fstod(index: i32, size: i32) -> (coord: (i32, i32))
    requires
        valid_size(size as int),
        0 <= index < size * size,
    ensures
        (coord.0 as int, coord.1 as int) == coord_of(size as int, index as int),
        in_grid(size as int, coord.0 as int, coord.1 as int),
{
    proof {
        lemma_coord_of_index(size as int, index as int);
    }
    (index % size, index / size)
}

/// Every label of `1..=size * size` sits in some cell of a board.
pub proof fn lemma_every_label_present(size: int, board: Seq<i32>, label: int)
    requires
        is_board(size, board),
        1 <= label <= size * size,
    ensures
        exists|i: int| 0 <= i < board.len() && board[i] == label,
{
    let labels = board.map_values(|v: i32| v as int);
    assert(labels.no_duplicates());
    labels.unique_seq_to_set();
    let held = labels.to_set();
    let all = set_int_range(1, size * size + 1);
    lemma_int_range(1, size * size + 1);
    assert(held.subset_of(all)) by {
        assert forall|v: int| held.contains(v) implies all.contains(v) by {
            let i = choose|i: int| 0 <= i < labels.len() && labels[i] == v;
            assert(labels[i] == board[i]);
        }
    }
    lemma_len_subset(held, all);
    lemma_subset_equality(held, all);
    assert(all.contains(label));
    assert(held.contains(label));
    let i = choose|i: int| 0 <= i < labels.len() && labels[i] == label;
    assert(board[i] == label);
}

/// The empty slot of a board exists and is the only cell with its label.
pub proof fn lemma_blank_index(size: int, board: Seq<i32>)
    requires
        is_board(size, board),
    ensures
        0 <= blank_index(size, board) < board.len(),
        board[blank_index(size, board)] == size * size,
        forall|i: int|
            0 <= i < board.len() && board[i] == size * size ==> i == blank_index(size, board),
{
    lemma_square_fits(size);
    lemma_every_label_present(size, board, size * size);
}

/// Index of the cell that holds the empty slot.
pub fn slot_pos(size: i32, state: &Vec<i32>) -> (pos: usize)
    requires
        is_board(size as int, state@),
    ensures
        pos == blank_index(size as int, state@),
        pos < state.len(),
        state[pos as int] == size * size,
{
    proof {
        lemma_square_fits(size as int);
        lemma_blank_index(size as int, state@);
    }
    let blank: i32 = size * size;
    let ghost at = blank_index(size as int, state@);
    let mut i: usize = 0;
    while state[i] != blank
        invariant
            0 <= i <= at < state.len(),
            state@[at] == blank,
        decreases at - i,
    {
        i += 1;
    }
    i
}

/// Decides whether `board` is a well-formed board of side `size`.
pub fn check_board(size: i32, board: &Vec<i32>) -> (ok: bool)
    ensures
        ok == is_board(size as int, board@),
{
    if size < 2 || size > MAX_SIZE {
        return false;
    }
    proof {
        lemma_square_fits(size as int);
    }
    let cells: i32 = size * size;
    if board.len() != cells as usize {
        return false;
    }
    let mut seen: Vec<bool> = Vec::new();
    let mut k: usize = 0;
    while k <= cells as usize
        invariant
            0 <= k <= cells + 1,
            0 < cells,
            seen.len() == k,
            forall|v: int| 0 <= v < k ==> !seen[v],
        decreases cells + 1 - k,
    {
        seen.push(false);
        k += 1;
    }
    let mut i: usize = 0;
    while i < board.len()
        invariant
            0 <= i <= board.len(),
            board.len() == cells,
            cells == size * size,
            valid_size(size as int),
            seen.len() == cells + 1,
            forall|j: int| 0 <= j < i ==> 1 <= #[trigger] board[j] <= cells,
            forall|j: int, l: int| 0 <= j < l < i ==> board[j] != board[l],
            forall|v: int|
                1 <= v <= cells ==> (#[trigger] seen[v] <==> exists|j: int|
                    0 <= j < i && board[j] == v),
        decreases board.len() - i,
    {
        let label: i32 = board[i];
        if label < 1 || label > cells {
            return false;
        }
        if seen[label as usize] {
            proof {
                let j = choose|j: int| 0 <= j < i && board[j] == label;
                assert(board@[j] == board@[i as int]);
            }
            return false;
        }
        seen.set(label as usize, true);
        i += 1;
    }
    true
}

} // verus!
