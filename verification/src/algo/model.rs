//! The mathematical model of moves, paths and replayed move sequences.

use crate::algo::graph::Dir;
use crate::board::utils::{
    blank_index, coord_of, in_grid, index_of, is_board, lemma_blank_index, lemma_coord_of_index,
    lemma_index_of_coord, lemma_square_fits,
};
use vstd::prelude::*;

verus! {

/// One step of a path in the model: the direction taken and the board reached.
pub type Step = (Dir, Seq<i32>);

/// Unit vector by which the empty slot moves.
pub open spec fn offset(dir: Dir) -> (int, int) {
    match dir {
        Dir::N => (0, -1),
        Dir::E => (1, 0),
        Dir::S => (0, 1),
        Dir::W => (-1, 0),
        Dir::Stay => (0, 0),
    }
}

/// The board with the contents of cells `a` and `b` exchanged.
pub open spec fn swapped(board: Seq<i32>, a: int, b: int) -> Seq<i32> {
    board.update(a, board[b]).update(b, board[a])
}

/// Cell that the empty slot reaches when it moves in direction `dir`.
pub open spec fn destination(size: int, board: Seq<i32>, dir: Dir) -> (int, int) {
    let from = coord_of(size, blank_index(size, board));
    (from.0 + offset(dir).0, from.1 + offset(dir).1)
}

/// The empty slot can move in direction `dir` without leaving the grid.
pub open spec fn legal(size: int, board: Seq<i32>, dir: Dir) -> bool {
    in_grid(size, destination(size, board, dir).0, destination(size, board, dir).1)
}

/// The board after the empty slot has moved in direction `dir`.
pub open spec fn moved(size: int, board: Seq<i32>, dir: Dir) -> Seq<i32> {
    let to = destination(size, board, dir);
    swapped(board, blank_index(size, board), index_of(size, to.0, to.1))
}

/// The step in direction `dir`, if it is legal, as a sequence of at most one element.
pub open spec fn step_if_legal(size: int, board: Seq<i32>, dir: Dir) -> Seq<Step> {
    if legal(size, board, dir) {
        seq![(dir, moved(size, board, dir))]
    } else {
        Seq::empty()
    }
}

/// The legal steps among the first `count` of north, east, south, west, in that order.
pub open spec fn neighbors_upto(size: int, board: Seq<i32>, count: int) -> Seq<Step> {
    (if count > 0 {
        step_if_legal(size, board, Dir::N)
    } else {
        Seq::empty()
    }) + (if count > 1 {
        step_if_legal(size, board, Dir::E)
    } else {
        Seq::empty()
    }) + (if count > 2 {
        step_if_legal(size, board, Dir::S)
    } else {
        Seq::empty()
    }) + (if count > 3 {
        step_if_legal(size, board, Dir::W)
    } else {
        Seq::empty()
    })
}

/// The legal steps from `board`, in the order north, east, south, west.
pub open spec fn neighbors(size: int, board: Seq<i32>) -> Seq<Step> {
    step_if_legal(size, board, Dir::N) + step_if_legal(size, board, Dir::E) + step_if_legal(
        size,
        board,
        Dir::S,
    ) + step_if_legal(size, board, Dir::W)
}

/// The model of a vector of steps: each board by its view.
pub open spec fn steps_view(steps: Seq<(Dir, Vec<i32>)>) -> Seq<Step> {
    Seq::new(steps.len(), |i: int| (steps[i].0, steps[i].1@))
}

/// The model of a vector of boards: each board by its view.
pub open spec fn boards_view(boards: Seq<Vec<i32>>) -> Seq<Seq<i32>> {
    Seq::new(boards.len(), |i: int| boards[i]@)
}

/// The board reached from `board` by playing `dirs` in order.
pub open spec fn replay(size: int, board: Seq<i32>, dirs: Seq<Dir>) -> Seq<i32>
    decreases dirs.len(),
{
    if dirs.len() == 0 {
        board
    } else {
        moved(size, replay(size, board, dirs.drop_last()), dirs.last())
    }
}

/// Every move of `dirs` is legal on the board on which it is played.
pub open spec fn playable(size: int, board: Seq<i32>, dirs: Seq<Dir>) -> bool
    decreases dirs.len(),
{
    dirs.len() == 0 || (playable(size, board, dirs.drop_last()) && legal(
        size,
        replay(size, board, dirs.drop_last()),
        dirs.last(),
    ))
}

/// The boards passed while playing `dirs` from `board`, the first and the last included.
pub open spec fn history(size: int, board: Seq<i32>, dirs: Seq<Dir>) -> Seq<Seq<i32>> {
    Seq::new(dirs.len() + 1, |i: int| replay(size, board, dirs.take(i)))
}

/// Two cells are next to each other in a row or in a column.
pub open spec fn adjacent(size: int, a: int, b: int) -> bool {
    let ca = coord_of(size, a);
    let cb = coord_of(size, b);
    (ca.0 == cb.0 && (ca.1 - cb.1 == 1 || cb.1 - ca.1 == 1)) || (ca.1 == cb.1 && (ca.0 - cb.0 == 1
        || cb.0 - ca.0 == 1))
}

/// `next` is `board` after the empty slot has changed places with a cell
/// next to it: the two boards differ in exactly those two cells.
pub open spec fn single_slide(size: int, board: Seq<i32>, next: Seq<i32>) -> bool {
    exists|cell: int|
        {
            &&& 0 <= cell < board.len()
            &&& #[trigger] adjacent(size, blank_index(size, board), cell)
            &&& next.len() == board.len()
            &&& next[cell] == board[blank_index(size, board)]
            &&& next[blank_index(size, board)] == board[cell]
            &&& forall|k: int|
                0 <= k < board.len() ==> (next[k] != board[k] <==> (k == cell || k == blank_index(
                    size,
                    board,
                )))
        }
}

/// A legal move leads to a well-formed board whose empty slot is the
/// destination cell; a move other than `Stay` changes the board by one slide.
pub proof fn lemma_moved_is_board(size: int, board: Seq<i32>, dir: Dir)
    requires
        is_board(size, board),
        legal(size, board, dir),
    ensures
        is_board(size, moved(size, board, dir)),
        blank_index(size, moved(size, board, dir)) == index_of(
            size,
            destination(size, board, dir).0,
            destination(size, board, dir).1,
        ),
        dir == Dir::Stay ==> moved(size, board, dir) == board,
        dir != Dir::Stay ==> moved(size, board, dir) != board && single_slide(
            size,
            board,
            moved(size, board, dir),
        ),
{
    lemma_square_fits(size);
    lemma_blank_index(size, board);
    let from = blank_index(size, board);
    let to = destination(size, board, dir);
    let cell = index_of(size, to.0, to.1);
    let next = moved(size, board, dir);
    lemma_coord_of_index(size, from);
    lemma_index_of_coord(size, to.0, to.1);
    assert(next.len() == board.len());
    assert forall|i: int, j: int| 0 <= i < j < next.len() implies next[i] != next[j] by {
        let pi = if i == from { cell } else if i == cell { from } else { i };
        let pj = if j == from { cell } else if j == cell { from } else { j };
        assert(next[i] == board[pi]);
        assert(next[j] == board[pj]);
        if pi < pj {
            assert(board[pi] != board[pj]);
        } else {
            assert(board[pj] != board[pi]);
        }
    }
    assert(is_board(size, next));
    assert(next[cell] == size * size);
    lemma_blank_index(size, next);
    if dir == Dir::Stay {
        assert(cell == from);
        assert(next =~= board);
    } else {
        assert(cell != from);
        if from < cell {
            assert(board[from] != board[cell]);
        } else {
            assert(board[cell] != board[from]);
        }
        assert(next[from] != board[from]);
        assert(adjacent(size, from, cell));
    }
}

/// The steps that `neighbors` lists are the legal moves other than `Stay`,
/// each once.
pub proof fn lemma_neighbors_membership(size: int, board: Seq<i32>)
    ensures
        neighbors(size, board).len() <= 4,
        forall|i: int|
            0 <= i < neighbors(size, board).len() ==> {
                let step = #[trigger] neighbors(size, board)[i];
                step.0 != Dir::Stay && legal(size, board, step.0) && step.1 == moved(
                    size,
                    board,
                    step.0,
                )
            },
        forall|i: int, j: int|
            0 <= i < j < neighbors(size, board).len() ==> neighbors(size, board)[i].0 != neighbors(
                size,
                board,
            )[j].0,
        forall|dir: Dir|
            dir != Dir::Stay && legal(size, board, dir) ==> exists|i: int|
                0 <= i < neighbors(size, board).len() && #[trigger] neighbors(size, board)[i] == (
                    dir,
                    moved(size, board, dir),
                ),
{
    let n = step_if_legal(size, board, Dir::N);
    let e = step_if_legal(size, board, Dir::E);
    let s = step_if_legal(size, board, Dir::S);
    let w = step_if_legal(size, board, Dir::W);
    let all = neighbors(size, board);
    assert(all == n + e + s + w);
    assert forall|dir: Dir| dir != Dir::Stay && legal(size, board, dir) implies exists|i: int|
        0 <= i < all.len() && #[trigger] all[i] == (dir, moved(size, board, dir)) by {
        let i = match dir {
            Dir::N => 0,
            Dir::E => n.len() as int,
            Dir::S => (n.len() + e.len()) as int,
            _ => (n.len() + e.len() + s.len()) as int,
        };
        assert(all[i] == (dir, moved(size, board, dir)));
    }
}

/// What the move generator yields: at most four boards, no direction
/// twice, and each board one slide of the empty slot away from `board`.
pub proof fn lemma_neighbors_are_single_slides(size: int, board: Seq<i32>)
    requires
        is_board(size, board),
    ensures
        neighbors(size, board).len() <= 4,
        forall|i: int, j: int|
            0 <= i < j < neighbors(size, board).len() ==> neighbors(size, board)[i].0 != neighbors(
                size,
                board,
            )[j].0,
        forall|i: int|
            0 <= i < neighbors(size, board).len() ==> is_board(
                size,
                (#[trigger] neighbors(size, board)[i]).1,
            ) && single_slide(size, board, neighbors(size, board)[i].1),
{
    lemma_neighbors_membership(size, board);
    assert forall|i: int| 0 <= i < neighbors(size, board).len() implies is_board(
        size,
        (#[trigger] neighbors(size, board)[i]).1,
    ) && single_slide(size, board, neighbors(size, board)[i].1) by {
        lemma_moved_is_board(size, board, neighbors(size, board)[i].0);
    }
}

/// Playing a prefix of a playable sequence is playable and leads to a
/// well-formed board, from which the next move of the sequence is legal.
pub proof fn lemma_playable_prefix(size: int, board: Seq<i32>, dirs: Seq<Dir>, count: int)
    requires
        is_board(size, board),
        playable(size, board, dirs),
        0 <= count <= dirs.len(),
    ensures
        playable(size, board, dirs.take(count)),
        is_board(size, replay(size, board, dirs.take(count))),
        count < dirs.len() ==> legal(size, replay(size, board, dirs.take(count)), dirs[count])
            && replay(size, board, dirs.take(count + 1)) == moved(
            size,
            replay(size, board, dirs.take(count)),
            dirs[count],
        ),
    decreases dirs.len(),
{
    if dirs.len() == 0 {
        assert(dirs.take(count) =~= dirs);
    } else {
        let shorter = dirs.drop_last();
        if count == dirs.len() {
            assert(dirs.take(count) =~= dirs);
            lemma_playable_prefix(size, board, shorter, shorter.len() as int);
            assert(shorter.take(shorter.len() as int) =~= shorter);
            lemma_moved_is_board(size, replay(size, board, shorter), dirs.last());
        } else {
            assert(shorter.take(count) =~= dirs.take(count));
            lemma_playable_prefix(size, board, shorter, count);
            if count == shorter.len() {
                assert(dirs.take(count + 1) =~= dirs);
                assert(shorter.take(count) =~= shorter);
            } else {
                assert(shorter.take(count + 1) =~= dirs.take(count + 1));
            }
        }
    }
}

/// The history of a playable sequence starts at the board it is played
/// on, ends at the replayed board, and passes from each board to the next
/// by the move of that place in the sequence.
pub proof fn lemma_history_follows_moves(size: int, board: Seq<i32>, dirs: Seq<Dir>)
    requires
        is_board(size, board),
        playable(size, board, dirs),
    ensures
        history(size, board, dirs).len() == dirs.len() + 1,
        history(size, board, dirs).first() == board,
        history(size, board, dirs).last() == replay(size, board, dirs),
        forall|i: int|
            0 <= i < dirs.len() ==> legal(size, #[trigger] history(size, board, dirs)[i], dirs[i])
                && history(size, board, dirs)[i + 1] == moved(
                size,
                history(size, board, dirs)[i],
                dirs[i],
            ),
{
    assert(dirs.take(0) =~= Seq::<Dir>::empty());
    assert(dirs.take(dirs.len() as int) =~= dirs);
    assert forall|i: int| 0 <= i < dirs.len() implies legal(
        size,
        #[trigger] history(size, board, dirs)[i],
        dirs[i],
    ) && history(size, board, dirs)[i + 1] == moved(
        size,
        history(size, board, dirs)[i],
        dirs[i],
    ) by {
        lemma_playable_prefix(size, board, dirs, i);
    }
}

/// Board number `k` of the walk that starts on `from` and goes on along `ext`.
pub open spec fn node(from: Seq<i32>, ext: Seq<Step>, k: int) -> Seq<i32> {
    if k <= 0 {
        from
    } else {
        ext[k - 1].1
    }
}

/// No board occurs twice among the steps.
pub open spec fn distinct_boards(path: Seq<Step>) -> bool {
    forall|i: int, j: int| 0 <= i < j < path.len() ==> (#[trigger] path[i]).1 != (#[trigger] path[j]).1
}

/// Every step after the first is a legal move from the board before it.
pub open spec fn is_chain(size: int, path: Seq<Step>) -> bool {
    forall|i: int|
        0 < i < path.len() ==> legal(size, path[i - 1].1, (#[trigger] path[i]).0) && path[i].1
            == moved(size, path[i - 1].1, path[i].0)
}

/// Every step of `ext` is a legal move from the board before it, the first from `from`.
pub open spec fn continues(size: int, from: Seq<i32>, ext: Seq<Step>) -> bool {
    forall|k: int|
        0 <= k < ext.len() ==> legal(size, node(from, ext, k), (#[trigger] ext[k]).0) && ext[k].1
            == moved(size, node(from, ext, k), ext[k].0)
}

/// The directions of the steps.
pub open spec fn dirs_of(ext: Seq<Step>) -> Seq<Dir> {
    Seq::new(ext.len(), |i: int| ext[i].0)
}

/// The steps made by playing `dirs` from `board`: each direction with the board it leads to.
pub open spec fn trail(size: int, board: Seq<i32>, dirs: Seq<Dir>) -> Seq<Step> {
    Seq::new(dirs.len(), |k: int| (dirs[k], replay(size, board, dirs.take(k + 1))))
}

/// Steps that continue from a board are the trail of their directions,
/// which are playable from that board and lead to the last board of the steps.
pub proof fn lemma_continues_replays(size: int, from: Seq<i32>, ext: Seq<Step>)
    requires
        is_board(size, from),
        continues(size, from, ext),
    ensures
        playable(size, from, dirs_of(ext)),
        replay(size, from, dirs_of(ext)) == node(from, ext, ext.len() as int),
        trail(size, from, dirs_of(ext)) == ext,
    decreases ext.len(),
{
    let dirs = dirs_of(ext);
    if ext.len() > 0 {
        let shorter = ext.drop_last();
        assert forall|k: int| 0 <= k < shorter.len() implies legal(
            size,
            node(from, shorter, k),
            (#[trigger] shorter[k]).0,
        ) && shorter[k].1 == moved(size, node(from, shorter, k), shorter[k].0) by {
            assert(shorter[k] == ext[k]);
            assert(node(from, shorter, k) == node(from, ext, k));
        }
        lemma_continues_replays(size, from, shorter);
        assert(dirs.drop_last() =~= dirs_of(shorter));
        let k = ext.len() - 1;
        assert(node(from, ext, k) == node(from, shorter, shorter.len() as int));
        assert(ext[k].1 == moved(size, node(from, ext, k), ext[k].0));
        assert(dirs.last() == ext[k].0);
        assert forall|i: int| 0 <= i < ext.len() implies trail(size, from, dirs)[i] == ext[i] by {
            if i < k {
                assert(dirs.take(i + 1) =~= dirs_of(shorter).take(i + 1));
                assert(trail(size, from, dirs_of(shorter))[i] == shorter[i]);
            } else {
                assert(dirs.take(i + 1) =~= dirs);
            }
        }
        assert(trail(size, from, dirs) =~= ext);
    } else {
        assert(trail(size, from, dirs) =~= ext);
    }
}

/// Steps that continue from the end of other steps continue them.
pub proof fn lemma_continues_concat(size: int, from: Seq<i32>, first: Seq<Step>, then: Seq<Step>)
    requires
        continues(size, from, first),
        continues(size, node(from, first, first.len() as int), then),
    ensures
        continues(size, from, first + then),
        node(from, first + then, (first + then).len() as int) == node(
            node(from, first, first.len() as int),
            then,
            then.len() as int,
        ),
{
    let whole = first + then;
    let mid = node(from, first, first.len() as int);
    assert forall|k: int| 0 <= k < whole.len() implies legal(
        size,
        node(from, whole, k),
        (#[trigger] whole[k]).0,
    ) && whole[k].1 == moved(size, node(from, whole, k), whole[k].0) by {
        if k < first.len() {
            assert(whole[k] == first[k]);
            assert(node(from, whole, k) == node(from, first, k));
        } else {
            assert(whole[k] == then[k - first.len()]);
            assert(node(from, whole, k) == node(mid, then, k - first.len()));
        }
    }
}

/// A chain continues from its first board.
pub proof fn lemma_chain_continues(size: int, path: Seq<Step>)
    requires
        path.len() > 0,
        is_chain(size, path),
    ensures
        continues(size, path[0].1, path.drop_first()),
        node(path[0].1, path.drop_first(), path.len() - 1) == path.last().1,
{
    let rest = path.drop_first();
    assert forall|k: int| 0 <= k < rest.len() implies legal(
        size,
        node(path[0].1, rest, k),
        (#[trigger] rest[k]).0,
    ) && rest[k].1 == moved(size, node(path[0].1, rest, k), rest[k].0) by {
        assert(rest[k] == path[k + 1]);
        if k > 0 {
            assert(rest[k - 1] == path[k]);
        }
    }
    if rest.len() > 0 {
        assert(rest[rest.len() - 1] == path[path.len() - 1]);
    }
}

} // verus!
