//! What holds of tile legality on the index built from the snapshot.

use crate::index::flags_at;
use crate::logic::{can_enter, head_threat, near_bigger_head, tail_leaving};
use crate::types::{Battlesnake, Board, Coord, Flags};
use vstd::prelude::*;

verus! {

/// A tile under a body segment that is not a tail is never enterable,
/// unless some snake's tail leaves the same tile.
pub proof fn lemma_body_blocks(
    tile: Coord,
    board: &Board,
    you: &Battlesnake,
    avoid_heads: bool,
    i: int,
    j: int,
)
    requires
        0 <= i < board.snakes@.len(),
        0 <= j < board.snakes@[i].body@.len() - 1,
        board.snakes@[i].body@[j] == tile,
        !tail_leaving(tile, board.snakes@),
    ensures
        !can_enter(tile, board, board.index(), you, avoid_heads),
{
    assert(board.snakes@[i].body@.contains(tile));
    assert(board.body_on(tile));
    assert(board.index().contains_key(tile));
}

/// A tile under the tail of one snake, and of no other snake that leaves
/// it, is enterable exactly where that snake's health is below 100;
/// given that the tile is on the board and no head vetoes it.
pub proof fn lemma_tail_enterable(
    tile: Coord,
    board: &Board,
    you: &Battlesnake,
    avoid_heads: bool,
    i: int,
)
    requires
        0 <= i < board.snakes@.len(),
        board.snakes@[i].body@.len() > 0,
        board.snakes@[i].body@.last() == tile,
        board.in_bounds(tile),
        !(avoid_heads && near_bigger_head(tile, board.snakes@, you)),
        forall|k: int|
            0 <= k < board.snakes@.len() && k != i ==> !(#[trigger] board.snakes@[k]).vacates(tile),
    ensures
        can_enter(tile, board, board.index(), you, avoid_heads) == (board.snakes@[i].health < 100),
{
    let body = board.snakes@[i].body@;
    assert(body[body.len() - 1] == tile);
    assert(board.snakes@[i].body@.contains(tile));
    assert(board.body_on(tile));
    assert(board.index().contains_key(tile));
    if board.snakes@[i].health < 100 {
        assert(board.snakes@[i].vacates(tile));
    }
}

/// A tile within distance one of the head of another snake that is at
/// least as long is illegal when heads are avoided, and as legal as it
/// is otherwise when they are not.
pub proof fn lemma_head_veto(
    tile: Coord,
    board: &Board,
    index: Map<Coord, Flags>,
    you: &Battlesnake,
    i: int,
)
    requires
        0 <= i < board.snakes@.len(),
        head_threat(&board.snakes@[i], tile, you),
    ensures
        !can_enter(tile, board, index, you, true),
        can_enter(tile, board, index, you, false) == (board.in_bounds(tile) && (flags_at(
            index,
            tile,
        ).is_free_spec() || tail_leaving(tile, board.snakes@))),
{
}

/// Off the board nothing is enterable.
pub proof fn lemma_off_board(
    tile: Coord,
    board: &Board,
    index: Map<Coord, Flags>,
    you: &Battlesnake,
    avoid_heads: bool,
)
    requires
        !board.in_bounds(tile),
    ensures
        !can_enter(tile, board, index, you, avoid_heads),
{
}

} // verus!
