//! Tile legality and the neighbours of a tile.

use crate::index::{flags_at, GameBoard};
use crate::types::{Battlesnake, Board, Coord, Direction, Flags};
use vstd::prelude::*;

verus! {

/// `s` is another snake, at least as long as `you`, whose head is within
/// distance one of `tile`.
pub open spec fn head_threat(s: &Battlesnake, tile: Coord, you: &Battlesnake) -> bool {
    s.id@ != you.id@ && tile.dist2(s.head) <= 1 && s.length >= you.length
}

/// Some snake threatens `tile` with its head.
pub open spec fn near_bigger_head(tile: Coord, snakes: Seq<Battlesnake>, you: &Battlesnake) -> bool {
    exists|i: int| 0 <= i < snakes.len() && head_threat(#[trigger] &snakes[i], tile, you)
}

/// `tile` is the tail of some snake that leaves it next turn.
pub open spec fn tail_leaving(tile: Coord, snakes: Seq<Battlesnake>) -> bool {
    exists|i: int| 0 <= i < snakes.len() && (#[trigger] snakes[i]).vacates(tile)
}

/// The legality rule: on the board; free of bodies, or a tail that
/// leaves; and, with `avoid_heads`, not threatened by a head.
pub open spec fn can_enter(
    tile: Coord,
    board: &Board,
    index: Map<Coord, Flags>,
    you: &Battlesnake,
    avoid_heads: bool,
) -> bool {
    &&& board.in_bounds(tile)
    &&& flags_at(index, tile).is_free_spec() || tail_leaving(tile, board.snakes@)
    &&& !(avoid_heads && near_bigger_head(tile, board.snakes@, you))
}

/// The tiles a search may step on: legal, and not among `planned`.
pub open spec fn enterable(
    board: &Board,
    index: Map<Coord, Flags>,
    you: &Battlesnake,
    avoid_heads: bool,
    planned: Seq<Coord>,
) -> spec_fn(Coord) -> bool {
    |c: Coord| can_enter(c, board, index, you, avoid_heads) && !planned.contains(c)
}

/// The tiles of the board.
pub open spec fn on_board(board: &Board) -> spec_fn(Coord) -> bool {
    |c: Coord| board.in_bounds(c)
}

/// The planned moves given, or none.
pub open spec fn planned_of(planned: Option<Vec<Coord>>) -> Seq<Coord> {
    match planned {
        Some(v) => v@,
        None => Seq::empty(),
    }
}

/// The neighbour of `tile` towards `d`, if it exists and `ok` holds of it.
pub open spec fn pick(tile: Coord, d: Direction, ok: spec_fn(Coord) -> bool) -> Seq<Coord> {
    match tile.shifted(d.dx(), d.dy()) {
        Some(c) => if ok(c) {
            seq![c]
        } else {
            seq![]
        },
        None => seq![],
    }
}

/// The neighbours of `tile` towards the first `n` directions of which
/// `ok` holds, in listing order.
pub open spec fn neighbors_upto(tile: Coord, ok: spec_fn(Coord) -> bool, n: int) -> Seq<Coord>
    decreases n,
{
    if n <= 0 {
        seq![]
    } else {
        neighbors_upto(tile, ok, n - 1) + pick(tile, Direction::all_spec()[n - 1], ok)
    }
}

/// The neighbours of `tile` of which `ok` holds, in listing order.
pub open spec fn neighbors_where(tile: Coord, ok: spec_fn(Coord) -> bool) -> Seq<Coord> {
    neighbors_upto(tile, ok, 4)
}

/// Membership in a prefix of the neighbour list.
pub proof fn lemma_neighbors_upto(tile: Coord, ok: spec_fn(Coord) -> bool, n: int)
    requires
        0 <= n <= 4,
    ensures
        neighbors_upto(tile, ok, n).len() <= n,
        neighbors_upto(tile, ok, n).no_duplicates(),
        forall|c: Coord| #[trigger]
            neighbors_upto(tile, ok, n).contains(c) <==> ok(c) && exists|k: int|
                0 <= k < n && tile.shifted(
                    Direction::all_spec()[k].dx(),
                    Direction::all_spec()[k].dy(),
                ) == Some(c),
    decreases n,
{
    if n > 0 {
        lemma_neighbors_upto(tile, ok, n - 1);
        let pre = neighbors_upto(tile, ok, n - 1);
        let d = Direction::all_spec()[n - 1];
        let p = pick(tile, d, ok);
        let all = neighbors_upto(tile, ok, n);
        assert(all == pre + p);
        assert forall|c: Coord| #[trigger]
            all.contains(c) <==> ok(c) && exists|k: int|
                0 <= k < n && tile.shifted(
                    Direction::all_spec()[k].dx(),
                    Direction::all_spec()[k].dy(),
                ) == Some(c) by {
            if all.contains(c) {
                let j = choose|j: int| 0 <= j < all.len() && all[j] == c;
                if j < pre.len() {
                    assert(pre[j] == c);
                    assert(pre.contains(c));
                } else {
                    assert(p[j - pre.len()] == c);
                    assert(tile.shifted(d.dx(), d.dy()) == Some(c));
                }
            }
            if ok(c) && exists|k: int|
                0 <= k < n && tile.shifted(
                    Direction::all_spec()[k].dx(),
                    Direction::all_spec()[k].dy(),
                ) == Some(c) {
                let k = choose|k: int|
                    0 <= k < n && tile.shifted(
                        Direction::all_spec()[k].dx(),
                        Direction::all_spec()[k].dy(),
                    ) == Some(c);
                if k < n - 1 {
                    assert(pre.contains(c));
                    let j = choose|j: int| 0 <= j < pre.len() && pre[j] == c;
                    assert(all[j] == c);
                } else {
                    assert(p == seq![c]);
                    assert(all[pre.len() as int] == c);
                }
            }
        }
        assert(all.no_duplicates()) by {
            assert forall|i: int, j: int| 0 <= i < all.len() && 0 <= j < all.len() && i != j implies all[i]
                != all[j] by {
                if i < pre.len() && j < pre.len() {
                } else if i >= pre.len() && j >= pre.len() {
                } else {
                    let lo = if i < j { i } else { j };
                    assert(pre[lo] == all[lo]);
                    assert(pre.contains(all[lo]));
                    let k = choose|k: int|
                        0 <= k < n - 1 && tile.shifted(
                            Direction::all_spec()[k].dx(),
                            Direction::all_spec()[k].dy(),
                        ) == Some(all[lo]);
                    assert(p[0] == all[pre.len() as int]);
                }
            }
        }
    }
}

/// The neighbour list holds exactly the tiles at unit distance of which
/// `ok` holds, each once, at most four.
pub proof fn lemma_neighbors_where(tile: Coord, ok: spec_fn(Coord) -> bool)
    ensures
        neighbors_where(tile, ok).len() <= 4,
        neighbors_where(tile, ok).no_duplicates(),
        forall|c: Coord| #[trigger]
            neighbors_where(tile, ok).contains(c) <==> ok(c) && tile.adjacent(c),
{
    lemma_neighbors_upto(tile, ok, 4);
    let all = neighbors_where(tile, ok);
    assert forall|c: Coord| #[trigger] all.contains(c) <==> ok(c) && tile.adjacent(c) by {
        let dirs = Direction::all_spec();
        if tile.adjacent(c) {
            lemma_unit_distance(tile, c);
            let k: int = if c.y == tile.y + 1 {
                0
            } else if c.x == tile.x + 1 {
                1
            } else if c.x == tile.x - 1 {
                2
            } else {
                3
            };
            assert(tile.shifted(dirs[k].dx(), dirs[k].dy()) == Some(c));
        }
        if all.contains(c) {
            let k = choose|k: int|
                0 <= k < 4 && tile.shifted(dirs[k].dx(), dirs[k].dy()) == Some(c);
            assert(dirs[0] == Direction::Up && dirs[1] == Direction::Right && dirs[2]
                == Direction::Left && dirs[3] == Direction::Down);
            let dx = tile.x - c.x;
            let dy = tile.y - c.y;
            assert((dx == 0 && (dy == 1 || dy == -1)) || (dy == 0 && (dx == 1 || dx == -1)));
            assert(dx * dx + dy * dy == 1) by (nonlinear_arith)
                requires
                    (dx == 0 && (dy == 1 || dy == -1)) || (dy == 0 && (dx == 1 || dx == -1)),
            ;
        }
    }
}

/// Two tiles at unit distance differ by one in exactly one coordinate.
pub proof fn lemma_unit_distance(a: Coord, b: Coord)
    requires
        a.adjacent(b),
    ensures
        (a.x == b.x && (a.y - b.y == 1 || b.y - a.y == 1)) || (a.y == b.y && (a.x - b.x == 1 || b.x
            - a.x == 1)),
{
    let dx = a.x - b.x;
    let dy = a.y - b.y;
    assert(dx * dx + dy * dy == 1 ==> (dx == 0 && (dy == 1 || dy == -1)) || (dy == 0 && (dx == 1
        || dx == -1))) by (nonlinear_arith);
}

/// Whether `v` holds `c`.
pub fn contains_coord(v: &Vec<Coord>, c: &Coord) -> (r: bool)
    ensures
        r == v@.contains(*c),
{
    let mut i: usize = 0;
    while i < v.len()
        invariant
            0 <= i <= v.len(),
            forall|j: int| 0 <= j < i ==> v@[j] != *c,
        decreases v.len() - i,
    {
        if v[i] == *c {
            return true;
        }
        i = i + 1;
    }
    false
}

/// The index of the first snake from `i` on with a body segment on
/// `tile`.
pub open spec fn owner_from(snakes: Seq<Battlesnake>, tile: Coord, i: int) -> Option<int>
    decreases snakes.len() - i,
{
    if i < 0 || i >= snakes.len() {
        None
    } else if snakes[i].body@.contains(tile) {
        Some(i)
    } else {
        owner_from(snakes, tile, i + 1)
    }
}

/// The first place from `i` on at which `body` holds `tile`.
pub open spec fn first_at(body: Seq<Coord>, tile: Coord, i: int) -> Option<int>
    decreases body.len() - i,
{
    if i < 0 || i >= body.len() {
        None
    } else if body[i] == tile {
        Some(i)
    } else {
        first_at(body, tile, i + 1)
    }
}

/// The first place at which `body` holds `tile`.
pub fn position_of(body: &Vec<Coord>, tile: &Coord) -> (r: Option<usize>)
    ensures
        r is None <==> first_at(body@, *tile, 0) is None,
        r matches Some(i) ==> first_at(body@, *tile, 0) == Some(i as int) && i < body@.len(),
{
    let mut i: usize = 0;
    while i < body.len()
        invariant
            0 <= i <= body.len(),
            first_at(body@, *tile, 0) == first_at(body@, *tile, i as int),
        decreases body.len() - i,
    {
        if body[i] == *tile {
            return Some(i);
        }
        i = i + 1;
    }
    None
}

/// The first snake, in the order of the snapshot, with a body segment on
/// `tile`.
pub fn get_snake_from_tile<'a>(tile: &Coord, snakes: &'a Vec<Battlesnake>) -> (r: Option<
    &'a Battlesnake,
>)
    ensures
        r is None <==> forall|i: int|
            0 <= i < snakes@.len() ==> !(#[trigger] snakes@[i]).body@.contains(*tile),
        r matches Some(s) ==> exists|i: int|
            0 <= i < snakes@.len() && *s == #[trigger] snakes@[i] && snakes@[i].body@.contains(
                *tile,
            ) && forall|j: int| 0 <= j < i ==> !(#[trigger] snakes@[j]).body@.contains(*tile),
        r is None <==> owner_from(snakes@, *tile, 0) is None,
        r matches Some(s) ==> owner_from(snakes@, *tile, 0) matches Some(i) && 0 <= i
            < snakes@.len() && *s == snakes@[i],
{
    let mut i: usize = 0;
    while i < snakes.len()
        invariant
            0 <= i <= snakes.len(),
            forall|j: int| 0 <= j < i ==> !(#[trigger] snakes@[j]).body@.contains(*tile),
            owner_from(snakes@, *tile, 0) == owner_from(snakes@, *tile, i as int),
        decreases snakes.len() - i,
    {
        if contains_coord(&snakes[i].body, tile) {
            assert(snakes@[i as int].body@.contains(*tile));
            return Some(&snakes[i]);
        }
        i = i + 1;
    }
    None
}

/// Whether the head of another snake, at least as long as `you`, is
/// within distance one of `tile`.
pub fn adj_to_bigger_snake(tile: &Coord, board: &Board, you: &Battlesnake) -> (r: bool)
    ensures
        r == near_bigger_head(*tile, board.snakes@, you),
{
    let mut i: usize = 0;
    while i < board.snakes.len()
        invariant
            0 <= i <= board.snakes.len(),
            forall|j: int| 0 <= j < i ==> !head_threat(#[trigger] &board.snakes@[j], *tile, you),
        decreases board.snakes.len() - i,
    {
        let snake = &board.snakes[i];
        if snake != you {
            if tile.distance_squared(&snake.head) <= 1 && snake.length >= you.length {
                assert(head_threat(&board.snakes@[i as int], *tile, you));
                return true;
            }
        }
        i = i + 1;
    }
    false
}

/// Whether `tile` is the tail of a snake that leaves it next turn.
pub fn can_move_on_tail(snakes: &Vec<Battlesnake>, tile: &Coord) -> (r: bool)
    ensures
        r == tail_leaving(*tile, snakes@),
{
    let mut i: usize = 0;
    while i < snakes.len()
        invariant
            0 <= i <= snakes.len(),
            forall|j: int| 0 <= j < i ==> !(#[trigger] snakes@[j]).vacates(*tile),
        decreases snakes.len() - i,
    {
        if snakes[i].tail_vacates(tile) {
            assert(snakes@[i as int].vacates(*tile));
            return true;
        }
        i = i + 1;
    }
    false
}

/// Whether `you` may occupy `tile` next. Without a choice, heads are
/// avoided.
pub fn can_move_board(
    tile: &Coord,
    board: &Board,
    game_board: &GameBoard,
    you: &Battlesnake,
    avoid_snake_heads_option: Option<bool>,
) -> (r: bool)
    ensures
        r == can_enter(*tile, board, game_board@, you, avoid_snake_heads_option.unwrap_or(true)),
        !board.in_bounds(*tile) ==> !r,
{
    let avoid_snake_heads = match avoid_snake_heads_option {
        Some(b) => b,
        None => true,
    };
    if !board.contains(tile) {
        return false;
    }
    let board_tile = game_board.get(tile);
    if board_tile.is_free() || can_move_on_tail(&board.snakes, tile) {
        if avoid_snake_heads && adj_to_bigger_snake(tile, board, you) {
            return false;
        }
        return true;
    }
    false
}

/// The tiles next to `tile` that `you` may occupy and that are not among
/// `planned`, in listing order.
pub fn adj_tiles_excluding(
    tile: &Coord,
    board: &Board,
    game_board: &GameBoard,
    you: &Battlesnake,
    avoid_snake_heads: bool,
    planned: &Vec<Coord>,
) -> (adj: Vec<Coord>)
    ensures
        adj@ == neighbors_where(
            *tile,
            enterable(board, game_board@, you, avoid_snake_heads, planned@),
        ),
{
    let ghost ok = enterable(board, game_board@, you, avoid_snake_heads, planned@);
    let dirs = Direction::all();
    let mut adj: Vec<Coord> = Vec::new();
    let mut i: usize = 0;
    while i < 4
        invariant
            0 <= i <= 4,
            dirs@ == Direction::all_spec(),
            adj@ == neighbors_upto(*tile, ok, i as int),
            ok == enterable(board, game_board@, you, avoid_snake_heads, planned@),
        decreases 4 - i,
    {
        let ghost before = adj@;
        match dirs[i].step(tile) {
            Some(new_point) => {
                if can_move_board(&new_point, board, game_board, you, Some(avoid_snake_heads))
                    && !contains_coord(planned, &new_point) {
                    adj.push(new_point);
                    assert(adj@ =~= before + seq![new_point]);
                } else {
                    assert(adj@ =~= before + Seq::<Coord>::empty());
                }
            },
            None => {
                assert(adj@ =~= before + Seq::<Coord>::empty());
            },
        }
        i = i + 1;
    }
    adj
}

/// The tiles next to `tile` that `you` may occupy and that are not among
/// the planned moves, in listing order. Without a choice, heads are
/// avoided and nothing is planned.
pub fn get_adj_tiles(
    tile: &Coord,
    board: &Board,
    game_board: &GameBoard,
    you: &Battlesnake,
    avoid_snake_heads_option: Option<bool>,
    current_planned_moves_option: Option<Vec<Coord>>,
) -> (adj: Vec<Coord>)
    ensures
        adj@ == neighbors_where(
            *tile,
            enterable(
                board,
                game_board@,
                you,
                avoid_snake_heads_option.unwrap_or(true),
                planned_of(current_planned_moves_option),
            ),
        ),
{
    let avoid_snake_heads = match avoid_snake_heads_option {
        Some(b) => b,
        None => true,
    };
    match current_planned_moves_option {
        Some(planned) => adj_tiles_excluding(
            tile,
            board,
            game_board,
            you,
            avoid_snake_heads,
            &planned,
        ),
        None => {
            let planned: Vec<Coord> = Vec::new();
            adj_tiles_excluding(tile, board, game_board, you, avoid_snake_heads, &planned)
        },
    }
}

/// The tiles next to `tile` that lie on the board, in listing order.
pub fn get_all_adj_tiles(tile: &Coord, board: &Board) -> (adj: Vec<Coord>)
    ensures
        adj@ == neighbors_where(*tile, on_board(board)),
{
    let ghost ok = on_board(board);
    let dirs = Direction::all();
    let mut adj: Vec<Coord> = Vec::new();
    let mut i: usize = 0;
    while i < 4
        invariant
            0 <= i <= 4,
            dirs@ == Direction::all_spec(),
            adj@ == neighbors_upto(*tile, ok, i as int),
            ok == on_board(board),
        decreases 4 - i,
    {
        let ghost before = adj@;
        match dirs[i].step(tile) {
            Some(new_point) => {
                if board.contains(&new_point) {
                    adj.push(new_point);
                    assert(adj@ =~= before + seq![new_point]);
                } else {
                    assert(adj@ =~= before + Seq::<Coord>::empty());
                }
            },
            None => {
                assert(adj@ =~= before + Seq::<Coord>::empty());
            },
        }
        i = i + 1;
    }
    adj
}

} // verus!
