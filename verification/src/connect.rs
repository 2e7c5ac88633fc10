//! Connectivity: how much of the board's free space a tile is joined to.

use crate::index::{key_of, lemma_key_roundtrip, tile_key, GameBoard};
use crate::logic::enterable;
use crate::reach::{
    coords_of, flood_inv, flood_step, grid, lemma_coords_of, lemma_flood_done, lemma_flood_partial,
    lemma_grid, lemma_reach_bounded, lemma_reach_mono, reach_set,
};
use vstd::set_lib::lemma_set_difference_len;
use crate::types::{Battlesnake, Board, Coord, Flags, Ratio};
use std::collections::{HashSet, VecDeque};
use vstd::prelude::*;
use vstd::set_lib::lemma_len_subset;

verus! {

broadcast use vstd::std_specs::hash::group_hash_axioms;

/// The tiles that hold a body or a hazard, each once.
pub open spec fn occupied(board: &Board) -> Set<Coord> {
    Set::new(|c: Coord| board.body_on(c) || board.hazards@.contains(c))
}

/// The board's tiles less the occupied ones.
pub open spec fn free_count(board: &Board) -> int {
    board.area() - occupied(board).len()
}

/// Number of tiles that a fill from `tile` marks, the excluded ones
/// barred.
pub open spec fn reach_count(
    tile: Coord,
    board: &Board,
    index: Map<Coord, Flags>,
    you: &Battlesnake,
    excluded: Seq<Coord>,
) -> nat {
    reach_set(tile, enterable(board, index, you, true, excluded)).len()
}

/// The free tiles that a fill from `tile` marks: those that hold
/// neither a body nor a hazard.
pub open spec fn free_reach(
    tile: Coord,
    board: &Board,
    index: Map<Coord, Flags>,
    you: &Battlesnake,
    excluded: Seq<Coord>,
) -> Set<Coord> {
    reach_set(tile, enterable(board, index, you, true, excluded)).difference(occupied(board))
}

/// The part of the free tiles that a fill from `tile` marks; zero on a
/// board without free tiles.
pub open spec fn connectivity(
    tile: Coord,
    board: &Board,
    index: Map<Coord, Flags>,
    you: &Battlesnake,
    excluded: Seq<Coord>,
) -> Ratio {
    if free_count(board) <= 0 {
        Ratio { num: 0, den: 1 }
    } else {
        Ratio {
            num: free_reach(tile, board, index, you, excluded).len() as u32,
            den: free_count(board) as u32,
        }
    }
}

/// On a well-formed board the occupied tiles are tiles of the board.
pub proof fn lemma_occupied_bounded(board: &Board)
    requires
        board.wf(),
    ensures
        occupied(board).finite(),
        occupied(board).len() <= board.area(),
        board.area() <= 65025,
{
    lemma_grid(board);
    assert forall|c: Coord| occupied(board).contains(c) implies grid(board).contains(c) by {
        if board.body_on(c) {
            let i = choose|i: int|
                0 <= i < board.snakes@.len() && (#[trigger] board.snakes@[i]).body@.contains(c);
            let j = choose|j: int|
                0 <= j < board.snakes@[i].body@.len() && board.snakes@[i].body@[j] == c;
            assert(board.in_bounds(board.snakes@[i].body@[j]));
        } else {
            let j = choose|j: int| 0 <= j < board.hazards@.len() && board.hazards@[j] == c;
            assert(board.in_bounds(board.hazards@[j]));
        }
    }
    lemma_len_subset(occupied(board), grid(board));
    assert(board.width * board.height <= 65025) by (nonlinear_arith)
        requires
            0 <= board.width <= 255,
            0 <= board.height <= 255,
    ;
}

/// Adds the keys of `points` to `set`.
fn insert_all(set: &mut HashSet<u32>, points: &Vec<Coord>)
    requires
        old(set)@.finite(),
    ensures
        final(set)@.finite(),
        forall|c: Coord|
            #[trigger] final(set)@.contains(key_of(c)) == (old(set)@.contains(key_of(c))
                || points@.contains(c)),
{
    let mut i: usize = 0;
    while i < points.len()
        invariant
            0 <= i <= points.len(),
            set@.finite(),
            forall|c: Coord|
                #[trigger] set@.contains(key_of(c)) == (old(set)@.contains(key_of(c)) || exists|
                    j: int,
                | 0 <= j < i && points@[j] == c),
        decreases points.len() - i,
    {
        let ghost before = set@;
        let k = tile_key(&points[i]);
        set.insert(k);
        proof {
            assert forall|c: Coord|
                #[trigger] set@.contains(key_of(c)) == (old(set)@.contains(key_of(c)) || exists|
                    j: int,
                | 0 <= j < i + 1 && points@[j] == c) by {
                lemma_key_roundtrip(c);
                lemma_key_roundtrip(points@[i as int]);
                if before.contains(key_of(c)) && !old(set)@.contains(key_of(c)) {
                    let j = choose|j: int| 0 <= j < i && points@[j] == c;
                    assert(0 <= j < i + 1 && points@[j] == c);
                }
                if exists|j: int| 0 <= j < i + 1 && points@[j] == c {
                    let j = choose|j: int| 0 <= j < i + 1 && points@[j] == c;
                    if j < i {
                        assert(before.contains(key_of(c)));
                    }
                }
            }
        }
        i = i + 1;
    }
}

/// The keys of the tiles that hold a body or a hazard.
pub fn occupied_tiles(board: &Board) -> (occupied_tiles: HashSet<u32>)
    ensures
        occupied_tiles@.finite(),
        coords_of(occupied_tiles@) == occupied(board),
{
    let mut occupied_tiles: HashSet<u32> = HashSet::new();
    let mut i: usize = 0;
    while i < board.snakes.len()
        invariant
            0 <= i <= board.snakes.len(),
            occupied_tiles@.finite(),
            forall|c: Coord|
                #[trigger] occupied_tiles@.contains(key_of(c)) == board.body_among(i as int, c),
        decreases board.snakes.len() - i,
    {
        let ghost before = occupied_tiles@;
        insert_all(&mut occupied_tiles, &board.snakes[i].body);
        proof {
            assert forall|c: Coord|
                #[trigger] occupied_tiles@.contains(key_of(c)) == board.body_among(i + 1, c) by {
                assert(before.contains(key_of(c)) == board.body_among(i as int, c));
                if board.body_among(i + 1, c) {
                    let j = choose|j: int|
                        0 <= j < i + 1 && j < board.snakes@.len() && (
                        #[trigger] board.snakes@[j]).body@.contains(c);
                    if j < i {
                        assert(board.body_among(i as int, c));
                    }
                }
                if board.body_among(i as int, c) {
                    let j = choose|j: int|
                        0 <= j < i && j < board.snakes@.len() && (
                        #[trigger] board.snakes@[j]).body@.contains(c);
                    assert(board.snakes@[j].body@.contains(c));
                }
                if board.snakes@[i as int].body@.contains(c) {
                    assert(board.body_among(i + 1, c));
                }
            }
        }
        i = i + 1;
    }
    let ghost bodies = occupied_tiles@;
    insert_all(&mut occupied_tiles, &board.hazards);
    proof {
        assert forall|c: Coord| coords_of(occupied_tiles@).contains(c) == occupied(board).contains(
            c,
        ) by {
            assert(bodies.contains(key_of(c)) == board.body_among(board.snakes@.len() as int, c));
            if board.body_on(c) {
                let j = choose|j: int|
                    0 <= j < board.snakes@.len() && (#[trigger] board.snakes@[j]).body@.contains(c);
                assert(board.snakes@[j].body@.contains(c));
                assert(board.body_among(board.snakes@.len() as int, c));
            }
            if board.body_among(board.snakes@.len() as int, c) {
                let j = choose|j: int|
                    0 <= j < board.snakes@.len() && j < board.snakes@.len() && (
                    #[trigger] board.snakes@[j]).body@.contains(c);
                assert(board.snakes@[j].body@.contains(c));
            }
        }
        assert(coords_of(occupied_tiles@) =~= occupied(board));
    }
    occupied_tiles
}

/// The board's area less the number of occupied tiles given.
fn free_among(board: &Board, occupied_tiles: &HashSet<u32>) -> (n: u16)
    requires
        board.wf(),
        occupied_tiles@.finite(),
        coords_of(occupied_tiles@) == occupied(board),
    ensures
        n == free_count(board),
{
    proof {
        lemma_coords_of(occupied_tiles@);
        lemma_occupied_bounded(board);
        assert(board.height * board.width == board.width * board.height) by (nonlinear_arith);
    }
    let area: u16 = (board.height as u16) * (board.width as u16);
    area - (occupied_tiles.len() as u16)
}

/// Number of free tiles of the board: its area less the tiles that hold
/// a body or a hazard, a tile with several of them counted once.
pub fn num_free_tiles(board: &Board) -> (n: u16)
    requires
        board.wf(),
    ensures
        n == free_count(board),
{
    let occupied_tiles = occupied_tiles(board);
    free_among(board, &occupied_tiles)
}

/// Runs the fill from `start`. Returns the number of tiles marked, and
/// the number of those that are not among `occupied`.
fn fill_from(
    board: &Board,
    game_board: &GameBoard,
    you: &Battlesnake,
    start: &Coord,
    exclude_tiles: &Vec<Coord>,
    occupied: &HashSet<u32>,
) -> (n: (u32, u32))
    ensures
        n.0 == reach_count(*start, board, game_board@, you, exclude_tiles@),
        n.0 <= board.area(),
        n.1 == reach_set(
            *start,
            enterable(board, game_board@, you, true, exclude_tiles@),
        ).difference(coords_of(occupied@)).len(),
{
    let ghost ok = enterable(board, game_board@, you, true, exclude_tiles@);
    let mut frontier: VecDeque<Coord> = VecDeque::new();
    frontier.push_back(*start);
    let mut visited: HashSet<u32> = HashSet::new();
    let mut free_marked: u32 = 0;
    assert(frontier@[0] == *start);
    assert(flood_inv(*start, ok, frontier@, visited@)) by {
        assert(frontier@.contains(*start));
    }
    assert(visited@.difference(occupied@) =~= Set::<u32>::empty());
    while frontier.len() > 0
        invariant
            ok == enterable(board, game_board@, you, true, exclude_tiles@),
            flood_inv(*start, ok, frontier@, visited@),
            free_marked == visited@.difference(occupied@).len(),
        decreases board.area() - visited@.len() + frontier@.len(),
    {
        proof {
            lemma_flood_partial(*start, ok, frontier@, visited@, board);
        }
        let ghost v0 = visited@;
        flood_step(
            board,
            game_board,
            you,
            &mut frontier,
            &mut visited,
            exclude_tiles,
            occupied,
            &mut free_marked,
            Ghost(*start),
        );
        proof {
            lemma_flood_partial(*start, ok, frontier@, visited@, board);
            lemma_len_subset(v0, visited@);
        }
    }
    proof {
        assert(frontier@ =~= Seq::<Coord>::empty());
        lemma_flood_done(*start, ok, visited@);
        lemma_reach_bounded(*start, ok, board);
        assert(board.width * board.height <= 65025) by (nonlinear_arith)
            requires
                0 <= board.width <= 255,
                0 <= board.height <= 255,
        ;
        let d = visited@.difference(occupied@);
        assert(coords_of(d) =~= reach_set(*start, ok).difference(coords_of(occupied@)));
        lemma_coords_of(d);
    }
    (visited.len() as u32, free_marked)
}

/// Number of tiles joined to `start`: those that a breadth-first fill
/// over legal tiles marks, the excluded ones barred.
pub fn num_connected_tiles(
    board: &Board,
    game_board: &GameBoard,
    you: &Battlesnake,
    start: &Coord,
    exclude_tiles: &Vec<Coord>,
) -> (n: u32)
    ensures
        n == reach_count(*start, board, game_board@, you, exclude_tiles@),
        n <= board.area(),
{
    let none: HashSet<u32> = HashSet::new();
    fill_from(board, game_board, you, start, exclude_tiles, &none).0
}

/// On a well-formed board the free tiles that a fill marks are no more
/// than the board has free tiles.
pub proof fn lemma_free_reach_bounded(
    tile: Coord,
    board: &Board,
    index: Map<Coord, Flags>,
    you: &Battlesnake,
    excluded: Seq<Coord>,
)
    requires
        board.wf(),
    ensures
        free_reach(tile, board, index, you, excluded).finite(),
        free_reach(tile, board, index, you, excluded).len() <= free_count(board),
        free_count(board) <= 65025,
{
    let ok = enterable(board, index, you, true, excluded);
    let reached = reach_set(tile, ok);
    let taken = occupied(board);
    let all = grid(board);
    lemma_reach_bounded(tile, ok, board);
    lemma_occupied_bounded(board);
    lemma_grid(board);
    assert forall|c: Coord| reached.contains(c) implies all.contains(c) by {
        let p = choose|p: Seq<Coord>|
            #[trigger] crate::reach::is_walk(p, ok) && p[0] == tile && p.last() == c;
        assert(ok(p[p.len() - 1]));
    }
    assert forall|c: Coord| taken.contains(c) implies all.contains(c) by {
        if board.body_on(c) {
            let i = choose|i: int|
                0 <= i < board.snakes@.len() && (#[trigger] board.snakes@[i]).body@.contains(c);
            let j = choose|j: int|
                0 <= j < board.snakes@[i].body@.len() && board.snakes@[i].body@[j] == c;
            assert(board.in_bounds(board.snakes@[i].body@[j]));
        } else {
            let j = choose|j: int| 0 <= j < board.hazards@.len() && board.hazards@[j] == c;
            assert(board.in_bounds(board.hazards@[j]));
        }
    }
    assert(reached.difference(taken).subset_of(all.difference(taken)));
    lemma_len_subset(reached.difference(taken), all.difference(taken));
    lemma_set_difference_len(all, taken);
    assert(all.intersect(taken) =~= taken);
}

/// The part of the board's free tiles that is joined to `tile`: of the
/// tiles that the fill marks, those that hold neither a body nor a
/// hazard, over all such tiles of the board. It is never above one.
pub fn percent_connected(
    tile: &Coord,
    board: &Board,
    game_board: &GameBoard,
    you: &Battlesnake,
    exclude_tiles: &Vec<Coord>,
) -> (r: Ratio)
    requires
        board.wf(),
    ensures
        r == connectivity(*tile, board, game_board@, you, exclude_tiles@),
        r.num <= r.den,
        r.den > 0,
{
    let occupied_tiles = occupied_tiles(board);
    let free_tiles = free_among(board, &occupied_tiles);
    let connected_tiles = fill_from(board, game_board, you, tile, exclude_tiles, &occupied_tiles).1;
    proof {
        lemma_free_reach_bounded(*tile, board, game_board@, you, exclude_tiles@);
    }
    if free_tiles == 0 {
        Ratio::new(0, 1)
    } else {
        Ratio::new(connected_tiles, free_tiles as u32)
    }
}

/// Excluding more tiles never raises the connectivity of a tile.
pub proof fn lemma_percent_connected_monotone(
    tile: Coord,
    board: &Board,
    index: Map<Coord, Flags>,
    you: &Battlesnake,
    fewer: Seq<Coord>,
    more: Seq<Coord>,
)
    requires
        forall|c: Coord| fewer.contains(c) ==> more.contains(c),
    ensures
        reach_count(tile, board, index, you, more) <= reach_count(tile, board, index, you, fewer),
        free_reach(tile, board, index, you, more).len() <= free_reach(
            tile,
            board,
            index,
            you,
            fewer,
        ).len(),
        connectivity(tile, board, index, you, fewer).at_least_spec(
            connectivity(tile, board, index, you, more),
        ),
{
    let ok_more = enterable(board, index, you, true, more);
    let ok_fewer = enterable(board, index, you, true, fewer);
    lemma_reach_mono(tile, ok_more, ok_fewer);
    lemma_reach_bounded(tile, ok_fewer, board);
    lemma_reach_bounded(tile, ok_more, board);
    lemma_len_subset(reach_set(tile, ok_more), reach_set(tile, ok_fewer));
    let taken = occupied(board);
    assert(reach_set(tile, ok_more).difference(taken).subset_of(
        reach_set(tile, ok_fewer).difference(taken),
    ));
    lemma_len_subset(
        reach_set(tile, ok_more).difference(taken),
        reach_set(tile, ok_fewer).difference(taken),
    );
    lemma_len_subset(reach_set(tile, ok_fewer).difference(taken), reach_set(tile, ok_fewer));
    let a = free_reach(tile, board, index, you, fewer).len();
    let b = free_reach(tile, board, index, you, more).len();
    let d = free_count(board);
    assert(board.width * board.height <= 65025) by (nonlinear_arith)
        requires
            0 <= board.width <= 255,
            0 <= board.height <= 255,
    ;
    if d > 0 {
        assert(d <= 65025);
        assert(a * d >= b * d) by (nonlinear_arith)
            requires
                a >= b,
                d > 0,
        ;
    }
}

} // verus!
