//! Entrapment: whether the snake is boxed in, and which body segment
//! around it is the best way out.

use crate::connect::{free_count, num_free_tiles, reach_count};
use crate::index::{flags_at, key_of, lemma_key_roundtrip, tile_key, GameBoard};
use crate::logic::{
    enterable, first_at, get_all_adj_tiles, get_snake_from_tile,
    lemma_neighbors_where, neighbors_where, on_board, owner_from, position_of,
};
use crate::reach::{
    coords_of, flood_inv, flood_step, grid, lemma_coords_of, lemma_flood_done, lemma_flood_partial,
    lemma_grid, lemma_reach_closed, lemma_reach_step, reach_set, reaches,
};
use crate::types::{Battlesnake, Board, Coord, Flags, Ratio};
use std::collections::{HashSet, VecDeque};
use vstd::prelude::*;
use vstd::set_lib::lemma_len_subset;

verus! {

broadcast use vstd::std_specs::hash::group_hash_axioms;

/// The snake is confined: the tiles that a fill from its head marks are
/// no more than the part `box_threshold` of the free tiles.
pub open spec fn boxed_in(
    you: &Battlesnake,
    board: &Board,
    index: Map<Coord, Flags>,
    box_threshold: Ratio,
) -> bool {
    reach_count(you.head, board, index, you, Seq::<Coord>::empty()) * box_threshold.den
        <= box_threshold.num * free_count(board)
}

/// Runs the fill from the state given. Returns `false` as soon as the
/// marked tiles exceed the threshold, `true` when the fill ends within
/// it.
pub fn inside_box_logic(
    you: &Battlesnake,
    board: &Board,
    game_board: &GameBoard,
    frontier: &mut VecDeque<Coord>,
    visited: &mut HashSet<u32>,
    num_free_tiles: u16,
    box_threshold: Ratio,
) -> (r: bool)
    requires
        num_free_tiles == free_count(board),
        old(frontier)@ == seq![you.head],
        old(visited)@ == Set::<u32>::empty(),
    ensures
        r == boxed_in(you, board, game_board@, box_threshold),
{
    let ghost ok = enterable(board, game_board@, you, true, Seq::<Coord>::empty());
    let nothing: Vec<Coord> = Vec::new();
    let none_occupied: HashSet<u32> = HashSet::new();
    let mut marked_free: u32 = 0;
    assert(visited@.difference(none_occupied@) =~= Set::<u32>::empty());
    assert(box_threshold.num * num_free_tiles <= 0xffff_ffff * 0xffff) by (nonlinear_arith)
        requires
            0 <= box_threshold.num <= 0xffff_ffff,
            0 <= num_free_tiles <= 0xffff,
    ;
    let limit: u64 = (box_threshold.num as u64) * (num_free_tiles as u64);
    assert(frontier@[0] == you.head);
    while frontier.len() > 0
        invariant
            ok == enterable(board, game_board@, you, true, Seq::<Coord>::empty()),
            nothing@ == Seq::<Coord>::empty(),
            flood_inv(you.head, ok, frontier@, visited@),
            limit == box_threshold.num * free_count(board),
            num_free_tiles == free_count(board),
            frontier@.len() > 0 || visited@.len() * box_threshold.den <= limit,
            marked_free == visited@.difference(none_occupied@).len(),
        decreases board.area() - visited@.len() + frontier@.len(),
    {
        proof {
            lemma_flood_partial(you.head, ok, frontier@, visited@, board);
        }
        let ghost v0 = visited@;
        flood_step(
            board,
            game_board,
            you,
            frontier,
            visited,
            &nothing,
            &none_occupied,
            &mut marked_free,
            Ghost(you.head),
        );
        proof {
            lemma_flood_partial(you.head, ok, frontier@, visited@, board);
            lemma_len_subset(v0, visited@);
            assert(board.width * board.height <= 65025) by (nonlinear_arith)
                requires
                    0 <= board.width <= 255,
                    0 <= board.height <= 255,
            ;
            assert(visited@.len() * box_threshold.den <= 65025 * 0xffff_ffff) by (nonlinear_arith)
                requires
                    visited@.len() <= 65025,
                    box_threshold.den <= 0xffff_ffff,
            ;
        }
        let marked: u64 = (visited.len() as u64) * (box_threshold.den as u64);
        if marked > limit {
            proof {
                let n = reach_count(you.head, board, game_board@, you, Seq::<Coord>::empty());
                assert(visited@.len() * box_threshold.den <= n * box_threshold.den)
                    by (nonlinear_arith)
                    requires
                        visited@.len() <= n,
                        box_threshold.den >= 0,
                ;
            }
            return false;
        }
    }
    proof {
        assert(frontier@ =~= Seq::<Coord>::empty());
        lemma_flood_done(you.head, ok, visited@);
    }
    true
}

/// Whether the snake is confined to a region of no more than the part
/// `box_threshold` of the board's free tiles.
pub fn inside_box(
    you: &Battlesnake,
    board: &Board,
    game_board: &GameBoard,
    box_threshold: Ratio,
) -> (r: bool)
    requires
        board.wf(),
    ensures
        r == boxed_in(you, board, game_board@, box_threshold),
{
    let mut frontier: VecDeque<Coord> = VecDeque::new();
    frontier.push_back(you.head);
    let mut visited: HashSet<u32> = HashSet::new();
    let num_free_tiles = num_free_tiles(board);
    assert(frontier@ =~= seq![you.head]);
    inside_box_logic(
        you,
        board,
        game_board,
        &mut frontier,
        &mut visited,
        num_free_tiles,
        box_threshold,
    )
}


/// The tiles that the search for blocking tiles walks over: on the
/// board, and free of bodies.
pub open spec fn open_tile(board: &Board, index: Map<Coord, Flags>) -> spec_fn(Coord) -> bool {
    |c: Coord| board.in_bounds(c) && flags_at(index, c).is_free_spec()
}

/// The search passes over `u`: no body stands on it, and it is a start
/// tile or is reached from a start tile free of bodies over tiles of
/// the board free of bodies.
pub open spec fn passed(starts: Seq<Coord>, u: Coord, board: &Board, index: Map<Coord, Flags>) -> bool {
    flags_at(index, u).is_free_spec() && (starts.contains(u) || exists|i: int|
        0 <= i < starts.len() && flags_at(index, #[trigger] starts[i]).is_free_spec() && reaches(
            starts[i],
            u,
            open_tile(board, index),
        ))
}

/// The search meets `t`: a start tile, or a tile of the board next to a
/// tile that it passes over.
pub open spec fn touched(starts: Seq<Coord>, t: Coord, board: &Board, index: Map<Coord, Flags>) -> bool {
    starts.contains(t) || (board.in_bounds(t) && exists|u: Coord|
        passed(starts, u, board, index) && #[trigger] u.adjacent(t))
}

/// A blocking tile: a body segment that the search meets.
pub open spec fn blocking(starts: Seq<Coord>, t: Coord, board: &Board, index: Map<Coord, Flags>) -> bool {
    flags_at(index, t).snake && touched(starts, t, board, index)
}

proof fn lemma_passed(starts: Seq<Coord>, u: Coord, c: Coord, board: &Board, index: Map<Coord, Flags>)
    requires
        passed(starts, u, board, index),
        u.adjacent(c),
        board.in_bounds(c),
        flags_at(index, c).is_free_spec(),
    ensures
        passed(starts, c, board, index),
{
    let ok = open_tile(board, index);
    assert(ok(c));
    if starts.contains(u) {
        let i = choose|i: int| 0 <= i < starts.len() && starts[i] == u;
        lemma_reach_step(starts[i], u, c, ok);
        assert(flags_at(index, starts[i]).is_free_spec() && reaches(starts[i], c, ok));
    } else {
        let i = choose|i: int|
            0 <= i < starts.len() && flags_at(index, #[trigger] starts[i]).is_free_spec() && reaches(
                starts[i],
                u,
                ok,
            );
        lemma_reach_step(starts[i], u, c, ok);
        assert(flags_at(index, starts[i]).is_free_spec() && reaches(starts[i], c, ok));
    }
}

/// The tiles of `tiles` that are not marked, in their order.
pub open spec fn unmarked(tiles: Seq<Coord>, visited: Set<u32>) -> Seq<Coord>
    decreases tiles.len(),
{
    if tiles.len() == 0 {
        tiles
    } else if visited.contains(key_of(tiles.last())) {
        unmarked(tiles.drop_last(), visited)
    } else {
        unmarked(tiles.drop_last(), visited).push(tiles.last())
    }
}

/// The marks after each tile of `tiles` was marked.
pub open spec fn mark_all(visited: Set<u32>, tiles: Seq<Coord>) -> Set<u32>
    decreases tiles.len(),
{
    if tiles.len() == 0 {
        visited
    } else {
        mark_all(visited, tiles.drop_last()).insert(key_of(tiles.last()))
    }
}

/// The blocking tiles in the order in which the search meets them.
///
/// The first tile of the queue is taken. A body segment is a blocking
/// tile. From any other tile the neighbours on the board that are not
/// marked are marked and queued, in listing order.
#[verifier::opaque]
pub open spec fn blocking_trace(
    board: &Board,
    index: Map<Coord, Flags>,
    frontier: Seq<Coord>,
    visited: Set<u32>,
    fuel: nat,
) -> Seq<Coord>
    decreases fuel,
{
    if fuel == 0 || frontier.len() == 0 {
        seq![]
    } else {
        let current = frontier[0];
        let rest = frontier.subrange(1, frontier.len() as int);
        if !flags_at(index, current).is_free_spec() {
            seq![current] + blocking_trace(board, index, rest, visited, (fuel - 1) as nat)
        } else {
            let fresh = unmarked(neighbors_where(current, on_board(board)), visited);
            blocking_trace(
                board,
                index,
                rest + fresh,
                mark_all(visited, fresh),
                (fuel - 1) as nat,
            )
        }
    }
}

/// The first of the tiles that leave soonest.
pub open spec fn soonest(tiles: Seq<Coord>, snakes: Seq<Battlesnake>) -> Option<Coord>
    decreases tiles.len(),
{
    if tiles.len() == 0 {
        None
    } else {
        match soonest(tiles.drop_last(), snakes) {
            None => Some(tiles.last()),
            Some(best) => if vacate_rank(snakes, tiles.last()) < vacate_rank(snakes, best) {
                Some(tiles.last())
            } else {
                Some(best)
            },
        }
    }
}

proof fn lemma_fresh(tiles: Seq<Coord>, visited: Set<u32>, n: int)
    requires
        0 <= n < tiles.len(),
        tiles.no_duplicates(),
    ensures
        mark_all(visited, unmarked(tiles.take(n), visited)).contains(key_of(tiles[n]))
            == visited.contains(key_of(tiles[n])),
{
    lemma_marked(visited, unmarked(tiles.take(n), visited), key_of(tiles[n]));
    lemma_unmarked(tiles.take(n), visited);
    let u = unmarked(tiles.take(n), visited);
    if exists|i: int| 0 <= i < u.len() && key_of(u[i]) == key_of(tiles[n]) {
        let i = choose|i: int| 0 <= i < u.len() && key_of(u[i]) == key_of(tiles[n]);
        lemma_key_roundtrip(u[i]);
        lemma_key_roundtrip(tiles[n]);
        assert(u.contains(u[i]));
        assert(tiles.take(n).contains(tiles[n]));
        let j = choose|j: int| 0 <= j < n && tiles.take(n)[j] == tiles[n];
        assert(tiles[j] == tiles[n]);
    }
}

proof fn lemma_marked(visited: Set<u32>, tiles: Seq<Coord>, k: u32)
    ensures
        mark_all(visited, tiles).contains(k) == (visited.contains(k) || exists|i: int|
            0 <= i < tiles.len() && key_of(tiles[i]) == k),
    decreases tiles.len(),
{
    if tiles.len() > 0 {
        let pre = tiles.drop_last();
        lemma_marked(visited, pre, k);
        if exists|i: int| 0 <= i < pre.len() && key_of(pre[i]) == k {
            let i = choose|i: int| 0 <= i < pre.len() && key_of(pre[i]) == k;
            assert(key_of(tiles[i]) == k);
        }
        if exists|i: int| 0 <= i < tiles.len() && key_of(tiles[i]) == k {
            let i = choose|i: int| 0 <= i < tiles.len() && key_of(tiles[i]) == k;
            if i < pre.len() {
                assert(key_of(pre[i]) == k);
            }
        }
    }
}

proof fn lemma_unmarked(tiles: Seq<Coord>, visited: Set<u32>)
    ensures
        forall|c: Coord| #[trigger] unmarked(tiles, visited).contains(c) ==> tiles.contains(c),
    decreases tiles.len(),
{
    if tiles.len() > 0 {
        let pre = tiles.drop_last();
        lemma_unmarked(pre, visited);
        let u = unmarked(tiles, visited);
        assert forall|c: Coord| #[trigger] u.contains(c) implies tiles.contains(c) by {
            let i = choose|i: int| 0 <= i < u.len() && u[i] == c;
            if visited.contains(key_of(tiles.last())) || i < unmarked(pre, visited).len() {
                assert(unmarked(pre, visited)[i] == c);
                assert(unmarked(pre, visited).contains(c));
                let j = choose|j: int| 0 <= j < pre.len() && pre[j] == c;
                assert(tiles[j] == c);
            } else {
                assert(tiles[tiles.len() - 1] == c);
            }
        }
    }
}

/// The state of the search for blocking tiles.
pub open spec fn blocking_inv(
    starts: Seq<Coord>,
    board: &Board,
    index: Map<Coord, Flags>,
    frontier: Seq<Coord>,
    visited: Set<u32>,
    found: Seq<Coord>,
) -> bool {
    &&& visited.finite()
    &&& frontier.len() <= starts.len() + visited.len()
    &&& forall|c: Coord| #[trigger]
        visited.contains(key_of(c)) ==> board.in_bounds(c) && touched(starts, c, board, index)
    &&& forall|i: int|
        0 <= i < frontier.len() ==> starts.contains(#[trigger] frontier[i]) || visited.contains(
            key_of(frontier[i]),
        )
    &&& forall|u: Coord, d: Coord|
        (starts.contains(u) || visited.contains(key_of(u))) && !frontier.contains(u) && flags_at(
            index,
            u,
        ).is_free_spec() && #[trigger] u.adjacent(d) && board.in_bounds(d) ==> visited.contains(
            key_of(d),
        )
    &&& forall|t: Coord| #[trigger]
        found.contains(t) ==> flags_at(index, t).snake && (starts.contains(t) || visited.contains(
            key_of(t),
        ))
    &&& forall|t: Coord|
        (starts.contains(t) || visited.contains(key_of(t))) && !frontier.contains(t) && flags_at(
            index,
            t,
        ).snake ==> #[trigger] found.contains(t)
}

proof fn lemma_blocking_done(
    starts: Seq<Coord>,
    board: &Board,
    index: Map<Coord, Flags>,
    visited: Set<u32>,
    found: Seq<Coord>,
)
    requires
        blocking_inv(starts, board, index, Seq::<Coord>::empty(), visited, found),
    ensures
        forall|t: Coord| #[trigger] found.contains(t) <==> blocking(starts, t, board, index),
{
    let ok = open_tile(board, index);
    let none = Seq::<Coord>::empty();
    let s = Set::new(|c: Coord| visited.contains(key_of(c)) && flags_at(index, c).is_free_spec());
    assert forall|t: Coord| blocking(starts, t, board, index) implies #[trigger] found.contains(
        t,
    ) by {
        assert(!none.contains(t));
        if !starts.contains(t) {
            let u = choose|u: Coord| passed(starts, u, board, index) && #[trigger] u.adjacent(t);
            assert(!none.contains(u));
            if !starts.contains(u) {
                let i = choose|i: int|
                    0 <= i < starts.len() && flags_at(index, #[trigger] starts[i]).is_free_spec()
                        && reaches(starts[i], u, ok);
                assert(starts.contains(starts[i]));
                assert forall|c: Coord, d: Coord|
                    (c == starts[i] || s.contains(c)) && #[trigger] c.adjacent(d) && ok(
                        d,
                    ) implies s.contains(d) by {
                    assert(!none.contains(c));
                }
                lemma_reach_closed(starts[i], ok, s);
                assert(reach_set(starts[i], ok).contains(u));
                assert(s.contains(u));
            }
            assert(visited.contains(key_of(t)));
        }
    }
}

/// One step of the search: takes the first tile of the queue; a body
/// segment is noted as blocking, from any other tile the search goes on
/// to the neighbours on the board that it has not marked.
fn blocking_step(
    board: &Board,
    game_board: &GameBoard,
    frontier: &mut VecDeque<Coord>,
    visited: &mut HashSet<u32>,
    blocking_tiles: &mut Vec<Coord>,
    Ghost(starts): Ghost<Seq<Coord>>,
)
    requires
        old(frontier)@.len() > 0,
        blocking_inv(
            starts,
            board,
            game_board@,
            old(frontier)@,
            old(visited)@,
            old(blocking_tiles)@,
        ),
    ensures
        blocking_inv(
            starts,
            board,
            game_board@,
            final(frontier)@,
            final(visited)@,
            final(blocking_tiles)@,
        ),
        2 * final(visited)@.len() - final(frontier)@.len() > 2 * old(visited)@.len() - old(
            frontier,
        )@.len(),
        old(visited)@.subset_of(final(visited)@),
        forall|fuel: nat|
            fuel > 0 ==> old(blocking_tiles)@ + #[trigger] blocking_trace(
                board,
                game_board@,
                old(frontier)@,
                old(visited)@,
                fuel,
            ) == final(blocking_tiles)@ + blocking_trace(
                board,
                game_board@,
                final(frontier)@,
                final(visited)@,
                (fuel - 1) as nat,
            ),
{
    let ghost index = game_board@;
    let ghost f0 = frontier@;
    let ghost v0 = visited@;
    let ghost b0 = blocking_tiles@;
    let current_tile = frontier.pop_front().unwrap();
    let ghost rest = frontier@;
    proof {
        assert(f0[0] == current_tile);
        assert forall|c: Coord| f0.contains(c) && c != current_tile implies rest.contains(c) by {
            let n = choose|n: int| 0 <= n < f0.len() && f0[n] == c;
            assert(rest[n - 1] == c);
        }
        assert forall|c: Coord| rest.contains(c) implies f0.contains(c) by {
            let n = choose|n: int| 0 <= n < rest.len() && rest[n] == c;
            assert(f0[n + 1] == c);
        }
    }
    assert(rest =~= f0.subrange(1, f0.len() as int));
    if !game_board.get(&current_tile).is_free() {
        blocking_tiles.push(current_tile);
        proof {
            reveal(blocking_trace);
            assert forall|fuel: nat| fuel > 0 implies b0 + #[trigger] blocking_trace(
                board,
                index,
                f0,
                v0,
                fuel,
            ) == blocking_tiles@ + blocking_trace(board, index, rest, v0, (fuel - 1) as nat) by {
                let tail = blocking_trace(board, index, rest, v0, (fuel - 1) as nat);
                assert(b0 + (seq![current_tile] + tail) =~= blocking_tiles@ + tail);
            }
            assert(blocking_tiles@[b0.len() as int] == current_tile);
            assert forall|t: Coord| #[trigger] blocking_tiles@.contains(t) implies flags_at(
                index,
                t,
            ).snake && (starts.contains(t) || visited@.contains(key_of(t))) by {
                let n = choose|n: int| 0 <= n < blocking_tiles@.len() && blocking_tiles@[n] == t;
                if n < b0.len() {
                    assert(b0[n] == t);
                    assert(b0.contains(t));
                }
            }
            assert forall|t: Coord|
                (starts.contains(t) || visited@.contains(key_of(t))) && !frontier@.contains(t)
                    && flags_at(index, t).snake implies #[trigger] blocking_tiles@.contains(t) by {
                if t != current_tile {
                    assert(b0.contains(t));
                    let n = choose|n: int| 0 <= n < b0.len() && b0[n] == t;
                    assert(blocking_tiles@[n] == t);
                }
            }
        }
    } else {
        let adj = get_all_adj_tiles(&current_tile, board);
        let ghost inb = on_board(board);
        proof {
            lemma_neighbors_where(current_tile, inb);
            assert(passed(starts, current_tile, board, index)) by {
                if !starts.contains(current_tile) {
                    assert(visited@.contains(key_of(current_tile)));
                    let u = choose|u: Coord|
                        passed(starts, u, board, index) && #[trigger] u.adjacent(current_tile);
                    lemma_passed(starts, u, current_tile, board, index);
                }
            }
        }
        assert(adj@.take(0) =~= Seq::<Coord>::empty());
        assert(frontier@ =~= rest + unmarked(adj@.take(0), v0));
        let mut i: usize = 0;
        while i < adj.len()
            invariant
                0 <= i <= adj.len(),
                index == game_board@,
                adj@.no_duplicates(),
                frontier@ == rest + unmarked(adj@.take(i as int), v0),
                visited@ == mark_all(v0, unmarked(adj@.take(i as int), v0)),
                forall|c: Coord| #[trigger] adj@.contains(c) <==> inb(c) && current_tile.adjacent(c),
                inb == on_board(board),
                passed(starts, current_tile, board, index),
                visited@.finite(),
                v0.finite(),
                v0.subset_of(visited@),
                frontier@.len() >= rest.len(),
                frontier@.subrange(0, rest.len() as int) == rest,
                visited@.len() - frontier@.len() == v0.len() - rest.len(),
                forall|c: Coord| #[trigger]
                    visited@.contains(key_of(c)) ==> board.in_bounds(c) && touched(
                        starts,
                        c,
                        board,
                        index,
                    ),
                forall|k: int|
                    0 <= k < frontier@.len() ==> starts.contains(#[trigger] frontier@[k])
                        || visited@.contains(key_of(frontier@[k])),
                forall|j: int| 0 <= j < i ==> visited@.contains(key_of(#[trigger] adj@[j])),
                forall|c: Coord| #[trigger]
                    visited@.contains(key_of(c)) && !v0.contains(key_of(c)) ==> frontier@.contains(
                        c,
                    ),
            decreases adj.len() - i,
        {
            let a = adj[i];
            let k = tile_key(&a);
            assert(adj@.contains(a));
            proof {
                lemma_fresh(adj@, v0, i as int);
                let t = adj@.take(i + 1);
                assert(t.drop_last() =~= adj@.take(i as int));
                assert(t.last() == a);
            }
            if !visited.contains(&k) {
                let ghost vb = visited@;
                let ghost fb = frontier@;
                visited.insert(k);
                frontier.push_back(a);
                proof {
                    let u = unmarked(adj@.take(i as int), v0);
                    assert(!v0.contains(key_of(a)));
                    assert(unmarked(adj@.take(i + 1), v0) == u.push(a));
                    assert(u.push(a).drop_last() =~= u);
                    assert(visited@ =~= mark_all(v0, u.push(a)));
                    assert(frontier@ =~= rest + unmarked(adj@.take(i + 1), v0));
                    assert(frontier@.subrange(0, rest.len() as int) =~= fb.subrange(
                        0,
                        rest.len() as int,
                    ));
                    assert forall|c: Coord| #[trigger]
                        visited@.contains(key_of(c)) implies board.in_bounds(c) && touched(
                        starts,
                        c,
                        board,
                        index,
                    ) by {
                        if !vb.contains(key_of(c)) {
                            lemma_key_roundtrip(c);
                            lemma_key_roundtrip(a);
                            assert(inb(a));
                        }
                    }
                    assert forall|c: Coord| #[trigger]
                        visited@.contains(key_of(c)) && !v0.contains(
                            key_of(c),
                        ) implies frontier@.contains(c) by {
                        if vb.contains(key_of(c)) {
                            let n = choose|n: int| 0 <= n < fb.len() && fb[n] == c;
                            assert(frontier@[n] == c);
                        } else {
                            lemma_key_roundtrip(c);
                            lemma_key_roundtrip(a);
                            assert(frontier@[fb.len() as int] == c);
                        }
                    }
                }
            }
            i = i + 1;
        }
        proof {
            reveal(blocking_trace);
            assert(adj@.take(adj@.len() as int) =~= adj@);
            assert forall|c: Coord| rest.contains(c) implies frontier@.contains(c) by {
                let n = choose|n: int| 0 <= n < rest.len() && rest[n] == c;
                assert(frontier@.subrange(0, rest.len() as int)[n] == c);
                assert(frontier@[n] == c);
            }
            assert forall|u: Coord, d: Coord|
                (starts.contains(u) || visited@.contains(key_of(u))) && !frontier@.contains(u)
                    && flags_at(index, u).is_free_spec() && #[trigger] u.adjacent(d)
                    && board.in_bounds(d) implies visited@.contains(key_of(d)) by {
                if u == current_tile {
                    assert(inb(d));
                    assert(adj@.contains(d));
                    let j = choose|j: int| 0 <= j < adj@.len() && adj@[j] == d;
                    assert(visited@.contains(key_of(adj@[j])));
                } else {
                    assert(starts.contains(u) || v0.contains(key_of(u)));
                    assert(!f0.contains(u));
                    assert(v0.contains(key_of(d)));
                }
            }
            assert forall|t: Coord|
                (starts.contains(t) || visited@.contains(key_of(t))) && !frontier@.contains(t)
                    && flags_at(index, t).snake implies #[trigger] blocking_tiles@.contains(t) by {
                assert(t != current_tile);
                assert(starts.contains(t) || v0.contains(key_of(t)));
                assert(!f0.contains(t));
            }
        }
    }
}

/// Collects the blocking tiles: the body segments met by a search that
/// starts from the tiles of `frontier` and goes on over every tile of
/// the board free of bodies.
pub fn find_blocking_tiles(
    board: &Board,
    game_board: &GameBoard,
    frontier: &mut VecDeque<Coord>,
    visited: &mut HashSet<u32>,
    blocking_tiles: &mut Vec<Coord>,
)
    requires
        old(visited)@ == Set::<u32>::empty(),
        old(blocking_tiles)@ == Seq::<Coord>::empty(),
    ensures
        forall|t: Coord| #[trigger]
            final(blocking_tiles)@.contains(t) <==> blocking(
                old(frontier)@,
                t,
                board,
                game_board@,
            ),
        final(blocking_tiles)@ == blocking_trace(
            board,
            game_board@,
            old(frontier)@,
            Set::<u32>::empty(),
            2 * board.area() + old(frontier)@.len() + 1,
        ),
{
    let ghost starts = frontier@;
    let ghost mut fuel: nat = 2 * board.area() + starts.len() + 1;
    let ghost whole = blocking_trace(board, game_board@, starts, Set::<u32>::empty(), fuel);
    assert(blocking_tiles@ + whole =~= whole);
    assert(blocking_inv(starts, board, game_board@, frontier@, visited@, blocking_tiles@)) by {
        assert forall|i: int| 0 <= i < frontier@.len() implies starts.contains(
            #[trigger] frontier@[i],
        ) by {}
    }
    while frontier.len() > 0
        invariant
            blocking_inv(starts, board, game_board@, frontier@, visited@, blocking_tiles@),
            whole == blocking_tiles@ + blocking_trace(
                board,
                game_board@,
                frontier@,
                visited@,
                fuel,
            ),
            visited@.len() <= board.area(),
            fuel >= 2 * board.area() - 2 * visited@.len() + frontier@.len() + 1,
        decreases 2 * board.area() - 2 * visited@.len() + frontier@.len(),
    {
        blocking_step(board, game_board, frontier, visited, blocking_tiles, Ghost(starts));
        proof {
            lemma_inbounds_keys(visited@, board);
            fuel = (fuel - 1) as nat;
        }
    }
    proof {
        assert(frontier@ =~= Seq::<Coord>::empty());
        lemma_blocking_done(starts, board, game_board@, visited@, blocking_tiles@);
        reveal(blocking_trace);
        assert(blocking_tiles@ + Seq::<Coord>::empty() =~= blocking_tiles@);
    }
}

/// Keys of tiles of the board are no more than the board has tiles.
pub proof fn lemma_inbounds_keys(keys: Set<u32>, board: &Board)
    requires
        keys.finite(),
        forall|c: Coord| #[trigger] keys.contains(key_of(c)) ==> board.in_bounds(c),
    ensures
        keys.len() <= board.area(),
{
    lemma_grid(board);
    lemma_coords_of(keys);
    assert(coords_of(keys).subset_of(grid(board)));
    lemma_len_subset(coords_of(keys), grid(board));
}

/// How soon a body segment leaves its tile: the number of segments from
/// it to the tail of the first snake that lies on the tile, itself
/// counted; zero where no snake lies on it.
pub open spec fn vacate_rank(snakes: Seq<Battlesnake>, t: Coord) -> int {
    match owner_from(snakes, t, 0) {
        Some(i) => snakes[i].body@.len() - (match first_at(snakes[i].body@, t, 0) {
            Some(j) => j,
            None => 0,
        }),
        None => 0,
    }
}

fn tail_distance(tile: &Coord, snakes: &Vec<Battlesnake>) -> (r: usize)
    ensures
        r == vacate_rank(snakes@, *tile),
{
    match get_snake_from_tile(tile, snakes) {
        Some(snake) => {
            match position_of(&snake.body, tile) {
                Some(j) => snake.body.len() - j,
                None => snake.body.len(),
            }
        },
        None => 0,
    }
}

/// The way out of a confined region: among the blocking tiles that a
/// search from all neighbours of the head on the board meets, the first
/// met of those that leave their tiles soonest. `None` where there is no
/// blocking tile.
pub fn find_key_hole(board: &Board, game_board: &GameBoard, you: &Battlesnake) -> (r: Option<Coord>)
    ensures
        r == soonest(
            blocking_trace(
                board,
                game_board@,
                neighbors_where(you.head, on_board(board)),
                Set::<u32>::empty(),
                2 * board.area() + neighbors_where(you.head, on_board(board)).len()
                    + 1,
            ),
            board.snakes@,
        ),
        r is None <==> forall|t: Coord|
            !#[trigger] blocking(
                neighbors_where(you.head, on_board(board)),
                t,
                board,
                game_board@,
            ),
        r matches Some(hole) ==> blocking(
            neighbors_where(you.head, on_board(board)),
            hole,
            board,
            game_board@,
        ) && forall|t: Coord| #[trigger]
            blocking(neighbors_where(you.head, on_board(board)), t, board, game_board@)
                ==> vacate_rank(board.snakes@, hole) <= vacate_rank(board.snakes@, t),
{
    let starts = get_all_adj_tiles(&you.head, board);
    let mut frontier: VecDeque<Coord> = VecDeque::new();
    let mut i: usize = 0;
    while i < starts.len()
        invariant
            0 <= i <= starts.len(),
            frontier@ == starts@.take(i as int),
        decreases starts.len() - i,
    {
        frontier.push_back(starts[i]);
        assert(frontier@ =~= starts@.take(i + 1));
        i = i + 1;
    }
    assert(frontier@ =~= starts@);
    let mut visited: HashSet<u32> = HashSet::new();
    let mut blocking_tiles: Vec<Coord> = Vec::new();
    find_blocking_tiles(board, game_board, &mut frontier, &mut visited, &mut blocking_tiles);
    if blocking_tiles.len() == 0 {
        assert forall|t: Coord| !#[trigger] blocking(starts@, t, board, game_board@) by {
            assert(!blocking_tiles@.contains(t));
        }
        return None;
    }
    let mut best: Coord = blocking_tiles[0];
    let mut best_rank: usize = tail_distance(&best, &board.snakes);
    let mut j: usize = 1;
    proof {
        let t = blocking_tiles@.take(1);
        assert(t.drop_last() =~= Seq::<Coord>::empty());
        assert(t.last() == best);
        assert(soonest(t.drop_last(), board.snakes@) is None);
    }
    while j < blocking_tiles.len()
        invariant
            1 <= j <= blocking_tiles.len(),
            soonest(blocking_tiles@.take(j as int), board.snakes@) == Some(best),
            blocking_tiles@.contains(best),
            best_rank == vacate_rank(board.snakes@, best),
            forall|k: int|
                0 <= k < j ==> best_rank <= vacate_rank(board.snakes@, #[trigger] blocking_tiles@[k]),
        decreases blocking_tiles.len() - j,
    {
        let rank = tail_distance(&blocking_tiles[j], &board.snakes);
        proof {
            let t = blocking_tiles@.take(j + 1);
            assert(t.drop_last() =~= blocking_tiles@.take(j as int));
            assert(t.last() == blocking_tiles@[j as int]);
        }
        if rank < best_rank {
            best = blocking_tiles[j];
            best_rank = rank;
        }
        j = j + 1;
    }
    proof {
        assert(blocking_tiles@.take(blocking_tiles@.len() as int) =~= blocking_tiles@);
        assert forall|t: Coord| #[trigger]
            blocking(starts@, t, board, game_board@) implies vacate_rank(board.snakes@, best)
            <= vacate_rank(board.snakes@, t) by {
            assert(blocking_tiles@.contains(t));
            let k = choose|k: int| 0 <= k < blocking_tiles@.len() && blocking_tiles@[k] == t;
            assert(best_rank <= vacate_rank(board.snakes@, blocking_tiles@[k]));
        }
    }
    Some(best)
}

} // verus!
