//! Reachability on the grid: what a flood fill from a tile can reach, and
//! the breadth-first step that computes it.

use crate::index::{coord_of, key_of, lemma_coord_roundtrip, lemma_key_roundtrip, tile_key, GameBoard};
use crate::logic::{adj_tiles_excluding, contains_coord, enterable, lemma_neighbors_where, neighbors_where};
use crate::types::{Battlesnake, Board, Coord};
use std::collections::{HashSet, VecDeque};
use vstd::prelude::*;
use vstd::set_lib::{lemma_int_range, lemma_len_subset, lemma_map_size, lemma_map_size_bound, set_int_range};

verus! {

broadcast use vstd::std_specs::hash::group_hash_axioms;

/// A walk of one or more steps: each tile after the first is next to the
/// one before it, and `ok` holds of it.
pub open spec fn is_walk(p: Seq<Coord>, ok: spec_fn(Coord) -> bool) -> bool {
    &&& p.len() >= 2
    &&& forall|i: int| 1 <= i < p.len() ==> p[i - 1].adjacent(#[trigger] p[i]) && ok(p[i])
}

/// `t` can be reached from `start` by a walk.
pub open spec fn reaches(start: Coord, t: Coord, ok: spec_fn(Coord) -> bool) -> bool {
    exists|p: Seq<Coord>| #[trigger] is_walk(p, ok) && p[0] == start && p.last() == t
}

/// The tiles that a flood fill from `start` marks.
pub open spec fn reach_set(start: Coord, ok: spec_fn(Coord) -> bool) -> Set<Coord> {
    Set::new(|t: Coord| reaches(start, t, ok))
}

/// Every step from `start`, or from a tile of `s`, onto a tile of which
/// `ok` holds ends in `s`.
pub open spec fn closed(start: Coord, ok: spec_fn(Coord) -> bool, s: Set<Coord>) -> bool {
    forall|c: Coord, d: Coord|
        (c == start || s.contains(c)) && #[trigger] c.adjacent(d) && ok(d) ==> s.contains(d)
}

/// The tiles of the board.
pub open spec fn grid(board: &Board) -> Set<Coord> {
    Set::new(|c: Coord| board.in_bounds(c))
}

/// The coordinates stored under a set of keys.
pub open spec fn coords_of(keys: Set<u32>) -> Set<Coord> {
    Set::new(|c: Coord| keys.contains(key_of(c)))
}

pub proof fn lemma_reach_step(start: Coord, c: Coord, d: Coord, ok: spec_fn(Coord) -> bool)
    requires
        c == start || reaches(start, c, ok),
        c.adjacent(d),
        ok(d),
    ensures
        reaches(start, d, ok),
{
    if c == start {
        let p = seq![start, d];
        assert(is_walk(p, ok));
        assert(p[0] == start && p.last() == d);
    } else {
        let p = choose|p: Seq<Coord>| #[trigger] is_walk(p, ok) && p[0] == start && p.last() == c;
        let q = p.push(d);
        assert forall|i: int| 1 <= i < q.len() implies q[i - 1].adjacent(#[trigger] q[i]) && ok(
            q[i],
        ) by {
            if i < p.len() {
                assert(q[i] == p[i] && q[i - 1] == p[i - 1]);
            }
        }
        assert(is_walk(q, ok));
        assert(q[0] == start && q.last() == d);
    }
}

proof fn lemma_walk_inside(p: Seq<Coord>, start: Coord, ok: spec_fn(Coord) -> bool, s: Set<Coord>)
    requires
        is_walk(p, ok),
        p[0] == start,
        closed(start, ok, s),
    ensures
        s.contains(p.last()),
    decreases p.len(),
{
    if p.len() == 2 {
        assert(p[0].adjacent(p[1]) && ok(p[1]));
    } else {
        let q = p.drop_last();
        assert forall|i: int| 1 <= i < q.len() implies q[i - 1].adjacent(#[trigger] q[i]) && ok(
            q[i],
        ) by {
            assert(q[i] == p[i] && q[i - 1] == p[i - 1]);
        }
        lemma_walk_inside(q, start, ok, s);
        let n = p.len() - 1;
        assert(p[n - 1].adjacent(p[n]) && ok(p[n]));
        assert(q.last() == p[n - 1]);
    }
}

/// A set that no step leaves holds everything that can be reached.
pub proof fn lemma_reach_closed(start: Coord, ok: spec_fn(Coord) -> bool, s: Set<Coord>)
    requires
        closed(start, ok, s),
    ensures
        reach_set(start, ok).subset_of(s),
{
    assert forall|t: Coord| reach_set(start, ok).contains(t) implies s.contains(t) by {
        let p = choose|p: Seq<Coord>| #[trigger] is_walk(p, ok) && p[0] == start && p.last() == t;
        lemma_walk_inside(p, start, ok, s);
    }
}

/// Allowing fewer tiles reaches no more.
pub proof fn lemma_reach_mono(
    start: Coord,
    ok1: spec_fn(Coord) -> bool,
    ok2: spec_fn(Coord) -> bool,
)
    requires
        forall|c: Coord| #[trigger] ok1(c) ==> ok2(c),
    ensures
        reach_set(start, ok1).subset_of(reach_set(start, ok2)),
{
    assert forall|t: Coord| reach_set(start, ok1).contains(t) implies reach_set(
        start,
        ok2,
    ).contains(t) by {
        let p = choose|p: Seq<Coord>| #[trigger] is_walk(p, ok1) && p[0] == start && p.last() == t;
        assert(is_walk(p, ok2));
    }
}

/// The board has `width * height` tiles at most.
pub proof fn lemma_grid(board: &Board)
    ensures
        grid(board).finite(),
        grid(board).len() <= board.area(),
{
    let w = board.width as int;
    let h = board.height as int;
    if w == 0 || h == 0 {
        assert(grid(board) =~= Set::<Coord>::empty());
    } else {
        assert(0 <= w * h) by (nonlinear_arith)
            requires
                0 <= w,
                0 <= h,
        ;
        let r = set_int_range(0, w * h);
        lemma_int_range(0, w * h);
        let f = |i: int| Coord { x: (i % w) as i16, y: (i / w) as i16 };
        assert forall|c: Coord| grid(board).contains(c) implies r.map(f).contains(c) by {
            let i = c.y * w + c.x;
            vstd::arithmetic::div_mod::lemma_fundamental_div_mod_converse(
                i,
                w,
                c.y as int,
                c.x as int,
            );
            assert(0 <= i < w * h) by (nonlinear_arith)
                requires
                    i == c.y * w + c.x,
                    0 <= c.x < w,
                    0 <= c.y < h,
            ;
            assert(r.contains(i) && f(i) == c);
        }
        lemma_map_size_bound(r, r.map(f), f);
        lemma_len_subset(grid(board), r.map(f));
    }
}

/// A fill that stays on the board marks a finite set, no larger than
/// the board.
pub proof fn lemma_reach_bounded(start: Coord, ok: spec_fn(Coord) -> bool, board: &Board)
    requires
        forall|c: Coord| #[trigger] ok(c) ==> board.in_bounds(c),
    ensures
        reach_set(start, ok).finite(),
        reach_set(start, ok).len() <= board.area(),
{
    lemma_grid(board);
    assert forall|t: Coord| reach_set(start, ok).contains(t) implies grid(board).contains(t) by {
        let p = choose|p: Seq<Coord>| #[trigger] is_walk(p, ok) && p[0] == start && p.last() == t;
        assert(ok(p[p.len() - 1]));
    }
    lemma_len_subset(reach_set(start, ok), grid(board));
}

/// As many coordinates as keys.
pub proof fn lemma_coords_of(keys: Set<u32>)
    requires
        keys.finite(),
    ensures
        coords_of(keys).finite(),
        coords_of(keys).len() == keys.len(),
{
    let f = |k: u32| coord_of(k);
    assert forall|k1: u32, k2: u32| #[trigger] f(k1) == #[trigger] f(k2) implies k1 == k2 by {
        lemma_coord_roundtrip(k1);
        lemma_coord_roundtrip(k2);
    }
    assert forall|c: Coord| coords_of(keys).contains(c) == keys.map(f).contains(c) by {
        lemma_key_roundtrip(c);
        if keys.map(f).contains(c) {
            let k = choose|k: u32| keys.contains(k) && c == f(k);
            lemma_coord_roundtrip(k);
        }
        if coords_of(keys).contains(c) {
            assert(keys.contains(key_of(c)) && c == f(key_of(c)));
        }
    }
    assert(coords_of(keys) =~= keys.map(f));
    lemma_map_size(keys, keys.map(f), f);
}

/// The state of a breadth-first fill from `start`: everything marked
/// can be reached, every tile in the queue is marked or is the start,
/// and all steps from tiles no longer queued are marked.
pub open spec fn flood_inv(
    start: Coord,
    ok: spec_fn(Coord) -> bool,
    frontier: Seq<Coord>,
    visited: Set<u32>,
) -> bool {
    &&& visited.finite()
    &&& frontier.len() <= 1 + visited.len()
    &&& forall|c: Coord| #[trigger] visited.contains(key_of(c)) ==> reaches(start, c, ok)
    &&& forall|i: int|
        0 <= i < frontier.len() ==> #[trigger] frontier[i] == start || visited.contains(
            key_of(frontier[i]),
        )
    &&& forall|c: Coord, d: Coord|
        (c == start || visited.contains(key_of(c))) && !frontier.contains(c) && #[trigger] c.adjacent(
            d,
        ) && ok(d) ==> visited.contains(key_of(d))
}

/// With the queue empty, the marked tiles are exactly those that can be
/// reached.
pub proof fn lemma_flood_done(start: Coord, ok: spec_fn(Coord) -> bool, visited: Set<u32>)
    requires
        flood_inv(start, ok, Seq::<Coord>::empty(), visited),
    ensures
        coords_of(visited) == reach_set(start, ok),
        visited.len() == reach_set(start, ok).len(),
{
    let s = coords_of(visited);
    assert(closed(start, ok, s)) by {
        assert forall|c: Coord, d: Coord|
            (c == start || s.contains(c)) && #[trigger] c.adjacent(d) && ok(d) implies s.contains(
            d,
        ) by {
            assert(!Seq::<Coord>::empty().contains(c));
        }
    }
    lemma_reach_closed(start, ok, s);
    assert(s =~= reach_set(start, ok));
    lemma_coords_of(visited);
}

/// While filling, no more tiles are marked than can be reached.
pub proof fn lemma_flood_partial(
    start: Coord,
    ok: spec_fn(Coord) -> bool,
    frontier: Seq<Coord>,
    visited: Set<u32>,
    board: &Board,
)
    requires
        flood_inv(start, ok, frontier, visited),
        forall|c: Coord| #[trigger] ok(c) ==> board.in_bounds(c),
    ensures
        visited.len() <= reach_set(start, ok).len(),
        reach_set(start, ok).len() <= board.area(),
        reach_set(start, ok).finite(),
{
    lemma_reach_bounded(start, ok, board);
    lemma_coords_of(visited);
    assert(coords_of(visited).subset_of(reach_set(start, ok)));
    lemma_len_subset(coords_of(visited), reach_set(start, ok));
}

/// Tiles marked by a fill over enterable tiles are no more than the
/// greatest board holds.
pub proof fn lemma_marked_bound(
    start: Coord,
    ok: spec_fn(Coord) -> bool,
    visited: Set<u32>,
    board: &Board,
)
    requires
        visited.finite(),
        forall|c: Coord| #[trigger] visited.contains(key_of(c)) ==> reaches(start, c, ok),
        forall|c: Coord| #[trigger] ok(c) ==> board.in_bounds(c),
    ensures
        visited.len() <= 65025,
{
    lemma_reach_bounded(start, ok, board);
    lemma_coords_of(visited);
    assert(coords_of(visited).subset_of(reach_set(start, ok)));
    lemma_len_subset(coords_of(visited), reach_set(start, ok));
    assert(board.width * board.height <= 65025) by (nonlinear_arith)
        requires
            0 <= board.width <= 255,
            0 <= board.height <= 255,
    ;
}

/// One step of the fill: takes the first tile of the queue, marks and
/// queues those of its legal neighbours that are neither marked nor
/// excluded, and counts those of them that are not occupied.
pub fn flood_step(
    board: &Board,
    game_board: &GameBoard,
    you: &Battlesnake,
    frontier: &mut VecDeque<Coord>,
    visited: &mut HashSet<u32>,
    exclude_tiles: &Vec<Coord>,
    occupied: &HashSet<u32>,
    free_marked: &mut u32,
    Ghost(start): Ghost<Coord>,
)
    requires
        old(frontier)@.len() > 0,
        flood_inv(
            start,
            enterable(board, game_board@, you, true, exclude_tiles@),
            old(frontier)@,
            old(visited)@,
        ),
        *old(free_marked) == old(visited)@.difference(occupied@).len(),
    ensures
        *final(free_marked) == final(visited)@.difference(occupied@).len(),
        flood_inv(
            start,
            enterable(board, game_board@, you, true, exclude_tiles@),
            final(frontier)@,
            final(visited)@,
        ),
        final(visited)@.len() - final(frontier)@.len() == old(visited)@.len() - old(
            frontier,
        )@.len() + 1,
        old(visited)@.subset_of(final(visited)@),
{
    let ghost ok = enterable(board, game_board@, you, true, exclude_tiles@);
    let ghost any = enterable(board, game_board@, you, true, Seq::<Coord>::empty());
    let ghost f0 = frontier@;
    let ghost v0 = visited@;
    let current_tile = frontier.pop_front().unwrap();
    let ghost rest = frontier@;
    let nothing: Vec<Coord> = Vec::new();
    let adj = adj_tiles_excluding(&current_tile, board, game_board, you, true, &nothing);
    proof {
        lemma_neighbors_where(current_tile, any);
        assert(f0[0] == current_tile);
        assert(current_tile == start || v0.contains(key_of(current_tile)));
    }
    let mut i: usize = 0;
    while i < adj.len()
        invariant
            0 <= i <= adj.len(),
            adj@ == neighbors_where(current_tile, any),
            adj@.no_duplicates(),
            forall|c: Coord| #[trigger] adj@.contains(c) <==> any(c) && current_tile.adjacent(c),
            ok == enterable(board, game_board@, you, true, exclude_tiles@),
            any == enterable(board, game_board@, you, true, Seq::<Coord>::empty()),
            current_tile == start || v0.contains(key_of(current_tile)),
            visited@.finite(),
            v0.finite(),
            v0.subset_of(visited@),
            rest.len() + 1 == f0.len(),
            f0.len() <= 1 + v0.len(),
            frontier@.len() >= rest.len(),
            frontier@.subrange(0, rest.len() as int) == rest,
            visited@.len() - frontier@.len() == v0.len() - rest.len(),
            forall|c: Coord| #[trigger] visited@.contains(key_of(c)) ==> reaches(start, c, ok),
            forall|k: int|
                0 <= k < frontier@.len() ==> #[trigger] frontier@[k] == start || visited@.contains(
                    key_of(frontier@[k]),
                ),
            forall|j: int| 0 <= j < i && ok(#[trigger] adj@[j]) ==> visited@.contains(key_of(adj@[j])),
            forall|c: Coord|
                #[trigger] visited@.contains(key_of(c)) && !v0.contains(key_of(c))
                    ==> frontier@.contains(c),
            *free_marked == visited@.difference(occupied@).len(),
        decreases adj.len() - i,
    {
        let a = adj[i];
        let k = tile_key(&a);
        assert(adj@.contains(a));
        if !visited.contains(&k) && !contains_coord(exclude_tiles, &a) {
            let ghost vb = visited@;
            let ghost fb = frontier@;
            visited.insert(k);
            frontier.push_back(a);
            let is_free = !occupied.contains(&k);
            proof {
                if is_free {
                    assert(visited@.difference(occupied@) =~= vb.difference(occupied@).insert(k));
                } else {
                    assert(visited@.difference(occupied@) =~= vb.difference(occupied@));
                }
                assert(ok(a));
                lemma_reach_step(start, current_tile, a, ok);
                assert(frontier@.subrange(0, rest.len() as int) =~= fb.subrange(
                    0,
                    rest.len() as int,
                ));
                assert forall|c: Coord| #[trigger] visited@.contains(key_of(c)) implies reaches(
                    start,
                    c,
                    ok,
                ) by {
                    if !vb.contains(key_of(c)) {
                        lemma_key_roundtrip(c);
                        lemma_key_roundtrip(a);
                    }
                }
                assert forall|c: Coord|
                    #[trigger] visited@.contains(key_of(c)) && !v0.contains(
                        key_of(c),
                    ) implies frontier@.contains(c) by {
                    if vb.contains(key_of(c)) {
                        let n = choose|n: int| 0 <= n < fb.len() && fb[n] == c;
                        assert(frontier@[n] == c);
                    } else {
                        lemma_key_roundtrip(c);
                        lemma_key_roundtrip(a);
                        assert(frontier@[fb.len() as int] == c);
                    }
                }
                lemma_marked_bound(start, ok, visited@, board);
                lemma_len_subset(visited@.difference(occupied@), visited@);
            }
            if is_free {
                *free_marked = *free_marked + 1;
            }
        }
        i = i + 1;
    }
    proof {
        assert forall|c: Coord, d: Coord|
            (c == start || visited@.contains(key_of(c))) && !frontier@.contains(c)
                && #[trigger] c.adjacent(d) && ok(d) implies visited@.contains(key_of(d)) by {
            if c == current_tile {
                assert(any(d));
                assert(adj@.contains(d));
                let j = choose|j: int| 0 <= j < adj@.len() && adj@[j] == d;
                assert(ok(adj@[j]));
            } else {
                assert(c == start || v0.contains(key_of(c)));
                if f0.contains(c) {
                    let n = choose|n: int| 0 <= n < f0.len() && f0[n] == c;
                    assert(n > 0);
                    assert(rest[n - 1] == c);
                    assert(frontier@.subrange(0, rest.len() as int)[n - 1] == c);
                    assert(frontier@[n - 1] == c);
                }
                assert(v0.contains(key_of(d)));
            }
        }
    }
}

} // verus!
