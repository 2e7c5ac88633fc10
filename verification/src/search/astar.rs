//! The best-first search for the nearest food that can be reached
//! before the snake starves.

use crate::index::{coord_of, flags_at, key_of, lemma_coord_roundtrip, lemma_key_roundtrip, tile_key, GameBoard};
use crate::queue::{
    prio_le, priority_of, queue_contents, queue_new, queue_pop, queue_push, search_priority,
};
use crate::rank::{adj_tiles_connected, closest_food, lemma_candidates_are_moves, nearest2, ranked_candidates};
use crate::reach::{coords_of, grid, lemma_coords_of, lemma_grid};
use crate::tree::{ascent, backtrack, lemma_trail, lemma_trail_no_duplicates, rooted, trail};
use crate::types::{Battlesnake, Board, Coord, Flags, Ratio};
use priority_queue::PriorityQueue;
use std::collections::HashMap;
use vstd::prelude::*;
use vstd::set_lib::lemma_len_subset;

verus! {

broadcast use vstd::std_specs::hash::group_hash_axioms;

/// What a step onto `t` costs: sixteen on a hazard, else one.
pub open spec fn step_cost(index: Map<Coord, Flags>, t: Coord) -> int {
    if flags_at(index, t).hazard {
        16
    } else {
        1
    }
}

/// The cost of walking a path.
pub open spec fn path_cost(path: Seq<Coord>, index: Map<Coord, Flags>) -> int
    decreases path.len(),
{
    if path.len() == 0 {
        0
    } else {
        path_cost(path.drop_last(), index) + step_cost(index, path.last())
    }
}

/// Where the snake's body will lie when its head has walked `path`: the
/// last `length` tiles of it.
pub open spec fn future(path: Seq<Coord>, length: u32) -> Seq<Coord> {
    if path.len() > length {
        path.subrange(path.len() - length, path.len() as int)
    } else {
        path
    }
}

/// The squared distance to the nearest food; zero on a board without
/// food.
pub open spec fn food_d2(t: Coord, board: &Board) -> int {
    if board.food@.len() > 0 {
        nearest2(t, board.food@)
    } else {
        0
    }
}

/// The state of the search: the parent of each tile found, its cost so
/// far, and the queue of tiles to look at.
pub struct SearchState {
    pub parents: Map<u32, Coord>,
    pub cost: Map<u32, u32>,
    pub queue: Map<u32, (i64, u32)>,
}

/// The state after the step from `cur` onto `t` was looked at: where it
/// is the first or a cheaper way to `t`, it is noted and `t` is queued
/// by its cost and distance to food, and among equals by its key.
pub open spec fn relax_one(
    s: SearchState,
    cur: Coord,
    t: Coord,
    board: &Board,
    index: Map<Coord, Flags>,
) -> SearchState {
    let nc = s.cost[key_of(cur)] + step_cost(index, t);
    if !s.cost.contains_key(key_of(t)) || s.cost[key_of(t)] > nc {
        SearchState {
            parents: s.parents.insert(key_of(t), cur),
            cost: s.cost.insert(key_of(t), nc as u32),
            queue: s.queue.insert(
                key_of(t),
                (priority_of(nc, food_d2(t, board)) as i64, key_of(t)),
            ),
        }
    } else {
        s
    }
}

/// The state after the steps from `cur` onto each of `cands` were looked
/// at, in their order.
pub open spec fn relax_all(
    s: SearchState,
    cur: Coord,
    cands: Seq<Coord>,
    board: &Board,
    index: Map<Coord, Flags>,
) -> SearchState
    decreases cands.len(),
{
    if cands.len() == 0 {
        s
    } else {
        relax_one(relax_all(s, cur, cands.drop_last(), board, index), cur, cands.last(), board, index)
    }
}

/// What holds of the state throughout the search.
pub open spec fn search_inv(
    head: Coord,
    board: &Board,
    index: Map<Coord, Flags>,
    you: &Battlesnake,
    s: SearchState,
) -> bool {
    &&& s.parents.dom().finite()
    &&& s.cost.dom().finite()
    &&& s.queue.dom().finite()
    &&& s.cost.contains_key(key_of(head))
    &&& s.cost[key_of(head)] == 0
    &&& !s.parents.contains_key(key_of(head))
    &&& forall|c: Coord| #[trigger]
        s.parents.contains_key(key_of(c)) ==> {
            &&& board.in_bounds(c)
            &&& crate::logic::can_enter(c, board, index, you, true)
            &&& s.parents[key_of(c)].adjacent(c)
            &&& s.cost.contains_key(key_of(c))
            &&& s.cost.contains_key(key_of(s.parents[key_of(c)]))
            &&& s.cost[key_of(s.parents[key_of(c)])] + step_cost(index, c) <= s.cost[key_of(c)]
            &&& (s.parents[key_of(c)] == head || s.parents.contains_key(
                key_of(s.parents[key_of(c)]),
            ))
        }
    &&& forall|c: Coord| #[trigger]
        s.cost.contains_key(key_of(c)) ==> (c == head || s.parents.contains_key(key_of(c)))
            && s.cost[key_of(c)] <= 16 * s.cost.dom().len()
    &&& forall|k: u32| #[trigger] s.queue.contains_key(k) ==> s.cost.contains_key(k) && s.queue[k].1 == k
}

/// The greatest cost that a tile can have, and one more.
pub open spec fn cost_cap() -> int {
    1040417int
}

/// The sum, over the keys below `n`, of the cost of the tile, or of
/// `cost_cap` where it has none. Every cheaper way found makes it less.
pub open spec fn potential(cost: Map<u32, u32>, n: nat) -> int
    decreases n,
{
    if n == 0 {
        0
    } else {
        potential(cost, (n - 1) as nat) + (if cost.contains_key((n - 1) as u32) {
            cost[(n - 1) as u32] as int
        } else {
            cost_cap()
        })
    }
}

proof fn lemma_potential_nonneg(cost: Map<u32, u32>, n: nat)
    ensures
        potential(cost, n) >= 0,
    decreases n,
{
    if n > 0 {
        lemma_potential_nonneg(cost, (n - 1) as nat);
    }
}

proof fn lemma_potential_insert(cost: Map<u32, u32>, k: u32, v: u32, n: nat)
    requires
        n <= 0x1_0000_0000,
    ensures
        potential(cost.insert(k, v), n) == potential(cost, n) + (if k < n {
            v - (if cost.contains_key(k) {
                cost[k] as int
            } else {
                cost_cap()
            })
        } else {
            0
        }),
    decreases n,
{
    if n > 0 {
        lemma_potential_insert(cost, k, v, (n - 1) as nat);
    }
}

/// Keys of tiles of the board, and of the head, are no more than the
/// greatest board has tiles, and one.
proof fn lemma_dom_bound(dom: Set<u32>, head: Coord, board: &Board)
    requires
        dom.finite(),
        forall|c: Coord| #[trigger] dom.contains(key_of(c)) ==> c == head || board.in_bounds(c),
    ensures
        dom.len() <= 65026,
{
    lemma_grid(board);
    lemma_coords_of(dom);
    let g = grid(board).insert(head);
    assert(coords_of(dom).subset_of(g));
    lemma_len_subset(coords_of(dom), g);
    assert(board.width * board.height <= 65025) by (nonlinear_arith)
        requires
            0 <= board.width <= 255,
            0 <= board.height <= 255,
    ;
}

/// Looking at one more step keeps what holds of the state, and does not
/// raise the potential; where the queue changes, the potential falls.
proof fn lemma_relax_one(
    head: Coord,
    board: &Board,
    index: Map<Coord, Flags>,
    you: &Battlesnake,
    s: SearchState,
    cur: Coord,
    t: Coord,
)
    requires
        search_inv(head, board, index, you, s),
        s.cost.contains_key(key_of(cur)),
        cur.adjacent(t),
        board.in_bounds(t),
        crate::logic::can_enter(t, board, index, you, true),
    ensures
        search_inv(head, board, index, you, relax_one(s, cur, t, board, index)),
        relax_one(s, cur, t, board, index).cost.contains_key(key_of(cur)),
        relax_one(s, cur, t, board, index).cost[key_of(cur)] == s.cost[key_of(cur)],
        potential(relax_one(s, cur, t, board, index).cost, 0x1_0000_0000) <= potential(
            s.cost,
            0x1_0000_0000,
        ),
        relax_one(s, cur, t, board, index) != s ==> potential(
            relax_one(s, cur, t, board, index).cost,
            0x1_0000_0000,
        ) < potential(s.cost, 0x1_0000_0000),
        s.cost[key_of(cur)] + step_cost(index, t) <= 16 * 65027,
{
    let r = relax_one(s, cur, t, board, index);
    let nc = s.cost[key_of(cur)] + step_cost(index, t);
    lemma_dom_bound(s.cost.dom(), head, board);
    assert(cur != t) by {
        assert(cur.dist2(cur) == 0) by (nonlinear_arith);
    }
    assert(key_of(cur) != key_of(t)) by {
        lemma_key_roundtrip(cur);
        lemma_key_roundtrip(t);
    }
    if !s.cost.contains_key(key_of(t)) || s.cost[key_of(t)] > nc {
        let kt = key_of(t);
        lemma_potential_insert(s.cost, kt, nc as u32, 0x1_0000_0000);
        assert(t != head);
        assert(r.cost.dom() =~= s.cost.dom().insert(kt));
        assert(r.parents.dom() =~= s.parents.dom().insert(kt));
        assert(r.queue.dom() =~= s.queue.dom().insert(kt));
        assert(r.cost.dom().len() >= s.cost.dom().len());
        assert forall|c: Coord| #[trigger] r.cost.dom().contains(key_of(c)) implies c == head
            || board.in_bounds(c) by {
            lemma_key_roundtrip(c);
            lemma_key_roundtrip(t);
        }
        lemma_dom_bound(r.cost.dom(), head, board);
        if !s.cost.contains_key(kt) {
            assert(r.cost.dom().len() == s.cost.dom().len() + 1);
            assert(nc < cost_cap());
            assert forall|c: Coord| s.parents.contains_key(key_of(c)) implies s.parents[key_of(c)]
                != t by {}
        }
        assert forall|c: Coord| #[trigger] r.parents.contains_key(key_of(c)) implies {
            &&& board.in_bounds(c)
            &&& crate::logic::can_enter(c, board, index, you, true)
            &&& r.parents[key_of(c)].adjacent(c)
            &&& r.cost.contains_key(key_of(c))
            &&& r.cost.contains_key(key_of(r.parents[key_of(c)]))
            &&& r.cost[key_of(r.parents[key_of(c)])] + step_cost(index, c) <= r.cost[key_of(c)]
            &&& (r.parents[key_of(c)] == head || r.parents.contains_key(
                key_of(r.parents[key_of(c)]),
            ))
        } by {
            lemma_key_roundtrip(c);
            lemma_key_roundtrip(t);
            if c == t {
            } else {
                assert(s.parents.contains_key(key_of(c)));
                let p = s.parents[key_of(c)];
                lemma_key_roundtrip(p);
            }
        }
        assert forall|c: Coord| #[trigger] r.cost.contains_key(key_of(c)) implies (c == head
            || r.parents.contains_key(key_of(c))) && r.cost[key_of(c)] <= 16 * r.cost.dom().len() by {
            lemma_key_roundtrip(c);
            lemma_key_roundtrip(t);
        }
    }
}

/// Whether the search ends at `current`: it holds food, and the way to
/// it costs less than the snake's health.
pub open spec fn goal_found(
    current: Coord,
    index: Map<Coord, Flags>,
    cost: Map<u32, u32>,
    you: &Battlesnake,
) -> bool {
    flags_at(index, current).food && cost[key_of(current)] < you.health
}

/// The last `n` tiles of `path`.
pub fn last_tiles(path: &Vec<Coord>, n: u32) -> (r: Vec<Coord>)
    ensures
        r@ == future(path@, n),
{
    let len = path.len();
    let start: usize = if len > n as usize {
        len - n as usize
    } else {
        0
    };
    let mut r: Vec<Coord> = Vec::new();
    let mut i: usize = start;
    while i < len
        invariant
            start <= i <= len,
            len == path.len(),
            r@ == path@.subrange(start as int, i as int),
        decreases len - i,
    {
        r.push(path[i]);
        assert(r@ =~= path@.subrange(start as int, i + 1));
        i = i + 1;
    }
    assert(r@ =~= future(path@, n));
    r
}

/// The tile stored under a key.
pub fn key_tile(k: u32) -> (c: Coord)
    ensures
        c == coord_of(k),
{
    let x: i32 = (k / 65536) as i32 - 32768;
    let y: i32 = (k % 65536) as i32 - 32768;
    Coord { x: x as i16, y: y as i16 }
}

/// The step from `from` onto `onto` is one onto a ranked candidate, with
/// some tiles barred as the body that the snake will have.
pub open spec fn candidate_step(
    from: Coord,
    onto: Coord,
    board: &Board,
    index: Map<Coord, Flags>,
    you: &Battlesnake,
    threshold: Ratio,
    degree_threshold: u8,
) -> bool {
    exists|planned: Seq<Coord>| #[trigger]
        ranked_candidates(
            from,
            board,
            index,
            you,
            threshold,
            degree_threshold,
            true,
            false,
            true,
            planned,
        ).contains(onto)
}

/// The step from the head onto `onto` is one onto a ranked candidate,
/// nothing barred.
pub open spec fn first_step(
    onto: Coord,
    board: &Board,
    index: Map<Coord, Flags>,
    you: &Battlesnake,
    threshold: Ratio,
    degree_threshold: u8,
) -> bool {
    ranked_candidates(
        you.head,
        board,
        index,
        you,
        threshold,
        degree_threshold,
        true,
        false,
        true,
        Seq::<Coord>::empty(),
    ).contains(onto)
}

/// Every tile found was stepped onto as a ranked candidate of its
/// parent.
pub open spec fn steps_ranked(
    board: &Board,
    index: Map<Coord, Flags>,
    you: &Battlesnake,
    threshold: Ratio,
    degree_threshold: u8,
    parents: Map<u32, Coord>,
) -> bool {
    forall|c: Coord| #[trigger]
        parents.contains_key(key_of(c)) ==> candidate_step(
            parents[key_of(c)],
            c,
            board,
            index,
            you,
            threshold,
            degree_threshold,
        ) && (parents[key_of(c)] == you.head ==> first_step(
            c,
            board,
            index,
            you,
            threshold,
            degree_threshold,
        ))
}

/// Looks at the step from `current_tile` onto `tile`: where it is the
/// first or a cheaper way to `tile`, it is noted and `tile` is queued.
fn relax_step(
    board: &Board,
    game_board: &GameBoard,
    you: &Battlesnake,
    current_tile: Coord,
    current_cost: u32,
    tile: Coord,
    frontier: &mut PriorityQueue<u32, (i64, u32)>,
    visited: &mut HashMap<u32, Coord>,
    cost_so_far: &mut HashMap<u32, u32>,
    Ghost(threshold): Ghost<Ratio>,
    Ghost(degree_threshold): Ghost<u8>,
)
    requires
        steps_ranked(board, game_board@, you, threshold, degree_threshold, old(visited)@),
        candidate_step(current_tile, tile, board, game_board@, you, threshold, degree_threshold),
        current_tile == you.head ==> first_step(
            tile,
            board,
            game_board@,
            you,
            threshold,
            degree_threshold,
        ),
        search_inv(
            you.head,
            board,
            game_board@,
            you,
            SearchState {
                parents: old(visited)@,
                cost: old(cost_so_far)@,
                queue: queue_contents(*old(frontier)),
            },
        ),
        old(cost_so_far)@.contains_key(key_of(current_tile)),
        old(cost_so_far)@[key_of(current_tile)] == current_cost,
        current_tile.adjacent(tile),
        board.in_bounds(tile),
        crate::logic::can_enter(tile, board, game_board@, you, true),
    ensures
        steps_ranked(board, game_board@, you, threshold, degree_threshold, final(visited)@),
        (SearchState {
            parents: final(visited)@,
            cost: final(cost_so_far)@,
            queue: queue_contents(*final(frontier)),
        }) == relax_one(
            SearchState {
                parents: old(visited)@,
                cost: old(cost_so_far)@,
                queue: queue_contents(*old(frontier)),
            },
            current_tile,
            tile,
            board,
            game_board@,
        ),
        search_inv(
            you.head,
            board,
            game_board@,
            you,
            SearchState {
                parents: final(visited)@,
                cost: final(cost_so_far)@,
                queue: queue_contents(*final(frontier)),
            },
        ),
        final(cost_so_far)@.contains_key(key_of(current_tile)),
        final(cost_so_far)@[key_of(current_tile)] == current_cost,
        potential(final(cost_so_far)@, 0x1_0000_0000) <= potential(
            old(cost_so_far)@,
            0x1_0000_0000,
        ),
        queue_contents(*final(frontier)) != queue_contents(*old(frontier)) ==> potential(
            final(cost_so_far)@,
            0x1_0000_0000,
        ) < potential(old(cost_so_far)@, 0x1_0000_0000),
{
    let ghost before = SearchState {
        parents: visited@,
        cost: cost_so_far@,
        queue: queue_contents(*frontier),
    };
    proof {
        lemma_relax_one(you.head, board, game_board@, you, before, current_tile, tile);
    }
    let movement_cost: u32 = if game_board.get(&tile).hazard {
        16
    } else {
        1
    };
    let tile_key_value = tile_key(&tile);
    let new_cost: u32 = current_cost + movement_cost;
    let better = match cost_so_far.get(&tile_key_value) {
        Some(previous) => *previous > new_cost,
        None => true,
    };
    if better {
        cost_so_far.insert(tile_key_value, new_cost);
        let heuristic_distance: u64 = match closest_food(&tile, board) {
            Some(d) => d,
            None => 0,
        };
        let priority = search_priority(new_cost, heuristic_distance);
        queue_push(frontier, tile_key_value, (priority, tile_key_value));
        visited.insert(tile_key_value, current_tile);
        proof {
            assert forall|c: Coord| #[trigger] visited@.contains_key(key_of(c)) implies candidate_step(
                visited@[key_of(c)],
                c,
                board,
                game_board@,
                you,
                threshold,
                degree_threshold,
            ) && (visited@[key_of(c)] == you.head ==> first_step(
                c,
                board,
                game_board@,
                you,
                threshold,
                degree_threshold,
            )) by {
                lemma_key_roundtrip(c);
                lemma_key_roundtrip(tile);
            }
        }
    }
}

/// Looks at the tile that came out of the queue. Where it holds food
/// that the snake reaches alive, it is the goal. Else the steps from it
/// onto its ranked candidates are looked at, the body that the snake
/// will then have barred: each first or cheaper way is noted, and the
/// tile queued by its cost and its distance to the nearest food.
#[verifier::rlimit(60)]
pub fn a_star_logic(
    board: &Board,
    game_board: &GameBoard,
    you: &Battlesnake,
    current_tile: Coord,
    frontier: &mut PriorityQueue<u32, (i64, u32)>,
    visited: &mut HashMap<u32, Coord>,
    cost_so_far: &mut HashMap<u32, u32>,
    connection_threshold: Ratio,
    degree_threshold: u8,
) -> (r: Option<Coord>)
    requires
        board.wf(),
        search_inv(
            you.head,
            board,
            game_board@,
            you,
            SearchState {
                parents: old(visited)@,
                cost: old(cost_so_far)@,
                queue: queue_contents(*old(frontier)),
            },
        ),
        steps_ranked(
            board,
            game_board@,
            you,
            connection_threshold,
            degree_threshold,
            old(visited)@,
        ),
        old(cost_so_far)@.contains_key(key_of(current_tile)),
    ensures
        steps_ranked(
            board,
            game_board@,
            you,
            connection_threshold,
            degree_threshold,
            final(visited)@,
        ),
        r == (if goal_found(current_tile, game_board@, old(cost_so_far)@, you) {
            Some(current_tile)
        } else {
            None
        }),
        (SearchState {
            parents: final(visited)@,
            cost: final(cost_so_far)@,
            queue: queue_contents(*final(frontier)),
        }) == (if goal_found(current_tile, game_board@, old(cost_so_far)@, you) {
            SearchState {
                parents: old(visited)@,
                cost: old(cost_so_far)@,
                queue: queue_contents(*old(frontier)),
            }
        } else {
            relax_all(
                SearchState {
                    parents: old(visited)@,
                    cost: old(cost_so_far)@,
                    queue: queue_contents(*old(frontier)),
                },
                current_tile,
                ranked_candidates(
                    current_tile,
                    board,
                    game_board@,
                    you,
                    connection_threshold,
                    degree_threshold,
                    true,
                    false,
                    true,
                    future(trail(old(visited)@, current_tile), you.length),
                ),
                board,
                game_board@,
            )
        }),
        search_inv(
            you.head,
            board,
            game_board@,
            you,
            SearchState {
                parents: final(visited)@,
                cost: final(cost_so_far)@,
                queue: queue_contents(*final(frontier)),
            },
        ),
        potential(final(cost_so_far)@, 0x1_0000_0000) <= potential(
            old(cost_so_far)@,
            0x1_0000_0000,
        ),
        queue_contents(*final(frontier)) != queue_contents(*old(frontier)) ==> potential(
            final(cost_so_far)@,
            0x1_0000_0000,
        ) < potential(old(cost_so_far)@, 0x1_0000_0000),
{
    let ghost index = game_board@;
    let ghost s0 = SearchState {
        parents: visited@,
        cost: cost_so_far@,
        queue: queue_contents(*frontier),
    };
    let current_key = tile_key(&current_tile);
    let current_cost: u32 = *cost_so_far.get(&current_key).unwrap();
    if game_board.get(&current_tile).food && current_cost < you.health as u32 {
        return Some(current_tile);
    }
    let current_path = backtrack(current_tile, visited);
    let future_snake_positions = last_tiles(&current_path, you.length);
    let adj_tiles = adj_tiles_connected(
        &current_tile,
        board,
        game_board,
        you,
        &connection_threshold,
        degree_threshold,
        true,
        false,
        true,
        &future_snake_positions,
    );
    proof {
        lemma_candidates_are_moves(
            current_tile,
            board,
            index,
            you,
            connection_threshold,
            degree_threshold,
            true,
            false,
            true,
            future_snake_positions@,
        );
        assert(adj_tiles@.take(0) =~= Seq::<Coord>::empty());
        if current_tile == you.head {
            lemma_key_roundtrip(you.head);
            assert(visited@.dom().len() == 0 || !visited@.contains_key(key_of(current_tile)));
            assert(trail(visited@, current_tile) =~= Seq::<Coord>::empty());
            assert(future_snake_positions@ =~= Seq::<Coord>::empty());
        }
        assert forall|c: Coord| #[trigger] adj_tiles@.contains(c) implies candidate_step(
            current_tile,
            c,
            board,
            index,
            you,
            connection_threshold,
            degree_threshold,
        ) && (current_tile == you.head ==> first_step(
            c,
            board,
            index,
            you,
            connection_threshold,
            degree_threshold,
        )) by {
            assert(ranked_candidates(
                current_tile,
                board,
                index,
                you,
                connection_threshold,
                degree_threshold,
                true,
                false,
                true,
                future_snake_positions@,
            ).contains(c));
        }
    }
    let mut i: usize = 0;
    while i < adj_tiles.len()
        invariant
            0 <= i <= adj_tiles.len(),
            index == game_board@,
            steps_ranked(board, index, you, connection_threshold, degree_threshold, visited@),
            forall|c: Coord| #[trigger]
                adj_tiles@.contains(c) ==> candidate_step(
                    current_tile,
                    c,
                    board,
                    index,
                    you,
                    connection_threshold,
                    degree_threshold,
                ) && (current_tile == you.head ==> first_step(
                    c,
                    board,
                    index,
                    you,
                    connection_threshold,
                    degree_threshold,
                )),
            forall|c: Coord| #[trigger]
                adj_tiles@.contains(c) ==> current_tile.adjacent(c) && board.in_bounds(c)
                    && crate::logic::can_enter(c, board, index, you, true),
            (SearchState {
                parents: visited@,
                cost: cost_so_far@,
                queue: queue_contents(*frontier),
            }) == relax_all(s0, current_tile, adj_tiles@.take(i as int), board, index),
            search_inv(
                you.head,
                board,
                index,
                you,
                SearchState {
                    parents: visited@,
                    cost: cost_so_far@,
                    queue: queue_contents(*frontier),
                },
            ),
            cost_so_far@.contains_key(key_of(current_tile)),
            cost_so_far@[key_of(current_tile)] == current_cost,
            potential(cost_so_far@, 0x1_0000_0000) <= potential(s0.cost, 0x1_0000_0000),
            queue_contents(*frontier) != s0.queue ==> potential(cost_so_far@, 0x1_0000_0000)
                < potential(s0.cost, 0x1_0000_0000),
        decreases adj_tiles.len() - i,
    {
        let tile = adj_tiles[i];
        proof {
            assert(adj_tiles@.contains(tile));
            let t = adj_tiles@.take(i + 1);
            assert(t.drop_last() =~= adj_tiles@.take(i as int));
            assert(t.last() == tile);
        }
        relax_step(
            board,
            game_board,
            you,
            current_tile,
            current_cost,
            tile,
            frontier,
            visited,
            cost_so_far,
            Ghost(connection_threshold),
            Ghost(degree_threshold),
        );
        i = i + 1;
    }
    proof {
        assert(adj_tiles@.take(adj_tiles@.len() as int) =~= adj_tiles@);
    }
    None
}

/// The parent map of the search is rooted at the head, ranked by cost.
proof fn lemma_search_rooted(
    head: Coord,
    board: &Board,
    index: Map<Coord, Flags>,
    you: &Battlesnake,
    s: SearchState,
)
    requires
        search_inv(head, board, index, you, s),
    ensures
        rooted(s.parents, head, |c: Coord| s.cost[key_of(c)] as int),
{
    let rank = |c: Coord| s.cost[key_of(c)] as int;
    assert forall|c: Coord| #[trigger] s.parents.contains_key(key_of(c)) implies s.parents[key_of(
        c,
    )].adjacent(c) && (s.parents[key_of(c)] == head || (s.parents.contains_key(
        key_of(s.parents[key_of(c)]),
    ) && rank(s.parents[key_of(c)]) < rank(c))) by {}
}

/// The way that the parent map holds to a tile costs no more than the
/// tile's cost so far.
proof fn lemma_ascent_cost(
    head: Coord,
    board: &Board,
    index: Map<Coord, Flags>,
    you: &Battlesnake,
    s: SearchState,
    tile: Coord,
    fuel: nat,
)
    requires
        search_inv(head, board, index, you, s),
        s.cost.contains_key(key_of(tile)),
    ensures
        path_cost(ascent(s.parents, tile, fuel).reverse(), index) <= s.cost[key_of(tile)],
    decreases fuel,
{
    let a = ascent(s.parents, tile, fuel);
    if fuel == 0 || !s.parents.contains_key(key_of(tile)) {
        assert(a.reverse() =~= Seq::<Coord>::empty());
    } else {
        let p = s.parents[key_of(tile)];
        let b = ascent(s.parents, p, (fuel - 1) as nat);
        lemma_ascent_cost(head, board, index, you, s, p, (fuel - 1) as nat);
        assert(a.reverse() =~= b.reverse().push(tile));
        assert(a.reverse().drop_last() =~= b.reverse());
    }
}

/// Food lies one step from the head on a tile that the search goes onto
/// from there, and the snake reaches it alive.
pub open spec fn food_next_to_head(
    board: &Board,
    index: Map<Coord, Flags>,
    you: &Battlesnake,
    threshold: Ratio,
    degree_threshold: u8,
) -> bool {
    exists|t: Coord| #[trigger]
        ranked_candidates(
            you.head,
            board,
            index,
            you,
            threshold,
            degree_threshold,
            true,
            false,
            true,
            Seq::<Coord>::empty(),
        ).contains(t) && flags_at(index, t).food && step_cost(index, t) < you.health
}

/// The head has been looked at: it costs nothing and is not queued.
pub open spec fn settled(s: SearchState, head: Coord) -> bool {
    s.cost.contains_key(key_of(head)) && s.cost[key_of(head)] == 0 && !s.queue.contains_key(
        key_of(head),
    )
}

/// Every tile with a cost, but the head, is queued.
pub open spec fn all_queued(s: SearchState, head: Coord) -> bool {
    forall|k: u32| #[trigger] s.cost.contains_key(k) && k != key_of(head) ==> s.queue.contains_key(k)
}

/// A goal waits in the queue: a tile with food that the snake reaches
/// alive.
pub open spec fn pending(index: Map<Coord, Flags>, you: &Battlesnake, s: SearchState) -> bool {
    exists|g: Coord| #[trigger]
        s.queue.contains_key(key_of(g)) && s.cost.contains_key(key_of(g)) && flags_at(
            index,
            g,
        ).food && s.cost[key_of(g)] < you.health
}

/// Looking at one more step leaves the head as it is, and a goal that
/// waits goes on waiting.
proof fn lemma_relax_one_keeps(
    head: Coord,
    board: &Board,
    index: Map<Coord, Flags>,
    you: &Battlesnake,
    s: SearchState,
    cur: Coord,
    t: Coord,
)
    requires
        settled(s, head),
    ensures
        settled(relax_one(s, cur, t, board, index), head),
        pending(index, you, s) ==> pending(index, you, relax_one(s, cur, t, board, index)),
        all_queued(s, head) ==> all_queued(relax_one(s, cur, t, board, index), head),
{
    let r = relax_one(s, cur, t, board, index);
    let nc = s.cost[key_of(cur)] + step_cost(index, t);
    lemma_key_roundtrip(t);
    lemma_key_roundtrip(head);
    if r != s {
        assert(t != head);
        if pending(index, you, s) {
            let g = choose|g: Coord| #[trigger]
                s.queue.contains_key(key_of(g)) && s.cost.contains_key(key_of(g)) && flags_at(
                    index,
                    g,
                ).food && s.cost[key_of(g)] < you.health;
            lemma_key_roundtrip(g);
            assert(r.queue.contains_key(key_of(g)) && r.cost.contains_key(key_of(g)) && flags_at(
                index,
                g,
            ).food && r.cost[key_of(g)] < you.health);
        }
    }
}

/// Looking at more steps leaves the head as it is, and a goal that waits
/// goes on waiting.
proof fn lemma_relax_all_keeps(
    head: Coord,
    board: &Board,
    index: Map<Coord, Flags>,
    you: &Battlesnake,
    s: SearchState,
    cur: Coord,
    cands: Seq<Coord>,
)
    requires
        settled(s, head),
    ensures
        settled(relax_all(s, cur, cands, board, index), head),
        pending(index, you, s) ==> pending(index, you, relax_all(s, cur, cands, board, index)),
        all_queued(s, head) ==> all_queued(relax_all(s, cur, cands, board, index), head),
    decreases cands.len(),
{
    if cands.len() > 0 {
        lemma_relax_all_keeps(head, board, index, you, s, cur, cands.drop_last());
        lemma_relax_one_keeps(
            head,
            board,
            index,
            you,
            relax_all(s, cur, cands.drop_last(), board, index),
            cur,
            cands.last(),
        );
    }
}

/// After the steps from the head were looked at, food on one of the
/// tiles stepped onto waits in the queue, if the snake reaches it alive.
proof fn lemma_head_expanded(
    head: Coord,
    board: &Board,
    index: Map<Coord, Flags>,
    you: &Battlesnake,
    s: SearchState,
    cands: Seq<Coord>,
    t: Coord,
)
    requires
        settled(s, head),
        all_queued(s, head),
        cands.contains(t),
        t != head,
        flags_at(index, t).food,
        step_cost(index, t) < you.health,
    ensures
        pending(index, you, relax_all(s, head, cands, board, index)),
    decreases cands.len(),
{
    let pre = cands.drop_last();
    let before = relax_all(s, head, pre, board, index);
    let after = relax_all(s, head, cands, board, index);
    lemma_relax_all_keeps(head, board, index, you, s, head, pre);
    lemma_relax_one_keeps(head, board, index, you, before, head, cands.last());
    lemma_key_roundtrip(t);
    lemma_key_roundtrip(head);
    if cands.last() == t {
        assert(after.queue.contains_key(key_of(t)) && after.cost.contains_key(key_of(t))
            && flags_at(index, t).food && after.cost[key_of(t)] < you.health);
    } else {
        let i = choose|i: int| 0 <= i < cands.len() && cands[i] == t;
        assert(pre[i] == t);
        lemma_head_expanded(head, board, index, you, s, pre, t);
    }
}

/// The first step of the search: with the head alone known, the steps
/// from it are looked at.
proof fn lemma_first_step(
    board: &Board,
    index: Map<Coord, Flags>,
    you: &Battlesnake,
    threshold: Ratio,
    degree_threshold: u8,
    s: SearchState,
)
    requires
        s.parents == Map::<u32, Coord>::empty(),
        s.cost == Map::<u32, u32>::empty().insert(key_of(you.head), 0u32),
        s.queue == Map::<u32, (i64, u32)>::empty(),
    ensures
        ({
            let next = relax_all(
                s,
                you.head,
                ranked_candidates(
                    you.head,
                    board,
                    index,
                    you,
                    threshold,
                    degree_threshold,
                    true,
                    false,
                    true,
                    future(trail(s.parents, you.head), you.length),
                ),
                board,
                index,
            );
            &&& settled(next, you.head)
            &&& food_next_to_head(board, index, you, threshold, degree_threshold) ==> pending(
                index,
                you,
                next,
            )
        }),
{
    let none = Seq::<Coord>::empty();
    assert(s.parents.dom() =~= Set::<u32>::empty());
    assert(trail(s.parents, you.head) =~= none);
    assert(future(trail(s.parents, you.head), you.length) =~= none);
    let cands = ranked_candidates(
        you.head,
        board,
        index,
        you,
        threshold,
        degree_threshold,
        true,
        false,
        true,
        none,
    );
    lemma_relax_all_keeps(you.head, board, index, you, s, you.head, cands);
    if food_next_to_head(board, index, you, threshold, degree_threshold) {
        let t = choose|t: Coord| #[trigger]
            cands.contains(t) && flags_at(index, t).food && step_cost(index, t) < you.health;
        lemma_candidates_are_moves(
            you.head,
            board,
            index,
            you,
            threshold,
            degree_threshold,
            true,
            false,
            true,
            none,
        );
        assert(you.head.adjacent(t));
        assert(t != you.head) by {
            assert(you.head.dist2(you.head) == 0) by (nonlinear_arith);
        }
        lemma_head_expanded(you.head, board, index, you, s, cands, t);
    }
}

/// A later step of the search: a tile other than a goal came out of the
/// queue, and the steps from it are looked at.
proof fn lemma_later_step(
    board: &Board,
    index: Map<Coord, Flags>,
    you: &Battlesnake,
    s: SearchState,
    k: u32,
    cands: Seq<Coord>,
)
    requires
        settled(s, you.head),
        s.queue.contains_key(k),
        !goal_found(coord_of(k), index, s.cost, you),
    ensures
        ({
            let popped = SearchState { parents: s.parents, cost: s.cost, queue: s.queue.remove(k) };
            let next = relax_all(popped, coord_of(k), cands, board, index);
            &&& settled(next, you.head)
            &&& pending(index, you, s) ==> pending(index, you, next)
        }),
{
    let popped = SearchState { parents: s.parents, cost: s.cost, queue: s.queue.remove(k) };
    lemma_coord_roundtrip(k);
    if pending(index, you, s) {
        let g = choose|g: Coord| #[trigger]
            s.queue.contains_key(key_of(g)) && s.cost.contains_key(key_of(g)) && flags_at(
                index,
                g,
            ).food && s.cost[key_of(g)] < you.health;
        lemma_key_roundtrip(g);
        assert(key_of(g) != k);
        assert(popped.queue.contains_key(key_of(g)) && popped.cost.contains_key(key_of(g))
            && flags_at(index, g).food && popped.cost[key_of(g)] < you.health);
    }
    lemma_relax_all_keeps(you.head, board, index, you, popped, coord_of(k), cands);
}

/// With the tiles `planned` barred, every ranked candidate of `c` has a
/// cost, and no more than that of `c` and the step onto it.
pub open spec fn covers(
    c: Coord,
    planned: Seq<Coord>,
    board: &Board,
    index: Map<Coord, Flags>,
    you: &Battlesnake,
    threshold: Ratio,
    degree_threshold: u8,
    cost: Map<u32, u32>,
) -> bool {
    forall|t: Coord| #[trigger]
        ranked_candidates(
            c,
            board,
            index,
            you,
            threshold,
            degree_threshold,
            true,
            false,
            true,
            planned,
        ).contains(t) ==> cost.contains_key(key_of(t)) && cost[key_of(t)] <= cost[key_of(c)]
            + step_cost(index, t)
}

/// The search is done with `c`: it is no goal, and the steps from it
/// were looked at.
pub open spec fn looked_at(
    c: Coord,
    board: &Board,
    index: Map<Coord, Flags>,
    you: &Battlesnake,
    threshold: Ratio,
    degree_threshold: u8,
    cost: Map<u32, u32>,
) -> bool {
    !goal_found(c, index, cost, you) && exists|planned: Seq<Coord>| #[trigger]
        covers(c, planned, board, index, you, threshold, degree_threshold, cost)
}

/// The search is done with every tile that has a cost and is not
/// queued.
pub open spec fn exhausted(
    board: &Board,
    index: Map<Coord, Flags>,
    you: &Battlesnake,
    threshold: Ratio,
    degree_threshold: u8,
    s: SearchState,
) -> bool {
    forall|c: Coord| #[trigger]
        s.cost.contains_key(key_of(c)) && !s.queue.contains_key(key_of(c)) ==> looked_at(
            c,
            board,
            index,
            you,
            threshold,
            degree_threshold,
            s.cost,
        )
}

/// The costs of a search that ran out: the head costs nothing, no tile
/// with a cost holds food that the snake reaches alive, and from every
/// tile with a cost the steps onto its ranked candidates lead to tiles
/// with a cost.
pub open spec fn dead_end(
    cost: Map<u32, u32>,
    board: &Board,
    index: Map<Coord, Flags>,
    you: &Battlesnake,
    threshold: Ratio,
    degree_threshold: u8,
) -> bool {
    &&& cost.contains_key(key_of(you.head))
    &&& cost[key_of(you.head)] == 0
    &&& forall|c: Coord| #[trigger]
        cost.contains_key(key_of(c)) ==> looked_at(
            c,
            board,
            index,
            you,
            threshold,
            degree_threshold,
            cost,
        )
}

/// Looking at a step lowers costs only, queues what it lowers, and
/// leaves the tile stepped onto at no more than the cost of the step.
proof fn lemma_relax_one_lowers(
    s: SearchState,
    cur: Coord,
    t: Coord,
    board: &Board,
    index: Map<Coord, Flags>,
)
    requires
        s.cost[key_of(cur)] + step_cost(index, t) <= u32::MAX,
    ensures
        forall|k: u32| #[trigger]
            s.cost.contains_key(k) ==> relax_one(s, cur, t, board, index).cost.contains_key(k)
                && relax_one(s, cur, t, board, index).cost[k] <= s.cost[k],
        forall|k: u32| #[trigger]
            relax_one(s, cur, t, board, index).cost.contains_key(k) && !(s.cost.contains_key(k)
                && relax_one(s, cur, t, board, index).cost[k] == s.cost[k]) ==> relax_one(
                s,
                cur,
                t,
                board,
                index,
            ).queue.contains_key(k),
        forall|k: u32| #[trigger]
            s.queue.contains_key(k) ==> relax_one(s, cur, t, board, index).queue.contains_key(k),
        forall|k: u32| #[trigger]
            relax_one(s, cur, t, board, index).queue.contains_key(k) ==> s.queue.contains_key(k)
                || k == key_of(t),
        relax_one(s, cur, t, board, index).cost.contains_key(key_of(t)),
        relax_one(s, cur, t, board, index).cost[key_of(t)] <= s.cost[key_of(cur)] + step_cost(
            index,
            t,
        ),
{
}

/// After the steps from a tile that came out of the queue were looked
/// at, the search is done with it, and with every tile it was done with
/// before.
proof fn lemma_relax_all_exhausts(
    head: Coord,
    board: &Board,
    index: Map<Coord, Flags>,
    you: &Battlesnake,
    threshold: Ratio,
    degree_threshold: u8,
    s: SearchState,
    cur: Coord,
    cands: Seq<Coord>,
)
    requires
        search_inv(head, board, index, you, s),
        s.cost.contains_key(key_of(cur)),
        !s.queue.contains_key(key_of(cur)),
        forall|c: Coord| #[trigger]
            cands.contains(c) ==> cur.adjacent(c) && board.in_bounds(c) && crate::logic::can_enter(
                c,
                board,
                index,
                you,
                true,
            ),
        forall|c: Coord| #[trigger]
            s.cost.contains_key(key_of(c)) && !s.queue.contains_key(key_of(c)) && c != cur
                ==> looked_at(c, board, index, you, threshold, degree_threshold, s.cost),
    ensures
        ({
            let r = relax_all(s, cur, cands, board, index);
            &&& search_inv(head, board, index, you, r)
            &&& r.cost.contains_key(key_of(cur))
            &&& r.cost[key_of(cur)] == s.cost[key_of(cur)]
            &&& !r.queue.contains_key(key_of(cur))
            &&& forall|c: Coord| #[trigger]
                r.cost.contains_key(key_of(c)) && !r.queue.contains_key(key_of(c)) && c != cur
                    ==> looked_at(c, board, index, you, threshold, degree_threshold, r.cost)
            &&& forall|t: Coord| #[trigger]
                cands.contains(t) ==> r.cost.contains_key(key_of(t)) && r.cost[key_of(t)]
                    <= s.cost[key_of(cur)] + step_cost(index, t)
        }),
    decreases cands.len(),
{
    if cands.len() > 0 {
        let pre = cands.drop_last();
        let t = cands.last();
        assert forall|c: Coord| #[trigger] pre.contains(c) implies cands.contains(c) by {
            let i = choose|i: int| 0 <= i < pre.len() && pre[i] == c;
            assert(cands[i] == c);
        }
        assert(cands[cands.len() - 1] == t);
        assert(cands.contains(t));
        lemma_relax_all_exhausts(
            head,
            board,
            index,
            you,
            threshold,
            degree_threshold,
            s,
            cur,
            pre,
        );
        let m = relax_all(s, cur, pre, board, index);
        let r = relax_one(m, cur, t, board, index);
        lemma_relax_one(head, board, index, you, m, cur, t);
        lemma_relax_one_lowers(m, cur, t, board, index);
        lemma_key_roundtrip(cur);
        lemma_key_roundtrip(t);
        assert(cur != t) by {
            assert(cur.dist2(cur) == 0) by (nonlinear_arith);
        }
        assert forall|c: Coord| #[trigger]
            r.cost.contains_key(key_of(c)) && !r.queue.contains_key(key_of(c)) && c
                != cur implies looked_at(
            c,
            board,
            index,
            you,
            threshold,
            degree_threshold,
            r.cost,
        ) by {
            assert(m.cost.contains_key(key_of(c)) && r.cost[key_of(c)] == m.cost[key_of(c)]);
            assert(!m.queue.contains_key(key_of(c)));
            assert(looked_at(c, board, index, you, threshold, degree_threshold, m.cost));
            let planned = choose|planned: Seq<Coord>| #[trigger]
                covers(c, planned, board, index, you, threshold, degree_threshold, m.cost);
            assert(covers(c, planned, board, index, you, threshold, degree_threshold, r.cost));
        }
        assert forall|x: Coord| #[trigger] cands.contains(x) implies r.cost.contains_key(
            key_of(x),
        ) && r.cost[key_of(x)] <= s.cost[key_of(cur)] + step_cost(index, x) by {
            if x != t {
                let i = choose|i: int| 0 <= i < cands.len() && cands[i] == x;
                assert(pre[i] == x);
                assert(pre.contains(x));
            } else {
            }
        }
    }
}

/// A step of the search keeps it done with the tiles that it was done
/// with, and is done with the tile that came out of the queue.
proof fn lemma_step_exhausts(
    board: &Board,
    index: Map<Coord, Flags>,
    you: &Battlesnake,
    threshold: Ratio,
    degree_threshold: u8,
    s: SearchState,
    k: u32,
    planned: Seq<Coord>,
)
    requires
        search_inv(you.head, board, index, you, s),
        exhausted(board, index, you, threshold, degree_threshold, s),
        s.queue.contains_key(k),
        !goal_found(coord_of(k), index, s.cost, you),
    ensures
        exhausted(
            board,
            index,
            you,
            threshold,
            degree_threshold,
            relax_all(
                SearchState { parents: s.parents, cost: s.cost, queue: s.queue.remove(k) },
                coord_of(k),
                ranked_candidates(
                    coord_of(k),
                    board,
                    index,
                    you,
                    threshold,
                    degree_threshold,
                    true,
                    false,
                    true,
                    planned,
                ),
                board,
                index,
            ),
        ),
{
    let cur = coord_of(k);
    let popped = SearchState { parents: s.parents, cost: s.cost, queue: s.queue.remove(k) };
    let cands = ranked_candidates(
        cur,
        board,
        index,
        you,
        threshold,
        degree_threshold,
        true,
        false,
        true,
        planned,
    );
    lemma_coord_roundtrip(k);
    lemma_candidates_are_moves(
        cur,
        board,
        index,
        you,
        threshold,
        degree_threshold,
        true,
        false,
        true,
        planned,
    );
    assert(popped.queue.dom() =~= s.queue.dom().remove(k));
    assert(search_inv(you.head, board, index, you, popped));
    assert forall|c: Coord| #[trigger]
        popped.cost.contains_key(key_of(c)) && !popped.queue.contains_key(key_of(c)) && c
            != cur implies looked_at(
        c,
        board,
        index,
        you,
        threshold,
        degree_threshold,
        popped.cost,
    ) by {
        lemma_key_roundtrip(c);
        assert(!s.queue.contains_key(key_of(c)));
    }
    lemma_relax_all_exhausts(
        you.head,
        board,
        index,
        you,
        threshold,
        degree_threshold,
        popped,
        cur,
        cands,
    );
    let r = relax_all(popped, cur, cands, board, index);
    assert(covers(cur, planned, board, index, you, threshold, degree_threshold, r.cost));
    assert(looked_at(cur, board, index, you, threshold, degree_threshold, r.cost));
}

/// The item that comes out of the queue next: the one of the greatest
/// priority.
pub open spec fn top_of(queue: Map<u32, (i64, u32)>) -> u32 {
    choose|k: u32|
        queue.contains_key(k) && forall|j: u32| #[trigger]
            queue.contains_key(j) ==> prio_le(queue[j], queue[k])
}

/// Where every item is queued with its own key as the second number of
/// its priority, only one item is of the greatest priority.
proof fn lemma_top(queue: Map<u32, (i64, u32)>, k: u32)
    requires
        queue.contains_key(k),
        forall|j: u32| #[trigger] queue.contains_key(j) ==> prio_le(queue[j], queue[k]),
        forall|j: u32| #[trigger] queue.contains_key(j) ==> queue[j].1 == j,
    ensures
        top_of(queue) == k,
{
    let t = top_of(queue);
    assert(queue.contains_key(t) && prio_le(queue[k], queue[t]));
    assert(prio_le(queue[t], queue[k]));
}

/// The state in which the search starts: the head alone is known, at no
/// cost, and queued.
pub open spec fn first_state(head: Coord) -> SearchState {
    SearchState {
        parents: Map::<u32, Coord>::empty(),
        cost: Map::<u32, u32>::empty().insert(key_of(head), 0u32),
        queue: Map::<u32, (i64, u32)>::empty().insert(key_of(head), (0i64, key_of(head))),
    }
}

/// More steps than any search from `head` takes.
pub open spec fn search_fuel(head: Coord) -> nat {
    (potential(first_state(head).cost, 0x1_0000_0000) * 65027 + 2) as nat
}

/// The search from the state given, for at most `fuel` steps: the way to
/// the goal that it ends at, or no way where the queue runs out first.
///
/// The tile of the greatest priority is taken from the queue. Where it
/// holds food that the snake reaches alive, the way to it is read from
/// the parent map. Else the steps from it onto its ranked candidates
/// are looked at, the body that the snake will have on the way to it
/// barred.
#[verifier::opaque]
pub open spec fn food_search(
    board: &Board,
    index: Map<Coord, Flags>,
    you: &Battlesnake,
    threshold: Ratio,
    degree_threshold: u8,
    s: SearchState,
    fuel: nat,
) -> Seq<Coord>
    decreases fuel,
{
    if fuel == 0 || s.queue.dom().is_empty() {
        seq![]
    } else {
        let k = top_of(s.queue);
        let current = coord_of(k);
        if goal_found(current, index, s.cost, you) {
            trail(s.parents, current)
        } else {
            food_search(
                board,
                index,
                you,
                threshold,
                degree_threshold,
                relax_all(
                    SearchState { parents: s.parents, cost: s.cost, queue: s.queue.remove(k) },
                    current,
                    ranked_candidates(
                        current,
                        board,
                        index,
                        you,
                        threshold,
                        degree_threshold,
                        true,
                        false,
                        true,
                        future(trail(s.parents, current), you.length),
                    ),
                    board,
                    index,
                ),
                (fuel - 1) as nat,
            )
        }
    }
}

/// The way to food that the search finds.
pub open spec fn food_way(
    board: &Board,
    index: Map<Coord, Flags>,
    you: &Battlesnake,
    threshold: Ratio,
    degree_threshold: u8,
) -> Seq<Coord> {
    food_search(
        board,
        index,
        you,
        threshold,
        degree_threshold,
        first_state(you.head),
        search_fuel(you.head),
    )
}

/// The queue holds no more tiles than have a cost.
proof fn lemma_queue_bound(
    head: Coord,
    board: &Board,
    index: Map<Coord, Flags>,
    you: &Battlesnake,
    s: SearchState,
)
    requires
        search_inv(head, board, index, you, s),
    ensures
        s.queue.dom().len() <= 65026,
{
    lemma_dom_bound(s.cost.dom(), head, board);
    assert(s.queue.dom().subset_of(s.cost.dom()));
    lemma_len_subset(s.queue.dom(), s.cost.dom());
}

/// The way read from the parent map of the search: it runs over tiles
/// next to each other that the snake may enter, no tile twice and never
/// the head, from next to the head to the tile, at no more than the
/// tile's cost.
proof fn lemma_found_way(
    head: Coord,
    board: &Board,
    index: Map<Coord, Flags>,
    you: &Battlesnake,
    threshold: Ratio,
    degree_threshold: u8,
    s: SearchState,
    goal: Coord,
)
    requires
        head == you.head,
        search_inv(head, board, index, you, s),
        steps_ranked(board, index, you, threshold, degree_threshold, s.parents),
        s.cost.contains_key(key_of(goal)),
    ensures
        ({
            let path = trail(s.parents, goal);
            &&& forall|i: int|
                1 <= i < path.len() ==> candidate_step(
                    path[i - 1],
                    #[trigger] path[i],
                    board,
                    index,
                    you,
                    threshold,
                    degree_threshold,
                )
            &&& path.len() > 0 ==> first_step(
                path[0],
                board,
                index,
                you,
                threshold,
                degree_threshold,
            )
            &&& forall|i: int| 1 <= i < path.len() ==> path[i - 1].adjacent(#[trigger] path[i])
            &&& forall|i: int|
                0 <= i < path.len() ==> crate::logic::can_enter(
                    #[trigger] path[i],
                    board,
                    index,
                    you,
                    true,
                )
            &&& path.len() > 0 ==> head.adjacent(path[0]) && path.last() == goal
            &&& path_cost(path, index) <= s.cost[key_of(goal)]
            &&& !path.contains(head)
            &&& path.no_duplicates()
            &&& (path.len() > 0) == (goal != head)
        }),
{
    let rank = |c: Coord| s.cost[key_of(c)] as int;
    let path = trail(s.parents, goal);
    lemma_search_rooted(head, board, index, you, s);
    lemma_trail(s.parents, head, rank, goal);
    lemma_trail_no_duplicates(s.parents, head, rank, goal);
    lemma_ascent_cost(head, board, index, you, s, goal, s.parents.dom().len());
    lemma_key_roundtrip(goal);
    lemma_key_roundtrip(head);
    if path.contains(head) {
        let i = choose|i: int| 0 <= i < path.len() && path[i] == head;
        assert(s.parents.contains_key(key_of(path[i])));
    }
    assert forall|i: int| 1 <= i < path.len() implies candidate_step(
        path[i - 1],
        #[trigger] path[i],
        board,
        index,
        you,
        threshold,
        degree_threshold,
    ) by {
        assert(s.parents.contains_key(key_of(path[i])));
        assert(path[i - 1] == s.parents[key_of(path[i])]);
    }
    if path.len() > 0 {
        assert(s.parents.contains_key(key_of(path[0])));
    }
}

/// The shortest way to food that the snake reaches alive, as the search
/// finds it: from the tile after the head to the food. Empty where the
/// search finds none, and where the head itself stands on food.
///
/// A step costs one, and sixteen onto a hazard. Tiles are looked at in
/// the order of their cost plus their distance to the nearest food, and
/// among equals the tile farther right, then farther up, first. The
/// search goes only onto ranked candidates, and never onto the body that
/// the snake will have on that way. Food one step from the head on such
/// a candidate, within the snake's health, is enough for a way to be
/// found. Where the search runs out, the costs that it leaves are a
/// dead end: closed under steps onto candidates, and without a goal.
#[verifier::rlimit(60)]
pub fn a_star(
    board: &Board,
    game_board: &GameBoard,
    you: &Battlesnake,
    connection_threshold: Ratio,
    degree_threshold: u8,
) -> (path: Vec<Coord>)
    requires
        board.wf(),
    ensures
        path@ == food_way(board, game_board@, you, connection_threshold, degree_threshold),
        forall|i: int| 1 <= i < path@.len() ==> path@[i - 1].adjacent(#[trigger] path@[i]),
        forall|i: int|
            0 <= i < path@.len() ==> crate::logic::can_enter(
                #[trigger] path@[i],
                board,
                game_board@,
                you,
                true,
            ),
        path@.len() > 0 ==> you.head.adjacent(path@[0]),
        path@.len() > 0 ==> flags_at(game_board@, path@.last()).food,
        path@.len() > 0 ==> path_cost(path@, game_board@) < you.health,
        !path@.contains(you.head),
        path@.no_duplicates(),
        forall|i: int|
            1 <= i < path@.len() ==> candidate_step(
                path@[i - 1],
                #[trigger] path@[i],
                board,
                game_board@,
                you,
                connection_threshold,
                degree_threshold,
            ),
        path@.len() > 0 ==> first_step(
            path@[0],
            board,
            game_board@,
            you,
            connection_threshold,
            degree_threshold,
        ),
        flags_at(game_board@, you.head).food && you.health > 0 ==> path@.len() == 0,
        path@.len() == 0 && !(flags_at(game_board@, you.head).food && you.health > 0)
            ==> exists|cost: Map<u32, u32>| #[trigger]
            dead_end(cost, board, game_board@, you, connection_threshold, degree_threshold),
        !(flags_at(game_board@, you.head).food && you.health > 0) && food_next_to_head(
            board,
            game_board@,
            you,
            connection_threshold,
            degree_threshold,
        ) ==> path@.len() > 0,
{
    let ghost index = game_board@;
    let mut frontier = queue_new();
    let head_key = tile_key(&you.head);
    let ghost empty_queue = queue_contents(frontier);
    assert(empty_queue =~= Map::<u32, (i64, u32)>::empty());
    queue_push(&mut frontier, head_key, (0, head_key));
    let mut visited: HashMap<u32, Coord> = HashMap::new();
    let mut cost_so_far: HashMap<u32, u32> = HashMap::new();
    cost_so_far.insert(head_key, 0);
    let ghost mut fuel: nat = search_fuel(you.head);
    let ghost whole = food_way(board, index, you, connection_threshold, degree_threshold);
    proof {
        assert(cost_so_far@.dom() =~= Set::<u32>::empty().insert(head_key));
        assert(queue_contents(frontier).dom() =~= Set::<u32>::empty().insert(head_key));
        assert forall|c: Coord| #[trigger] cost_so_far@.contains_key(key_of(c)) implies c
            == you.head by {
            lemma_key_roundtrip(c);
            lemma_key_roundtrip(you.head);
        }
        assert(visited@ =~= first_state(you.head).parents);
        assert(cost_so_far@ =~= first_state(you.head).cost);
        assert(queue_contents(frontier) =~= first_state(you.head).queue);
        lemma_potential_nonneg(cost_so_far@, 0x1_0000_0000);
    }
    let ghost mut started = false;
    loop
        invariant
            board.wf(),
            index == game_board@,
            head_key == key_of(you.head),
            search_inv(
                you.head,
                board,
                index,
                you,
                SearchState {
                    parents: visited@,
                    cost: cost_so_far@,
                    queue: queue_contents(frontier),
                },
            ),
            steps_ranked(board, index, you, connection_threshold, degree_threshold, visited@),
            exhausted(
                board,
                index,
                you,
                connection_threshold,
                degree_threshold,
                SearchState {
                    parents: visited@,
                    cost: cost_so_far@,
                    queue: queue_contents(frontier),
                },
            ),
            whole == food_way(board, index, you, connection_threshold, degree_threshold),
            whole == food_search(
                board,
                index,
                you,
                connection_threshold,
                degree_threshold,
                SearchState {
                    parents: visited@,
                    cost: cost_so_far@,
                    queue: queue_contents(frontier),
                },
                fuel,
            ),
            fuel >= potential(cost_so_far@, 0x1_0000_0000) * 65027 + queue_contents(
                frontier,
            ).dom().len() + 1,
            !started ==> (SearchState {
                parents: visited@,
                cost: cost_so_far@,
                queue: queue_contents(frontier),
            }) == first_state(you.head),
            started ==> !(flags_at(index, you.head).food && you.health > 0),
            started ==> settled(
                SearchState {
                    parents: visited@,
                    cost: cost_so_far@,
                    queue: queue_contents(frontier),
                },
                you.head,
            ),
            started && food_next_to_head(
                board,
                index,
                you,
                connection_threshold,
                degree_threshold,
            ) ==> pending(
                index,
                you,
                SearchState {
                    parents: visited@,
                    cost: cost_so_far@,
                    queue: queue_contents(frontier),
                },
            ),
        decreases potential(cost_so_far@, 0x1_0000_0000), queue_contents(frontier).dom().len(),
    {
        let ghost q0 = queue_contents(frontier);
        let ghost c0 = cost_so_far@;
        let ghost v0 = visited@;
        let ghost before = SearchState { parents: v0, cost: c0, queue: q0 };
        proof {
            lemma_potential_nonneg(cost_so_far@, 0x1_0000_0000);
            reveal(food_search);
        }
        let popped = queue_pop(&mut frontier);
        let ghost key: u32 = 0;
        let current_tile = match popped {
            Some((k, _)) => {
                proof {
                    key = k;
                    lemma_coord_roundtrip(k);
                    lemma_key_roundtrip(you.head);
                    lemma_top(q0, k);
                    assert(queue_contents(frontier).dom() =~= q0.dom().remove(k));
                    assert(q0.dom().contains(k));
                    assert(q0.dom().remove(k).len() == q0.dom().len() - 1);
                }
                key_tile(k)
            },
            None => {
                proof {
                    if !started {
                        assert(q0.contains_key(head_key));
                    }
                    assert(q0.dom() =~= Set::<u32>::empty());
                    assert(whole =~= Seq::<Coord>::empty());
                    assert(dead_end(
                        c0,
                        board,
                        index,
                        you,
                        connection_threshold,
                        degree_threshold,
                    ));
                }
                return Vec::new();
            },
        };
        let ghost q1 = queue_contents(frontier);
        proof {
            assert(!q0.dom().is_empty());
            if !started {
                assert(key == head_key);
                assert(current_tile == you.head);
                assert(q1 =~= Map::<u32, (i64, u32)>::empty());
            }
        }
        let found = a_star_logic(
            board,
            game_board,
            you,
            current_tile,
            &mut frontier,
            &mut visited,
            &mut cost_so_far,
            connection_threshold,
            degree_threshold,
        );
        match found {
            Some(goal) => {
                let path = backtrack(goal, &visited);
                proof {
                    let s = SearchState {
                        parents: visited@,
                        cost: cost_so_far@,
                        queue: queue_contents(frontier),
                    };
                    lemma_found_way(
                        you.head,
                        board,
                        index,
                        you,
                        connection_threshold,
                        degree_threshold,
                        s,
                        goal,
                    );
                    if !started {
                        assert(path@ =~= Seq::<Coord>::empty());
                    } else {
                        assert(goal != you.head);
                    }
                }
                return path;
            },
            None => {
                proof {
                    let cands = ranked_candidates(
                        current_tile,
                        board,
                        index,
                        you,
                        connection_threshold,
                        degree_threshold,
                        true,
                        false,
                        true,
                        future(trail(v0, current_tile), you.length),
                    );
                    let popped_state = SearchState { parents: v0, cost: c0, queue: q1 };
                    lemma_step_exhausts(
                        board,
                        index,
                        you,
                        connection_threshold,
                        degree_threshold,
                        before,
                        key,
                        future(trail(v0, current_tile), you.length),
                    );
                    if !started {
                        lemma_first_step(
                            board,
                            index,
                            you,
                            connection_threshold,
                            degree_threshold,
                            popped_state,
                        );
                    } else {
                        lemma_later_step(board, index, you, before, key, cands);
                    }
                    started = true;
                    let after = SearchState {
                        parents: visited@,
                        cost: cost_so_far@,
                        queue: queue_contents(frontier),
                    };
                    lemma_queue_bound(you.head, board, index, you, after);
                    lemma_queue_bound(you.head, board, index, you, before);
                    assert(q1.dom().len() == q0.dom().len() - 1);
                    if queue_contents(frontier) == q1 {
                        assert(queue_contents(frontier).dom().len() < q0.dom().len());
                    } else {
                        assert(potential(cost_so_far@, 0x1_0000_0000) < potential(c0, 0x1_0000_0000));
                    }
                    lemma_potential_nonneg(cost_so_far@, 0x1_0000_0000);
                    fuel = (fuel - 1) as nat;
                }
            },
        }
    }
}

} // verus!
