//! The depth-first search for a long way to a tile: it goes first where
//! the goal is farthest, to use up as much of the board as it can.

use crate::index::{key_of, lemma_key_roundtrip, tile_key, GameBoard};
use crate::logic::can_enter;
use crate::rank::{
    adj_tiles_connected, lemma_candidates_are_moves, lemma_candidates_len, lemma_dist2_bound,
    lemma_sorted, ranked_candidates, sort_ranked, sorted, tiles_of, Ranked,
};
use crate::search::astar::{future, last_tiles};
use crate::search::graph::lemma_inbounds_keys;
use crate::tree::{
    ascent, backtrack, lemma_adjacent_symmetric, lemma_trail, lemma_trail_no_duplicates, rooted,
    trail,
};
use crate::types::{Battlesnake, Board, Coord, Flags, Ratio};
use std::collections::HashMap;
use vstd::prelude::*;

verus! {

broadcast use vstd::std_specs::hash::group_hash_axioms;

/// The tiles ranked by their distance to `goal` alone: the farther, the
/// lower.
pub open spec fn by_distance(tiles: Seq<Coord>, goal: Coord) -> Seq<Ranked> {
    Seq::new(
        tiles.len(),
        |i: int| Ranked { tile: tiles[i], conn: 0, major: (-goal.dist2(tiles[i])) as i64, minor: 0 },
    )
}

/// The tiles, the farthest from `goal` first; tiles equally far keep
/// their order.
pub open spec fn farthest_first(tiles: Seq<Coord>, goal: Coord) -> Seq<Coord> {
    tiles_of(sorted(by_distance(tiles, goal)))
}

/// The tiles to try from `from`, in the order of trying: its ranked
/// candidates, the body that the snake will have on the way to `from`
/// barred, the farthest from the goal first.
pub open spec fn tries_from(
    goal: Coord,
    from: Coord,
    board: &Board,
    index: Map<Coord, Flags>,
    you: &Battlesnake,
    threshold: Ratio,
    degree_threshold: u8,
    parents: Map<u32, Coord>,
) -> Seq<Coord> {
    farthest_first(
        ranked_candidates(
            from,
            board,
            index,
            you,
            threshold,
            degree_threshold,
            true,
            false,
            true,
            future(trail(parents, from), you.length),
        ),
        goal,
    )
}

/// The stack after the steps from `from` onto `tiles` were put on it,
/// the last tile first, so that the first comes off first.
pub open spec fn put_up(stack: Seq<(Coord, Coord)>, tiles: Seq<Coord>, from: Coord) -> Seq<
    (Coord, Coord),
>
    decreases tiles.len(),
{
    if tiles.len() == 0 {
        stack
    } else {
        put_up(stack.push((tiles.last(), from)), tiles.drop_last(), from)
    }
}

/// The search from the state given: the parent map at the moment the
/// goal is found, or `None` where the steps run out first.
///
/// The step on top of the stack is taken off. A step onto the head or
/// onto a tile found before is dropped. Else the tile is put under where
/// the step came from. Where it is the goal, or next to it, the search
/// ends, the goal put under the tile. Else the steps from the tile are
/// put on the stack.
#[verifier::opaque]
pub open spec fn search_from(
    goal: Coord,
    board: &Board,
    index: Map<Coord, Flags>,
    you: &Battlesnake,
    threshold: Ratio,
    degree_threshold: u8,
    parents: Map<u32, Coord>,
    stack: Seq<(Coord, Coord)>,
    fuel: nat,
) -> Option<Map<u32, Coord>>
    decreases fuel,
{
    if fuel == 0 || stack.len() == 0 {
        None
    } else {
        let tile = stack.last().0;
        let from = stack.last().1;
        let rest = stack.drop_last();
        if tile == you.head || parents.contains_key(key_of(tile)) {
            search_from(
                goal,
                board,
                index,
                you,
                threshold,
                degree_threshold,
                parents,
                rest,
                (fuel - 1) as nat,
            )
        } else {
            let found = parents.insert(key_of(tile), from);
            if tile == goal {
                Some(found)
            } else if tile.dist2(goal) <= 1 {
                Some(found.insert(key_of(goal), tile))
            } else {
                search_from(
                    goal,
                    board,
                    index,
                    you,
                    threshold,
                    degree_threshold,
                    found,
                    put_up(
                        rest,
                        tries_from(
                            goal,
                            tile,
                            board,
                            index,
                            you,
                            threshold,
                            degree_threshold,
                            found,
                        ),
                        tile,
                    ),
                    (fuel - 1) as nat,
                )
            }
        }
    }
}

/// The long way to `goal`. On the goal there is none; next to it, it is
/// the goal alone. Else it is read from the parent map of the search
/// that starts with the steps from the head; empty where that search
/// does not find the goal.
pub open spec fn long_way(
    goal: Coord,
    board: &Board,
    index: Map<Coord, Flags>,
    you: &Battlesnake,
    threshold: Ratio,
    degree_threshold: u8,
) -> Seq<Coord> {
    if you.head == goal {
        seq![]
    } else if you.head.dist2(goal) <= 1 {
        seq![goal]
    } else {
        match search_from(
            goal,
            board,
            index,
            you,
            threshold,
            degree_threshold,
            Map::<u32, Coord>::empty(),
            put_up(
                Seq::<(Coord, Coord)>::empty(),
                tries_from(
                    goal,
                    you.head,
                    board,
                    index,
                    you,
                    threshold,
                    degree_threshold,
                    Map::<u32, Coord>::empty(),
                ),
                you.head,
            ),
            (4 * board.area() + 5) as nat,
        ) {
            Some(parents) => trail(parents, goal),
            None => seq![],
        }
    }
}

proof fn lemma_put_up_len(stack: Seq<(Coord, Coord)>, tiles: Seq<Coord>, from: Coord)
    ensures
        put_up(stack, tiles, from).len() == stack.len() + tiles.len(),
    decreases tiles.len(),
{
    if tiles.len() > 0 {
        lemma_put_up_len(stack.push((tiles.last(), from)), tiles.drop_last(), from);
    }
}

/// What holds of the search: the tiles found so far, each with its
/// parent and the count at which it was found, and the steps that wait
/// to be tried.
pub open spec fn dfs_inv(
    head: Coord,
    goal: Coord,
    board: &Board,
    parents: Map<u32, Coord>,
    order: Map<u32, int>,
    stack: Seq<(Coord, Coord)>,
) -> bool {
    &&& parents.dom().finite()
    &&& !parents.contains_key(key_of(head))
    &&& !parents.contains_key(key_of(goal))
    &&& forall|c: Coord| #[trigger]
        parents.contains_key(key_of(c)) ==> board.in_bounds(c) && parents[key_of(c)].adjacent(c)
            && 0 <= order[key_of(c)] < parents.dom().len() && (parents[key_of(c)] == head || (
        parents.contains_key(key_of(parents[key_of(c)])) && order[key_of(parents[key_of(c)])]
            < order[key_of(c)]))
    &&& forall|i: int|
        0 <= i < stack.len() ==> (#[trigger] stack[i]).1.adjacent(stack[i].0) && board.in_bounds(
            stack[i].0,
        ) && (stack[i].1 == head || parents.contains_key(key_of(stack[i].1)))
}

/// Every tile found, and every tile that a step waits to be tried onto,
/// is one that the snake may enter.
pub open spec fn dfs_legal(
    board: &Board,
    index: Map<Coord, Flags>,
    you: &Battlesnake,
    parents: Map<u32, Coord>,
    stack: Seq<(Coord, Coord)>,
) -> bool {
    &&& forall|c: Coord| #[trigger]
        parents.contains_key(key_of(c)) ==> can_enter(c, board, index, you, true)
    &&& forall|i: int| 0 <= i < stack.len() ==> can_enter((#[trigger] stack[i]).0, board, index, you, true)
}

/// The parent map with the goal put under `from`, to which it is next.
proof fn lemma_goal_rooted(
    head: Coord,
    goal: Coord,
    board: &Board,
    parents: Map<u32, Coord>,
    order: Map<u32, int>,
    stack: Seq<(Coord, Coord)>,
    from: Coord,
)
    requires
        dfs_inv(head, goal, board, parents, order, stack),
        from.adjacent(goal),
        from == head || parents.contains_key(key_of(from)),
        goal != head,
    ensures
        rooted(
            parents.insert(key_of(goal), from),
            head,
            |c: Coord| order.insert(key_of(goal), parents.dom().len() as int)[key_of(c)],
        ),
{
    let grown = parents.insert(key_of(goal), from);
    let counted = order.insert(key_of(goal), parents.dom().len() as int);
    let rank = |c: Coord| counted[key_of(c)];
    assert(grown.dom() =~= parents.dom().insert(key_of(goal)));
    assert(!grown.contains_key(key_of(head))) by {
        lemma_key_roundtrip(head);
        lemma_key_roundtrip(goal);
    }
    assert forall|c: Coord| #[trigger] grown.contains_key(key_of(c)) implies grown[key_of(c)].adjacent(c)
        && (grown[key_of(c)] == head || (grown.contains_key(key_of(grown[key_of(c)])) && rank(
        grown[key_of(c)],
    ) < rank(c))) by {
        lemma_key_roundtrip(c);
        lemma_key_roundtrip(goal);
        if c != goal {
            let p = parents[key_of(c)];
            lemma_key_roundtrip(p);
        } else {
            lemma_key_roundtrip(from);
        }
    }
}

/// Looks at a tile that the search has come to. Where the goal is next
/// to it, the goal is put under it and returned. Else the steps onto its
/// ranked candidates, the body that the snake will then have barred, are
/// put up to be tried, the farthest from the goal first.
pub fn depth_first_search_logic(
    goal: &Coord,
    from: &Coord,
    board: &Board,
    game_board: &GameBoard,
    you: &Battlesnake,
    visited: &mut HashMap<u32, Coord>,
    stack: &mut Vec<(Coord, Coord)>,
    connection_threshold: Ratio,
    degree_threshold: u8,
    Ghost(order): Ghost<Map<u32, int>>,
) -> (r: Option<Coord>)
    requires
        board.wf(),
        dfs_inv(you.head, *goal, board, old(visited)@, order, old(stack)@),
        dfs_legal(board, game_board@, you, old(visited)@, old(stack)@),
        *from == you.head || old(visited)@.contains_key(key_of(*from)),
        *from != *goal,
    ensures
        from.dist2(*goal) > 1 ==> dfs_legal(board, game_board@, you, final(visited)@, final(stack)@),
        r == (if from.dist2(*goal) <= 1 {
            Some(*goal)
        } else {
            None
        }),
        from.dist2(*goal) <= 1 ==> final(visited)@ == old(visited)@.insert(key_of(*goal), *from)
            && from.adjacent(*goal) && final(stack)@ == old(stack)@,
        from.dist2(*goal) > 1 ==> final(visited)@ == old(visited)@ && final(stack)@ == put_up(
            old(stack)@,
            tries_from(
                *goal,
                *from,
                board,
                game_board@,
                you,
                connection_threshold,
                degree_threshold,
                old(visited)@,
            ),
            *from,
        ) && final(stack)@.len() <= old(stack)@.len() + 4 && dfs_inv(
            you.head,
            *goal,
            board,
            final(visited)@,
            order,
            final(stack)@,
        ),
{
    let ghost s0 = stack@;
    if from.distance_squared(goal) <= 1 {
        proof {
            if from.dist2(*goal) == 0 {
                let dx = from.x - goal.x;
                let dy = from.y - goal.y;
                assert(dx * dx + dy * dy == 0 ==> dx == 0 && dy == 0) by (nonlinear_arith);
                assert(*from == *goal);
            }
        }
        visited.insert(tile_key(goal), *from);
        return Some(*goal);
    }
    let current_path = backtrack(*from, visited);
    let future_snake_positions = last_tiles(&current_path, you.length);
    let adj_tiles = adj_tiles_connected(
        from,
        board,
        game_board,
        you,
        &connection_threshold,
        degree_threshold,
        true,
        false,
        true,
        &future_snake_positions,
    );
    proof {
        lemma_candidates_are_moves(
            *from,
            board,
            game_board@,
            you,
            connection_threshold,
            degree_threshold,
            true,
            false,
            true,
            future_snake_positions@,
        );
        lemma_candidates_len(
            *from,
            board,
            game_board@,
            you,
            connection_threshold,
            degree_threshold,
            true,
            false,
            true,
            future_snake_positions@,
        );
    }
    let mut ranked: Vec<Ranked> = Vec::new();
    let mut i: usize = 0;
    while i < adj_tiles.len()
        invariant
            0 <= i <= adj_tiles.len(),
            ranked@.len() == i,
            forall|j: int|
                0 <= j < i ==> ranked@[j] == (Ranked {
                    tile: adj_tiles@[j],
                    conn: 0,
                    major: (-goal.dist2(adj_tiles@[j])) as i64,
                    minor: 0,
                }),
        decreases adj_tiles.len() - i,
    {
        proof {
            lemma_adjacent_symmetric(*goal, adj_tiles@[i as int]);
            lemma_dist2_bound(adj_tiles@[i as int], *goal);
        }
        let d = adj_tiles[i].distance_squared(goal);
        ranked.push(Ranked { tile: adj_tiles[i], conn: 0, major: -(d as i64), minor: 0 });
        i = i + 1;
    }
    assert(ranked@ =~= by_distance(adj_tiles@, *goal));
    let ordered = sort_ranked(&ranked);
    let ghost tries = tiles_of(ordered@);
    proof {
        lemma_sorted(ranked@);
        assert forall|j: int| 0 <= j < ordered@.len() implies from.adjacent(
            (#[trigger] ordered@[j]).tile,
        ) && board.in_bounds(ordered@[j].tile) && can_enter(
            ordered@[j].tile,
            board,
            game_board@,
            you,
            true,
        ) by {
            assert(ordered@.contains(ordered@[j]));
            assert(ranked@.contains(ordered@[j]));
            let k = choose|k: int| 0 <= k < ranked@.len() && ranked@[k] == ordered@[j];
            assert(adj_tiles@.contains(adj_tiles@[k]));
        }
        assert(tries.take(tries.len() as int) =~= tries);
    }
    let mut j: usize = ordered.len();
    while j > 0
        invariant
            0 <= j <= ordered.len(),
            tries == tiles_of(ordered@),
            visited@ == old(visited)@,
            *from == you.head || visited@.contains_key(key_of(*from)),
            forall|k: int|
                0 <= k < ordered@.len() ==> from.adjacent((#[trigger] ordered@[k]).tile)
                    && board.in_bounds(ordered@[k].tile) && can_enter(
                    ordered@[k].tile,
                    board,
                    game_board@,
                    you,
                    true,
                ),
            dfs_inv(you.head, *goal, board, visited@, order, stack@),
            dfs_legal(board, game_board@, you, visited@, stack@),
            put_up(s0, tries, *from) == put_up(stack@, tries.take(j as int), *from),
            stack@.len() == s0.len() + ordered.len() - j,
        decreases j,
    {
        j = j - 1;
        let ghost before = stack@;
        proof {
            let t = tries.take(j + 1);
            assert(t.drop_last() =~= tries.take(j as int));
            assert(t.last() == ordered@[j as int].tile);
        }
        stack.push((ordered[j].tile, *from));
        proof {
            assert forall|n: int| 0 <= n < stack@.len() implies (#[trigger] stack@[n]).1.adjacent(
                stack@[n].0,
            ) && board.in_bounds(stack@[n].0) && (stack@[n].1 == you.head
                || visited@.contains_key(key_of(stack@[n].1))) by {
                if n < before.len() {
                    assert(stack@[n] == before[n]);
                }
            }
            assert forall|n: int| 0 <= n < stack@.len() implies can_enter(
                (#[trigger] stack@[n]).0,
                board,
                game_board@,
                you,
                true,
            ) by {
                if n < before.len() {
                    assert(stack@[n] == before[n]);
                }
            }
        }
    }
    None
}

/// The path to the goal, once the goal is put under `from`: it runs over
/// tiles next to each other, from next to the head to the goal, and all
/// its tiles but the goal lie on the board.
proof fn lemma_goal_path(
    head: Coord,
    goal: Coord,
    board: &Board,
    parents: Map<u32, Coord>,
    order: Map<u32, int>,
    stack: Seq<(Coord, Coord)>,
    from: Coord,
)
    requires
        dfs_inv(head, goal, board, parents, order, stack),
        from.adjacent(goal),
        from == head || parents.contains_key(key_of(from)),
        goal != head,
    ensures
        ({
            let path = trail(parents.insert(key_of(goal), from), goal);
            &&& forall|i: int| 1 <= i < path.len() ==> path[i - 1].adjacent(#[trigger] path[i])
            &&& path.len() > 0 && head.adjacent(path[0]) && path.last() == goal
            &&& forall|i: int| 0 <= i < path.len() - 1 ==> board.in_bounds(#[trigger] path[i])
            &&& forall|i: int|
                0 <= i < path.len() - 1 ==> parents.contains_key(key_of(#[trigger] path[i]))
            &&& path.no_duplicates()
        }),
{
    let found = parents.insert(key_of(goal), from);
    let rank = |c: Coord| order.insert(key_of(goal), parents.dom().len() as int)[key_of(c)];
    let path = trail(found, goal);
    lemma_goal_rooted(head, goal, board, parents, order, stack, from);
    lemma_trail(found, head, rank, goal);
    lemma_trail_no_duplicates(found, head, rank, goal);
    assert forall|i: int| 0 <= i < path.len() - 1 implies board.in_bounds(#[trigger] path[i])
        && parents.contains_key(key_of(path[i])) by {
        lemma_key_roundtrip(path[i]);
        lemma_key_roundtrip(goal);
        lemma_trail_distinct(found, head, rank, goal, i);
    }
}

/// Putting a new tile under where the step onto it came from keeps what
/// holds of the search.
proof fn lemma_visit(
    head: Coord,
    goal: Coord,
    board: &Board,
    parents: Map<u32, Coord>,
    order: Map<u32, int>,
    stack: Seq<(Coord, Coord)>,
    tile: Coord,
    from: Coord,
)
    requires
        dfs_inv(head, goal, board, parents, order, stack),
        from.adjacent(tile),
        board.in_bounds(tile),
        from == head || parents.contains_key(key_of(from)),
        tile != head,
        tile != goal,
        !parents.contains_key(key_of(tile)),
    ensures
        dfs_inv(
            head,
            goal,
            board,
            parents.insert(key_of(tile), from),
            order.insert(key_of(tile), parents.dom().len() as int),
            stack,
        ),
        parents.insert(key_of(tile), from).dom().len() == parents.dom().len() + 1,
        parents.insert(key_of(tile), from).dom().len() <= board.area(),
{
    let grown = parents.insert(key_of(tile), from);
    let counted = order.insert(key_of(tile), parents.dom().len() as int);
    lemma_key_roundtrip(tile);
    lemma_key_roundtrip(goal);
    lemma_key_roundtrip(head);
    assert(grown.dom() =~= parents.dom().insert(key_of(tile)));
    assert forall|c: Coord| #[trigger] grown.contains_key(key_of(c)) implies board.in_bounds(c)
        && grown[key_of(c)].adjacent(c) && 0 <= counted[key_of(c)] < grown.dom().len() && (grown[key_of(c)]
        == head || (grown.contains_key(key_of(grown[key_of(c)])) && counted[key_of(grown[key_of(c)])]
        < counted[key_of(c)])) by {
        lemma_key_roundtrip(c);
        if c != tile {
            lemma_key_roundtrip(parents[key_of(c)]);
        } else {
            lemma_key_roundtrip(from);
        }
    }
    assert forall|c: Coord| #[trigger] grown.dom().contains(key_of(c)) implies board.in_bounds(c) by {
        assert(grown.contains_key(key_of(c)));
    }
    lemma_inbounds_keys(grown.dom(), board);
}

/// Takes the step on top of the stack and tries it. Returns the way to
/// the goal where the search ends with it.
fn dfs_step(
    goal: &Coord,
    board: &Board,
    game_board: &GameBoard,
    you: &Battlesnake,
    visited: &mut HashMap<u32, Coord>,
    stack: &mut Vec<(Coord, Coord)>,
    connection_threshold: Ratio,
    degree_threshold: u8,
    Ghost(order): Ghost<Map<u32, int>>,
    Ghost(fuel): Ghost<nat>,
) -> (r: (Option<Vec<Coord>>, Ghost<Map<u32, int>>))
    requires
        board.wf(),
        *goal != you.head,
        old(stack)@.len() > 0,
        fuel > 0,
        dfs_inv(you.head, *goal, board, old(visited)@, order, old(stack)@),
        dfs_legal(board, game_board@, you, old(visited)@, old(stack)@),
    ensures
        r.0 is None ==> dfs_legal(board, game_board@, you, final(visited)@, final(stack)@),
        r.0 matches Some(path) ==> path@.no_duplicates() && forall|i: int|
            0 <= i < path@.len() - 1 ==> can_enter(#[trigger] path@[i], board, game_board@, you, true),
        r.0 matches Some(path) ==> search_from(
            *goal,
            board,
            game_board@,
            you,
            connection_threshold,
            degree_threshold,
            old(visited)@,
            old(stack)@,
            fuel,
        ) == Some(final(visited)@) && path@ == trail(final(visited)@, *goal) && (forall|i: int|
            1 <= i < path@.len() ==> path@[i - 1].adjacent(#[trigger] path@[i])) && path@.len() > 0
            && you.head.adjacent(path@[0]) && path@.last() == *goal && (forall|i: int|
            0 <= i < path@.len() - 1 ==> board.in_bounds(#[trigger] path@[i])),
        r.0 is None ==> search_from(
            *goal,
            board,
            game_board@,
            you,
            connection_threshold,
            degree_threshold,
            old(visited)@,
            old(stack)@,
            fuel,
        ) == search_from(
            *goal,
            board,
            game_board@,
            you,
            connection_threshold,
            degree_threshold,
            final(visited)@,
            final(stack)@,
            (fuel - 1) as nat,
        ) && dfs_inv(you.head, *goal, board, final(visited)@, r.1@, final(stack)@) && ((final(visited)@ == old(visited)@ && final(stack)@.len() == old(stack)@.len() - 1) || (final(visited)@.dom().len() == old(visited)@.dom().len() + 1 && final(visited)@.dom().len()
            <= board.area() && final(stack)@.len() <= old(stack)@.len() + 3)),
{
    let ghost s0 = stack@;
    let ghost v0 = visited@;
    proof {
        reveal(search_from);
    }
    let (tile, from) = stack.pop().unwrap();
    assert(s0[s0.len() - 1] == (tile, from));
    assert(stack@ =~= s0.drop_last());
    let ghost rest = stack@;
    let k = tile_key(&tile);
    proof {
        assert forall|n: int| 0 <= n < rest.len() implies can_enter(
            (#[trigger] rest[n]).0,
            board,
            game_board@,
            you,
            true,
        ) by {
            assert(rest[n] == s0[n]);
        }
    }
    if tile == you.head || visited.contains_key(&k) {
        return (None, Ghost(order));
    }
    visited.insert(k, from);
    if tile == *goal {
        let path = backtrack(tile, visited);
        proof {
            lemma_goal_path(you.head, *goal, board, v0, order, rest, from);
        }
        return (Some(path), Ghost(order));
    }
    let ghost counted = order.insert(k, v0.dom().len() as int);
    proof {
        lemma_visit(you.head, *goal, board, v0, order, rest, tile, from);
        assert(can_enter(s0[s0.len() - 1].0, board, game_board@, you, true));
        assert forall|c: Coord| #[trigger] visited@.contains_key(key_of(c)) implies can_enter(
            c,
            board,
            game_board@,
            you,
            true,
        ) by {
            lemma_key_roundtrip(c);
            lemma_key_roundtrip(tile);
        }
        assert forall|n: int| 0 <= n < rest.len() implies can_enter(
            (#[trigger] rest[n]).0,
            board,
            game_board@,
            you,
            true,
        ) by {
            assert(rest[n] == s0[n]);
        }
    }
    let ghost v1 = visited@;
    let found = depth_first_search_logic(
        goal,
        &tile,
        board,
        game_board,
        you,
        visited,
        stack,
        connection_threshold,
        degree_threshold,
        Ghost(counted),
    );
    match found {
        Some(hit) => {
            let path = backtrack(hit, visited);
            proof {
                lemma_goal_path(you.head, *goal, board, v1, counted, rest, tile);
            }
            (Some(path), Ghost(counted))
        },
        None => (None, Ghost(counted)),
    }
}

/// A long way to `goal`, from the tile after the head to the goal;
/// empty where the search finds none, and where the head stands on the
/// goal.
///
/// The search ends as soon as it stands next to the goal. From each tile
/// it goes onto the ranked candidates that it has not been on, the
/// farthest from the goal first, and turns back at dead ends.
pub fn dfs_long(
    goal: &Coord,
    board: &Board,
    game_board: &GameBoard,
    you: &Battlesnake,
    connection_threshold: Ratio,
    degree_threshold: u8,
) -> (path: Vec<Coord>)
    requires
        board.wf(),
    ensures
        path@ == long_way(
            *goal,
            board,
            game_board@,
            you,
            connection_threshold,
            degree_threshold,
        ),
        forall|i: int| 1 <= i < path@.len() ==> path@[i - 1].adjacent(#[trigger] path@[i]),
        path@.len() > 0 ==> you.head.adjacent(path@[0]) && path@.last() == *goal,
        forall|i: int| 0 <= i < path@.len() - 1 ==> board.in_bounds(#[trigger] path@[i]),
        forall|i: int|
            0 <= i < path@.len() - 1 ==> can_enter(#[trigger] path@[i], board, game_board@, you, true),
        path@.no_duplicates(),
{
    let ghost index = game_board@;
    if you.head == *goal {
        return Vec::new();
    }
    let mut visited: HashMap<u32, Coord> = HashMap::new();
    let mut stack: Vec<(Coord, Coord)> = Vec::new();
    let ghost mut order: Map<u32, int> = Map::empty();
    let first = depth_first_search_logic(
        goal,
        &you.head,
        board,
        game_board,
        you,
        &mut visited,
        &mut stack,
        connection_threshold,
        degree_threshold,
        Ghost(order),
    );
    match first {
        Some(found) => {
            let path = backtrack(found, &visited);
            proof {
                lemma_key_roundtrip(*goal);
                assert(visited@.dom() =~= Set::<u32>::empty().insert(key_of(*goal)));
                assert(visited@.dom().len() == 1);
                reveal_with_fuel(ascent, 3);
                assert(!visited@.contains_key(key_of(you.head))) by {
                    lemma_key_roundtrip(you.head);
                }
                assert(ascent(visited@, *goal, 1) =~= seq![*goal]);
                assert(path@ =~= seq![*goal]);
            }
            return path;
        },
        None => {},
    }
    let ghost mut fuel: nat = (4 * board.area() + 5) as nat;
    let ghost whole = search_from(
        *goal,
        board,
        index,
        you,
        connection_threshold,
        degree_threshold,
        visited@,
        stack@,
        fuel,
    );
    let ghost target = long_way(
        *goal,
        board,
        index,
        you,
        connection_threshold,
        degree_threshold,
    );
    proof {
        assert(visited@ =~= Map::<u32, Coord>::empty());
        assert(visited@.dom() =~= Set::<u32>::empty());
        assert(you.head.dist2(*goal) > 1);
        assert(target == (match whole {
            Some(parents) => trail(parents, *goal),
            None => Seq::<Coord>::empty(),
        }));
    }
    while stack.len() > 0
        invariant
            board.wf(),
            index == game_board@,
            *goal != you.head,
            target == long_way(*goal, board, index, you, connection_threshold, degree_threshold),
            target == (match whole {
                Some(parents) => trail(parents, *goal),
                None => Seq::<Coord>::empty(),
            }),
            dfs_inv(you.head, *goal, board, visited@, order, stack@),
            dfs_legal(board, index, you, visited@, stack@),
            whole == search_from(
                *goal,
                board,
                index,
                you,
                connection_threshold,
                degree_threshold,
                visited@,
                stack@,
                fuel,
            ),
            fuel >= stack@.len() + 4 * (board.area() - visited@.dom().len()) + 1,
            visited@.dom().len() <= board.area(),
        decreases board.area() - visited@.dom().len(), stack@.len(),
    {
        let step = dfs_step(
            goal,
            board,
            game_board,
            you,
            &mut visited,
            &mut stack,
            connection_threshold,
            degree_threshold,
            Ghost(order),
            Ghost(fuel),
        );
        match step.0 {
            Some(path) => {
                return path;
            },
            None => {
                proof {
                    fuel = (fuel - 1) as nat;
                    order = step.1@;
                }
            },
        }
    }
    proof {
        reveal(search_from);
        assert(stack@.len() == 0);
        assert(target =~= Seq::<Coord>::empty());
    }
    let none: Vec<Coord> = Vec::new();
    assert(none@ =~= target);
    none
}

/// No tile before the last of a path is its last tile.
proof fn lemma_trail_distinct(
    tree: Map<u32, Coord>,
    root: Coord,
    rank: spec_fn(Coord) -> int,
    tile: Coord,
    i: int,
)
    requires
        rooted(tree, root, rank),
        0 <= i < trail(tree, tile).len() - 1,
    ensures
        trail(tree, tile)[i] != tile,
        tree.contains_key(key_of(trail(tree, tile)[i])),
{
    lemma_trail(tree, root, rank, tile);
    lemma_trail_no_duplicates(tree, root, rank, tile);
    let t = trail(tree, tile);
    assert(t[t.len() - 1] == tile);
}

} // verus!
