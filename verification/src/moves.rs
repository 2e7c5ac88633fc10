//! The decision of a turn: the searches in their order of priority, and
//! the word for the move that comes out.

use crate::index::GameBoard;
use crate::logic::{can_enter, can_move_board};
use crate::logic::{
    enterable, lemma_neighbors_where, lemma_unit_distance, neighbors_where, on_board,
};
use crate::rank::{
    adj_tiles_connected, favourable, lemma_candidates_are_moves, lemma_candidates_nonempty,
    ranked_candidates,
};
use crate::search::astar::{a_star, food_way};
use crate::search::dfs::{dfs_long, long_way};
use crate::search::graph::{blocking_trace, boxed_in, find_key_hole, inside_box, soonest};
use crate::types::{Battlesnake, Board, Coord, Direction, Flags, Game, Ratio};
use vstd::prelude::*;

verus! {

/// The direction of the step from `origin` onto `t`, where that is one
/// step.
pub open spec fn direction_between(origin: Coord, t: Coord) -> Option<Direction> {
    if t.x - origin.x == 0 && t.y - origin.y == 1 {
        Some(Direction::Up)
    } else if t.x - origin.x == 1 && t.y - origin.y == 0 {
        Some(Direction::Right)
    } else if t.x - origin.x == -1 && t.y - origin.y == 0 {
        Some(Direction::Left)
    } else if t.x - origin.x == 0 && t.y - origin.y == -1 {
        Some(Direction::Down)
    } else {
        None
    }
}

/// The words for the steps from `origin` onto the tiles, in their
/// order; a tile that is not one step away gives no word.
pub open spec fn move_words(tiles: Seq<Coord>, origin: Coord) -> Seq<Seq<char>>
    decreases tiles.len(),
{
    if tiles.len() == 0 {
        seq![]
    } else {
        match direction_between(origin, tiles.last()) {
            Some(d) => move_words(tiles.drop_last(), origin).push(d.name_spec()),
            None => move_words(tiles.drop_last(), origin),
        }
    }
}

/// What the strings hold.
pub open spec fn words_of(v: Seq<&'static str>) -> Seq<Seq<char>> {
    Seq::new(v.len(), |i: int| v[i]@)
}

/// One of the four words for a move.
pub open spec fn is_move_word(w: Seq<char>) -> bool {
    exists|d: Direction| w == d.name_spec()
}

/// `w` is the word for a step from `origin` onto a tile that `you` may
/// enter, heads not avoided.
pub open spec fn legal_word(
    w: Seq<char>,
    origin: Coord,
    board: &Board,
    index: Map<Coord, Flags>,
    you: &Battlesnake,
) -> bool {
    exists|t: Coord|
        (#[trigger] direction_between(origin, t)) matches Some(d) && w == d.name_spec()
            && can_enter(t, board, index, you, false)
}

/// The direction of the step from `origin` onto `t`.
pub fn step_direction(origin: &Coord, t: &Coord) -> (r: Option<Direction>)
    ensures
        r == direction_between(*origin, *t),
{
    let dx: i32 = t.x as i32 - origin.x as i32;
    let dy: i32 = t.y as i32 - origin.y as i32;
    if dx == 0 && dy == 1 {
        Some(Direction::Up)
    } else if dx == 1 && dy == 0 {
        Some(Direction::Right)
    } else if dx == -1 && dy == 0 {
        Some(Direction::Left)
    } else if dx == 0 && dy == -1 {
        Some(Direction::Down)
    } else {
        None
    }
}

/// The words for the steps from `origin` onto the tiles.
pub fn steps_to_moves(tiles: &Vec<Coord>, origin: &Coord) -> (moves: Vec<&'static str>)
    ensures
        words_of(moves@) == move_words(tiles@, *origin),
{
    let mut moves: Vec<&'static str> = Vec::new();
    let mut i: usize = 0;
    assert(tiles@.take(0) =~= Seq::<Coord>::empty());
    assert(words_of(moves@) =~= move_words(tiles@.take(0), *origin));
    while i < tiles.len()
        invariant
            0 <= i <= tiles.len(),
            words_of(moves@) == move_words(tiles@.take(i as int), *origin),
        decreases tiles.len() - i,
    {
        let ghost before = moves@;
        proof {
            let t = tiles@.take(i + 1);
            assert(t.drop_last() =~= tiles@.take(i as int));
            assert(t.last() == tiles@[i as int]);
        }
        match step_direction(origin, &tiles[i]) {
            Some(d) => {
                moves.push(d.name());
                assert(words_of(moves@) =~= words_of(before).push(d.name_spec()));
            },
            None => {},
        }
        i = i + 1;
    }
    assert(tiles@.take(tiles@.len() as int) =~= tiles@);
    moves
}

/// The words for unit moves, in their order; a vector that is no unit
/// move gives no word.
pub fn dirs_to_moves(dirs: Vec<Coord>) -> (moves: Vec<&'static str>)
    ensures
        words_of(moves@) == move_words(dirs@, Coord { x: 0, y: 0 }),
{
    let origin = Coord { x: 0, y: 0 };
    steps_to_moves(&dirs, &origin)
}

/// The tiles that the fallback ranks: the ranked candidates with the
/// thresholds given and heads avoided; where there are none, all that
/// can be entered at all, heads not avoided, ranked for evasion.
pub open spec fn fallback_tiles(
    from_point: Coord,
    board: &Board,
    index: Map<Coord, Flags>,
    you: &Battlesnake,
    threshold: Ratio,
    degree_threshold: u8,
    degree_order: bool,
) -> Seq<Coord> {
    let first = ranked_candidates(
        from_point,
        board,
        index,
        you,
        threshold,
        degree_threshold,
        degree_order,
        false,
        true,
        Seq::<Coord>::empty(),
    );
    if first.len() > 0 {
        first
    } else {
        ranked_candidates(
            from_point,
            board,
            index,
            you,
            Ratio { num: 0, den: 1 },
            0,
            degree_order,
            true,
            false,
            Seq::<Coord>::empty(),
        )
    }
}

/// The words for the moves of the fallback, the most favourable last.
pub fn get_rand_moves(
    from_point: &Coord,
    board: &Board,
    game_board: &GameBoard,
    you: &Battlesnake,
    threshold: Ratio,
    degree_threshold: u8,
    apply_degree_option: Option<bool>,
) -> (moves: Vec<&'static str>)
    requires
        board.wf(),
    ensures
        words_of(moves@) == move_words(
            fallback_tiles(
                *from_point,
                board,
                game_board@,
                you,
                threshold,
                degree_threshold,
                apply_degree_option.unwrap_or(true),
            ),
            you.head,
        ),
{
    let degree_order = match apply_degree_option {
        Some(x) => x,
        None => true,
    };
    let nothing: Vec<Coord> = Vec::new();
    let mut safe_moves = adj_tiles_connected(
        from_point,
        board,
        game_board,
        you,
        &threshold,
        degree_threshold,
        degree_order,
        false,
        true,
        &nothing,
    );
    if safe_moves.len() == 0 {
        let zero = Ratio::new(0, 1);
        safe_moves = adj_tiles_connected(
            from_point,
            board,
            game_board,
            you,
            &zero,
            0,
            degree_order,
            true,
            false,
            &nothing,
        );
    }
    steps_to_moves(&safe_moves, &you.head)
}


/// The word that the turn ends with: that of the escape step, where
/// there is one; else that of the first step of the way to food, where
/// one was found; else the last of the fallback words; else "up".
pub open spec fn chosen_word(
    head: Coord,
    escape: Option<Coord>,
    food_path: Seq<Coord>,
    fallback: Seq<Seq<char>>,
) -> Seq<char> {
    if escape is Some && direction_between(head, escape.unwrap()) is Some {
        direction_between(head, escape.unwrap()).unwrap().name_spec()
    } else if food_path.len() > 0 {
        match direction_between(head, food_path[0]) {
            Some(d) => d.name_spec(),
            None => "up"@,
        }
    } else if fallback.len() > 0 {
        fallback.last()
    } else {
        "up"@
    }
}

/// Picks the word of the turn from what the searches found.
pub fn choose_move(
    head: &Coord,
    escape: Option<Coord>,
    food_path: &Vec<Coord>,
    fallback: &Vec<&'static str>,
) -> (chosen: &'static str)
    ensures
        chosen@ == chosen_word(*head, escape, food_path@, words_of(fallback@)),
{
    match escape {
        Some(t) => {
            match step_direction(head, &t) {
                Some(d) => {
                    return d.name();
                },
                None => {},
            }
        },
        None => {},
    }
    if food_path.len() > 0 {
        return match step_direction(head, &food_path[0]) {
            Some(d) => d.name(),
            None => "up",
        };
    }
    if fallback.len() > 0 {
        return fallback[fallback.len() - 1];
    }
    "up"
}

/// A step onto a tile next to the origin has a direction.
pub proof fn lemma_adjacent_direction(origin: Coord, t: Coord)
    requires
        origin.adjacent(t),
    ensures
        direction_between(origin, t) is Some,
{
    lemma_unit_distance(origin, t);
}

/// The words for steps onto legal tiles next to the origin are as many
/// as the tiles, and each is the word of a legal move.
proof fn lemma_move_words_legal(
    tiles: Seq<Coord>,
    origin: Coord,
    board: &Board,
    index: Map<Coord, Flags>,
    you: &Battlesnake,
)
    requires
        forall|i: int|
            0 <= i < tiles.len() ==> origin.adjacent(#[trigger] tiles[i]) && can_enter(
                tiles[i],
                board,
                index,
                you,
                false,
            ),
    ensures
        move_words(tiles, origin).len() == tiles.len(),
        forall|i: int|
            0 <= i < tiles.len() ==> legal_word(
                #[trigger] move_words(tiles, origin)[i],
                origin,
                board,
                index,
                you,
            ),
    decreases tiles.len(),
{
    if tiles.len() > 0 {
        let pre = tiles.drop_last();
        assert forall|i: int| 0 <= i < pre.len() implies origin.adjacent(#[trigger] pre[i])
            && can_enter(pre[i], board, index, you, false) by {
            assert(pre[i] == tiles[i]);
        }
        lemma_move_words_legal(pre, origin, board, index, you);
        let t = tiles.last();
        assert(origin.adjacent(tiles[tiles.len() - 1]));
        lemma_adjacent_direction(origin, t);
        let d = direction_between(origin, t).unwrap();
        let w = move_words(tiles, origin);
        assert(w == move_words(pre, origin).push(d.name_spec()));
        assert forall|i: int| 0 <= i < tiles.len() implies legal_word(
            #[trigger] w[i],
            origin,
            board,
            index,
            you,
        ) by {
            if i < pre.len() {
                assert(w[i] == move_words(pre, origin)[i]);
            } else {
                assert(direction_between(origin, t) matches Some(dd) && w[i] == dd.name_spec()
                    && can_enter(t, board, index, you, false));
            }
        }
    }
}

/// The first step of the way out, where the snake is confined and the
/// rules are not "constrictor": the first tile of the long way to the
/// key hole, where there is one and the snake may enter it, heads not
/// avoided.
pub open spec fn escape_step(
    game: &Game,
    board: &Board,
    index: Map<Coord, Flags>,
    you: &Battlesnake,
) -> Option<Coord> {
    let starts = neighbors_where(you.head, on_board(board));
    if game.ruleset_name@ != "constrictor"@ && boxed_in(
        you,
        board,
        index,
        Ratio { num: 3, den: 10 },
    ) {
        match soonest(
            blocking_trace(
                board,
                index,
                starts,
                Set::<u32>::empty(),
                2 * board.area() + starts.len() + 1,
            ),
            board.snakes@,
        ) {
            Some(hole) => {
                let way = long_way(hole, board, index, you, Ratio { num: 0, den: 1 }, 0);
                if way.len() > 0 && can_enter(way[0], board, index, you, false) {
                    Some(way[0])
                } else {
                    None
                }
            },
            None => None,
        }
    } else {
        None
    }
}

/// The words of the fallback of a turn: those of the candidates joined
/// to half of the free tiles with two open neighbours, or else of all
/// moves that can be taken at all.
pub open spec fn fallback_words(board: &Board, index: Map<Coord, Flags>, you: &Battlesnake) -> Seq<
    Seq<char>,
> {
    move_words(
        fallback_tiles(you.head, board, index, you, Ratio { num: 1, den: 2 }, 2, false),
        you.head,
    )
}

/// The move of the turn, as a word: "up", "right", "left" or "down".
///
/// First the way out of a region in which the snake is confined to three
/// tenths of the free tiles, unless the rules are "constrictor": the
/// first step of a long way to the key hole, where that step can be
/// taken. Else the first step of the way to food, the candidates being
/// those joined to half of the free tiles with two open neighbours.
/// Else the most favourable of the fallback moves. The word is fixed by
/// the snapshot: equal snapshots give equal words. Whenever the snake
/// has a move that it may take at all, the word is the word of such a
/// move; where it has none, the word is "up".
pub fn get_move(game: &Game, turn: &u32, board: &Board, you: &Battlesnake) -> (chosen: &'static str)
    requires
        board.wf(),
    ensures
        is_move_word(chosen@),
        chosen@ == chosen_word(
            you.head,
            escape_step(game, board, board.index(), you),
            food_way(board, board.index(), you, Ratio { num: 1, den: 2 }, 2),
            fallback_words(board, board.index(), you),
        ),
        legal_word(chosen@, you.head, board, board.index(), you) || chosen@ == "up"@,
        (exists|t: Coord| #[trigger]
            you.head.adjacent(t) && can_enter(t, board, board.index(), you, false)) ==> legal_word(
            chosen@,
            you.head,
            board,
            board.index(),
            you,
        ),
{
    let game_board = board.to_game_board();
    let ghost index = board.index();
    let nothing: Vec<Coord> = Vec::new();
    let no_words: Vec<&'static str> = Vec::new();
    let constrictor = "constrictor".to_owned();
    let mut escape: Option<Coord> = None;
    if game.ruleset_name != constrictor && inside_box(you, board, &game_board, Ratio::new(3, 10)) {
        match find_key_hole(board, &game_board, you) {
            Some(escape_tile) => {
                let path = dfs_long(&escape_tile, board, &game_board, you, Ratio::new(0, 1), 0);
                if path.len() > 0 && can_move_board(
                    &path[0],
                    board,
                    &game_board,
                    you,
                    Some(false),
                ) {
                    escape = Some(path[0]);
                }
            },
            None => {},
        }
    }
    assert(escape == escape_step(game, board, index, you));
    let escapes = match escape {
        Some(t) => step_direction(&you.head, &t).is_some(),
        None => false,
    };
    if escapes {
        let chosen = choose_move(&you.head, escape, &nothing, &no_words);
        proof {
            let t = escape.unwrap();
            assert(direction_between(you.head, t) matches Some(dd) && chosen@ == dd.name_spec()
                && can_enter(t, board, index, you, false));
            assert(chosen@ == chosen_word(
                you.head,
                escape,
                food_way(board, index, you, Ratio { num: 1, den: 2 }, 2),
                fallback_words(board, index, you),
            ));
        }
        return chosen;
    }
    let path = a_star(board, &game_board, you, Ratio::new(1, 2), 2);
    assert(path@ == food_way(board, index, you, Ratio { num: 1, den: 2 }, 2));
    if path.len() > 0 {
        let chosen = choose_move(&you.head, escape, &path, &no_words);
        proof {
            let t = path@[0];
            lemma_adjacent_direction(you.head, t);
            assert(can_enter(t, board, index, you, true));
            assert(direction_between(you.head, t) matches Some(dd) && chosen@ == dd.name_spec()
                && can_enter(t, board, index, you, false));
            assert(chosen@ == chosen_word(
                you.head,
                escape,
                path@,
                fallback_words(board, index, you),
            ));
        }
        return chosen;
    }
    let fallback = get_rand_moves(
        &you.head,
        board,
        &game_board,
        you,
        Ratio::new(1, 2),
        2,
        Some(false),
    );
    let chosen = choose_move(&you.head, escape, &path, &fallback);
    proof {
        let none = Seq::<Coord>::empty();
        let half = Ratio { num: 1, den: 2 };
        let zero = Ratio { num: 0, den: 1 };
        let tiles = fallback_tiles(you.head, board, index, you, half, 2, false);
        lemma_candidates_are_moves(you.head, board, index, you, half, 2, false, false, true, none);
        lemma_candidates_are_moves(you.head, board, index, you, zero, 0, false, true, false, none);
        assert forall|i: int| 0 <= i < tiles.len() implies you.head.adjacent(#[trigger] tiles[i])
            && can_enter(tiles[i], board, index, you, false) by {
            assert(tiles.contains(tiles[i]));
        }
        lemma_move_words_legal(tiles, you.head, board, index, you);
        assert(chosen@ == chosen_word(you.head, escape, path@, fallback_words(board, index, you)));
        if fallback@.len() > 0 {
            let w = move_words(tiles, you.head);
            assert(words_of(fallback@).last() == w[tiles.len() - 1]);
        } else {
            assert(words_of(fallback@).len() == 0);
            assert(tiles.len() == 0);
            if exists|t: Coord| #[trigger]
                you.head.adjacent(t) && can_enter(t, board, index, you, false) {
                let t = choose|t: Coord| #[trigger]
                    you.head.adjacent(t) && can_enter(t, board, index, you, false);
                let ok = enterable(board, index, you, false, none);
                lemma_neighbors_where(you.head, ok);
                assert(ok(t));
                assert(neighbors_where(you.head, ok).contains(t));
                lemma_candidates_nonempty(you.head, board, index, you, false, true, false, none);
                assert(false);
            }
            assert(chosen@ == "up"@);
            assert(Direction::Up.name_spec() == "up"@);
        }
    }
    chosen
}

/// The move of the turn for any snapshot: that of `get_move` where every
/// listed coordinate lies on the board, else "up".
pub fn decide(game: &Game, turn: &u32, board: &Board, you: &Battlesnake) -> (chosen: &'static str)
    ensures
        is_move_word(chosen@),
        !board.wf() ==> chosen@ == "up"@,
        board.wf() ==> chosen@ == chosen_word(
            you.head,
            escape_step(game, board, board.index(), you),
            food_way(board, board.index(), you, Ratio { num: 1, den: 2 }, 2),
            fallback_words(board, board.index(), you),
        ),
        board.wf() ==> legal_word(chosen@, you.head, board, board.index(), you) || chosen@ == "up"@,
        board.wf() && (exists|t: Coord| #[trigger]
            you.head.adjacent(t) && can_enter(t, board, board.index(), you, false)) ==> legal_word(
            chosen@,
            you.head,
            board,
            board.index(),
            you,
        ),
{
    if board.well_formed() {
        get_move(game, turn, board, you)
    } else {
        assert(Direction::Up.name_spec() == "up"@);
        "up"
    }
}

} // verus!
