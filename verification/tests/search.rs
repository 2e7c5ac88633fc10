use snake_core::index::tile_key;
use snake_core::moves::{
    choose_move, decide, dirs_to_moves, get_move, get_rand_moves, step_direction, steps_to_moves,
};
use snake_core::queue::{int_sqrt, search_priority};
use snake_core::search::astar::{a_star, key_tile, last_tiles};
use snake_core::search::dfs::dfs_long;
use snake_core::search::graph::{find_key_hole, inside_box};
use snake_core::tree::backtrack;
use snake_core::logic::can_move_board;
use snake_core::types::{Battlesnake, Board, Coord, Direction, Game, Ratio};
use std::collections::HashMap;

fn c(x: i16, y: i16) -> Coord {
    Coord { x, y }
}

fn snake(id: &str, health: u8, body: &[(i16, i16)]) -> Battlesnake {
    let body: Vec<Coord> = body.iter().map(|p| c(p.0, p.1)).collect();
    Battlesnake {
        id: id.to_string(),
        name: format!("snake {}", id),
        health,
        head: body[0],
        length: body.len() as u32,
        body,
        shout: None,
    }
}

fn board_of(w: u8, h: u8, food: &[(i16, i16)], snakes: Vec<Battlesnake>, hazards: &[(i16, i16)]) -> Board {
    Board {
        height: h,
        width: w,
        food: food.iter().map(|p| c(p.0, p.1)).collect(),
        snakes,
        hazards: hazards.iter().map(|p| c(p.0, p.1)).collect(),
    }
}

fn game(ruleset: &str) -> Game {
    Game { id: "g".to_string(), ruleset_name: ruleset.to_string(), timeout: 500 }
}

fn is_path_from(head: Coord, path: &Vec<Coord>) -> bool {
    let mut at = head;
    for t in path {
        if at.distance_squared(t) != 1 {
            return false;
        }
        at = *t;
    }
    true
}

#[test]
fn evasive_action() {
    let a = [(4, 4), (3, 4), (2, 4), (1, 4)];
    let b = [(5, 3), (5, 2), (5, 1), (5, 0)];
    let d = [(4, 6), (4, 7), (4, 8), (4, 9)];
    let board = board_of(
        11,
        11,
        &[(5, 5)],
        vec![snake("gLavM", 100, &a), snake("9xCwO", 100, &b), snake("jWzco", 100, &d)],
        &[],
    );
    let game_board = board.to_game_board();
    let you: &Battlesnake = &board.snakes[0];
    let moves = get_rand_moves(&you.head, &board, &game_board, you, Ratio::new(3, 10), 2, None);
    assert_eq!(*moves.last().unwrap(), "down");
}

fn food_board() -> Board {
    let body = [(4, 4), (4, 3), (4, 2), (4, 1)];
    board_of(11, 11, &[(8, 4), (0, 10)], vec![snake("jt-0Z", 100, &body)], &[(8, 4)])
}

#[test]
fn shortest_to_food() {
    let board = food_board();
    let mut you = board.snakes[0].clone();
    let game_board = board.to_game_board();

    let a_star_path = a_star(&board, &game_board, &you, Ratio::new(1, 2), 0);
    assert!(
        a_star_path.len() > 0 && a_star_path[a_star_path.len() - 1] == Coord { x: 0, y: 10 }
    );
    you.health = 3;
    let a_star_path_low = a_star(&board, &game_board, &you, Ratio::new(1, 2), 0);
    assert!(a_star_path_low.len() <= 0);
}

#[test]
fn food_path_is_walkable_and_within_health() {
    let board = food_board();
    let you = board.snakes[0].clone();
    let game_board = board.to_game_board();
    let path = a_star(&board, &game_board, &you, Ratio::new(1, 2), 0);
    assert!(is_path_from(you.head, &path));
    assert_eq!(path.len(), 10);
    for t in &path {
        assert!(can_move_board(t, &board, &game_board, &you, None));
    }
    // the hazard makes the near food cost 3 + 16: with health 19 it is out of reach,
    // and the far food costs 10
    let mut weak = you.clone();
    weak.health = 11;
    assert_eq!(a_star(&board, &game_board, &weak, Ratio::new(1, 2), 0).len(), 10);
    weak.health = 10;
    assert_eq!(a_star(&board, &game_board, &weak, Ratio::new(1, 2), 0).len(), 0);
}

#[test]
fn starvation_cutoff() {
    let body = [(0, 0), (0, 0)];
    let board = board_of(7, 1, &[(5, 0)], vec![snake("a", 5, &body)], &[]);
    let gb = board.to_game_board();
    let mut you = board.snakes[0].clone();
    // five steps to the food: with health 5 the snake starves on the way
    assert_eq!(a_star(&board, &gb, &you, Ratio::new(0, 1), 0), vec![]);
    you.health = 6;
    assert_eq!(
        a_star(&board, &gb, &you, Ratio::new(0, 1), 0),
        vec![c(1, 0), c(2, 0), c(3, 0), c(4, 0), c(5, 0)]
    );
    let hazard = board_of(7, 1, &[(5, 0)], vec![snake("a", 5, &body)], &[(3, 0)]);
    let gbh = hazard.to_game_board();
    you.health = 20;
    assert_eq!(a_star(&hazard, &gbh, &you, Ratio::new(0, 1), 0), vec![]);
    you.health = 21;
    assert_eq!(a_star(&hazard, &gbh, &you, Ratio::new(0, 1), 0).len(), 5);
    let none = board_of(7, 1, &[], vec![snake("a", 5, &body)], &[]);
    assert_eq!(a_star(&none, &none.to_game_board(), &you, Ratio::new(0, 1), 0), vec![]);
}

#[test]
fn avoid_future_poorly_connected_tiles() {
    let body = [
        (4, 2), (4, 3), (4, 4), (3, 4), (2, 4), (2, 3), (1, 3), (1, 2), (1, 1), (2, 1), (2, 0),
    ];
    let board = board_of(11, 11, &[(2, 2)], vec![snake("5h9p6", 100, &body)], &[]);
    let you = &board.snakes[0];
    let game_board = board.to_game_board();

    let a_star_path = a_star(&board, &game_board, you, Ratio::new(1, 2), 0);
    // a valid path cannot exist here because approaching the tile disconnects it from the rest of the board
    assert!(a_star_path.len() <= 0);
}

fn box_board() -> (Board, Battlesnake) {
    let a = [
        (5, 8), (5, 7), (5, 6), (5, 5), (5, 4), (4, 4), (3, 4), (2, 4), (2, 5), (2, 6), (2, 7),
        (2, 8), (2, 9), (2, 10),
    ];
    let b = [(1, 6), (1, 5), (1, 4), (0, 4), (0, 5), (0, 6), (0, 7), (0, 8), (0, 9), (0, 10)];
    let d = [(5, 0), (6, 0), (6, 1), (6, 2), (6, 3), (6, 4), (6, 5), (6, 6), (6, 7), (6, 8)];
    let board = board_of(
        11,
        11,
        &[],
        vec![snake("PJs7i", 99, &a), snake("uR2vE", 99, &b), snake("ls7Zd", 99, &d)],
        &[],
    );
    (board, snake("ls7Zd", 99, &d))
}

#[test]
fn escape_from_box() {
    let (board, you) = box_board();
    let game_board = board.to_game_board();
    assert_eq!(find_key_hole(&board, &game_board, &you), Some(Coord { x: 6, y: 3 }));
    assert!(inside_box(&you, &board, &game_board, Ratio::new(3, 10)));
    let long_path = dfs_long(&Coord { x: 6, y: 3 }, &board, &game_board, &you, Ratio::new(0, 1), 0);
    assert_eq!(*long_path.last().unwrap(), Coord { x: 6, y: 3 });
}

#[test]
fn long_path_is_walkable() {
    let (board, you) = box_board();
    let game_board = board.to_game_board();
    let goal = c(6, 3);
    let path = dfs_long(&goal, &board, &game_board, &you, Ratio::new(0, 1), 0);
    assert!(is_path_from(you.head, &path));
    assert!(path.len() > 3);
    for t in &path[..path.len() - 1] {
        assert!(can_move_board(t, &board, &game_board, &you, None));
    }
    // next to the goal the way is the goal alone; on the goal there is no way
    assert_eq!(dfs_long(&c(6, 0), &board, &game_board, &you, Ratio::new(0, 1), 0), vec![c(6, 0)]);
    assert_eq!(dfs_long(&c(5, 0), &board, &game_board, &you, Ratio::new(0, 1), 0), vec![]);
    // a goal that cannot be come next to gives no way
    assert_eq!(dfs_long(&c(9, 9), &board, &game_board, &you, Ratio::new(0, 1), 0), vec![]);
}

#[test]
fn box_threshold_is_strict() {
    let (board, you) = box_board();
    let game_board = board.to_game_board();
    // the head reaches 23 of the 87 free tiles
    assert!(inside_box(&you, &board, &game_board, Ratio::new(23, 87)));
    assert!(!inside_box(&you, &board, &game_board, Ratio::new(22, 87)));
    assert!(inside_box(&you, &board, &game_board, Ratio::new(1, 1)));
    assert!(!inside_box(&you, &board, &game_board, Ratio::new(0, 1)));
    let open = board_of(11, 11, &[], vec![snake("a", 99, &[(5, 5), (5, 4)])], &[]);
    let gb = open.to_game_board();
    assert!(!inside_box(&open.snakes[0], &open, &gb, Ratio::new(3, 10)));
}

#[test]
fn key_hole_is_the_segment_nearest_a_tail() {
    // the head at (0,0) is walled in by one snake; the wall's tail end is at (2,0)
    let me = [(0, 0), (0, 0)];
    let wall = [(0, 2), (1, 2), (2, 2), (2, 1), (2, 0)];
    let board = board_of(5, 5, &[], vec![snake("me", 100, &me), snake("w", 100, &wall)], &[]);
    let gb = board.to_game_board();
    assert_eq!(find_key_hole(&board, &gb, &board.snakes[0]), Some(c(2, 0)));
    // without any body around there is none but the own
    let alone = board_of(5, 5, &[], vec![snake("me", 100, &[(0, 0), (4, 4)])], &[]);
    let gb = alone.to_game_board();
    assert_eq!(find_key_hole(&alone, &gb, &alone.snakes[0]), Some(c(4, 4)));
    // a snake that cannot move meets nothing
    let stuck = board_of(1, 1, &[], vec![snake("me", 100, &[(0, 0)])], &[]);
    let gb = stuck.to_game_board();
    assert_eq!(find_key_hole(&stuck, &gb, &stuck.snakes[0]), None);
}

#[test]
fn key_hole_may_lie_next_to_the_head() {
    // the tail at (2,1) cannot be entered, but it is met at once and leaves soonest
    let me = [(1, 1), (1, 0), (0, 0)];
    let other = [(3, 1), (2, 1)];
    let board = board_of(5, 5, &[], vec![snake("me", 100, &me), snake("o", 100, &other)], &[]);
    let gb = board.to_game_board();
    assert!(!can_move_board(&c(2, 1), &board, &gb, &board.snakes[0], Some(false)));
    assert_eq!(find_key_hole(&board, &gb, &board.snakes[0]), Some(c(2, 1)));
}

#[test]
fn key_hole_among_equals_is_the_first_met() {
    // the tails at (0,0) and (4,0) leave equally soon; the search goes right before left
    let me = [(2, 0), (2, 0)];
    let a = [(0, 1), (0, 0)];
    let b = [(4, 1), (4, 0)];
    let board = board_of(5, 5, &[], vec![snake("me", 100, &me), snake("a", 100, &a), snake("b", 100, &b)], &[]);
    let gb = board.to_game_board();
    assert_eq!(find_key_hole(&board, &gb, &board.snakes[0]), Some(c(4, 0)));
}

#[test]
fn long_path_winds_through_the_box() {
    let (board, you) = box_board();
    let game_board = board.to_game_board();
    let path = dfs_long(&c(6, 3), &board, &game_board, &you, Ratio::new(0, 1), 0);
    let expected: Vec<Coord> = [
        (4, 0), (3, 0), (2, 0), (1, 0), (0, 0), (0, 1), (0, 2), (0, 3), (1, 3), (1, 2), (1, 1),
        (2, 1), (2, 2), (2, 3), (3, 3), (3, 2), (3, 1), (4, 1), (5, 1), (5, 2), (4, 2), (4, 3),
        (5, 3), (6, 3),
    ]
    .iter()
    .map(|p| c(p.0, p.1))
    .collect();
    assert_eq!(path, expected);
}

#[test]
fn backtrack_reads_the_path_from_the_parent_map() {
    let mut tree: HashMap<u32, Coord> = HashMap::new();
    tree.insert(tile_key(&c(1, 0)), c(0, 0));
    tree.insert(tile_key(&c(2, 0)), c(1, 0));
    tree.insert(tile_key(&c(2, 1)), c(2, 0));
    tree.insert(tile_key(&c(5, 5)), c(0, 0));
    assert_eq!(backtrack(c(2, 1), &tree), vec![c(1, 0), c(2, 0), c(2, 1)]);
    assert_eq!(backtrack(c(5, 5), &tree), vec![c(5, 5)]);
    assert_eq!(backtrack(c(0, 0), &tree), vec![]);
    assert_eq!(backtrack(c(9, 9), &tree), vec![]);
    // a map that runs in a circle gives no more tiles than it has entries
    let mut ring: HashMap<u32, Coord> = HashMap::new();
    ring.insert(tile_key(&c(0, 0)), c(1, 0));
    ring.insert(tile_key(&c(1, 0)), c(0, 0));
    assert_eq!(backtrack(c(0, 0), &ring), vec![c(1, 0), c(0, 0)]);
    assert_eq!(key_tile(tile_key(&c(-7, 300))), c(-7, 300));
    assert_eq!(tile_key(&c(-32768, -32768)), 0);
    assert_eq!(tile_key(&c(32767, 32767)), u32::MAX);
    assert_eq!(tile_key(&c(0, 0)), 32768 * 65536 + 32768);
}

#[test]
fn future_positions_are_the_last_tiles() {
    let path = vec![c(0, 0), c(1, 0), c(2, 0), c(3, 0)];
    assert_eq!(last_tiles(&path, 2), vec![c(2, 0), c(3, 0)]);
    assert_eq!(last_tiles(&path, 4), path);
    assert_eq!(last_tiles(&path, 9), path);
    assert_eq!(last_tiles(&path, 0), vec![]);
}

#[test]
fn priority_is_cost_plus_distance() {
    assert_eq!(int_sqrt(0), 0);
    assert_eq!(int_sqrt(15), 3);
    assert_eq!(int_sqrt(16), 4);
    assert_eq!(int_sqrt(17), 4);
    assert_eq!(int_sqrt((1u128 << 66) - 1), (1u64 << 33) - 1);
    assert_eq!(search_priority(0, 0), 0);
    assert_eq!(search_priority(3, 4), -(3 * 65536 + 2 * 65536));
    assert_eq!(search_priority(1, 2), -(65536 + 92681));
    assert_eq!(search_priority(16, 0), -(16 * 65536));
    assert!(search_priority(2, 1) > search_priority(1, 5));
    assert!(search_priority(1, 2) > search_priority(2, 1));
}

#[test]
fn words_for_moves() {
    assert_eq!(dirs_to_moves(vec![c(0, 1), c(5, 5), c(-1, 0), c(0, 0), c(0, -1), c(1, 0)]), vec!["up", "left", "down", "right"]);
    assert_eq!(dirs_to_moves(vec![]), Vec::<&str>::new());
    assert_eq!(steps_to_moves(&vec![c(4, 5), c(5, 5), c(5, 6)], &c(5, 5)), vec!["left", "up"]);
    assert_eq!(step_direction(&c(5, 5), &c(5, 4)), Some(Direction::Down));
    assert_eq!(step_direction(&c(5, 5), &c(6, 6)), None);
    assert_eq!(step_direction(&c(-32768, 0), &c(32767, 0)), None);
    let none: Vec<Coord> = vec![];
    let no_words: Vec<&'static str> = vec![];
    assert_eq!(choose_move(&c(5, 5), Some(c(5, 4)), &vec![c(6, 5)], &vec!["left"]), "down");
    assert_eq!(choose_move(&c(5, 5), Some(c(9, 9)), &vec![c(6, 5)], &vec!["left"]), "right");
    assert_eq!(choose_move(&c(5, 5), None, &vec![c(8, 8)], &vec!["left"]), "up");
    assert_eq!(choose_move(&c(5, 5), None, &none, &vec!["left", "down"]), "down");
    assert_eq!(choose_move(&c(5, 5), None, &none, &no_words), "up");
}

#[test]
fn decision_takes_the_way_out_of_the_box() {
    let (board, you) = box_board();
    let game_board = board.to_game_board();
    let first = dfs_long(&c(6, 3), &board, &game_board, &you, Ratio::new(0, 1), 0)[0];
    assert_eq!(first, c(4, 0));
    assert_eq!(get_move(&game("standard"), &3, &board, &you), "left");
}

#[test]
fn decision_goes_for_food() {
    let board = food_board();
    let you = board.snakes[0].clone();
    // with two open neighbours asked of each tile the corner food is out; the way
    // goes over (5,4) to the food on the hazard
    assert_eq!(
        a_star(&board, &board.to_game_board(), &you, Ratio::new(1, 2), 2),
        vec![c(5, 4), c(6, 4), c(7, 4), c(8, 4)]
    );
    assert_eq!(get_move(&game("standard"), &0, &board, &you), "right");
    assert_eq!(get_move(&game("constrictor"), &0, &board, &you), "right");
    let mut near = food_board();
    near.food = vec![c(2, 4)];
    near.hazards = vec![];
    assert_eq!(get_move(&game("standard"), &0, &near, &you), "left");
}

#[test]
fn decision_without_a_move_is_up() {
    let stuck = board_of(1, 1, &[], vec![snake("me", 100, &[(0, 0)])], &[]);
    assert_eq!(get_move(&game("standard"), &9, &stuck, &stuck.snakes[0]), "up");
    assert_eq!(get_move(&game("constrictor"), &9, &stuck, &stuck.snakes[0]), "up");
    // one way only, and a risky one: next to the head of a longer snake
    let me = [(0, 0), (0, 1)];
    let big = [(2, 0), (2, 1), (2, 2)];
    let tight = board_of(3, 3, &[], vec![snake("me", 100, &me), snake("big", 100, &big)], &[]);
    assert_eq!(get_move(&game("constrictor"), &9, &tight, &tight.snakes[0]), "right");
}

#[test]
fn decision_on_a_malformed_snapshot_is_up() {
    let (board, you) = box_board();
    assert_eq!(decide(&game("standard"), &3, &board, &you), "left");
    let mut off = food_board();
    let me = off.snakes[0].clone();
    assert_eq!(decide(&game("standard"), &0, &off, &me), "right");
    off.food.push(c(11, 0));
    assert!(!off.well_formed());
    assert_eq!(decide(&game("standard"), &0, &off, &me), "up");
    let mut off = food_board();
    off.snakes[0].body.push(c(4, -1));
    assert!(!off.well_formed());
    assert_eq!(decide(&game("standard"), &0, &off, &me), "up");
    let mut off = food_board();
    off.hazards.push(c(0, 11));
    assert!(!off.well_formed());
}

#[test]
fn food_next_to_the_head_is_found_within_health() {
    let body = [(5, 5), (5, 4), (5, 3)];
    let half = Ratio::new(1, 2);
    let run = |food: &[(i16, i16)], hazards: &[(i16, i16)], health: u8| {
        let board = board_of(11, 11, food, vec![snake("me", health, &body)], hazards);
        let you = board.snakes[0].clone();
        a_star(&board, &board.to_game_board(), &you, half, 2)
    };
    assert_eq!(run(&[(5, 6)], &[], 100), vec![c(5, 6)]);
    assert_eq!(run(&[(5, 6)], &[], 2), vec![c(5, 6)]);
    assert_eq!(run(&[(5, 6)], &[], 1), vec![]);
    // on a hazard the step costs sixteen
    assert_eq!(run(&[(5, 6)], &[(5, 6)], 50), vec![c(5, 6)]);
    assert_eq!(run(&[(5, 6)], &[(5, 6)], 17), vec![c(5, 6)]);
    assert_eq!(run(&[(5, 6)], &[(5, 6)], 16), vec![]);
    // with food under the head the search ends where it starts
    assert_eq!(run(&[(5, 5), (5, 6)], &[], 50), vec![]);
    assert_eq!(run(&[(5, 5), (5, 6)], &[], 0), vec![]);
}

#[test]
fn food_way_never_runs_over_the_head() {
    // a snake of one segment below full health may step back onto its own tile
    let board = board_of(4, 1, &[(3, 0)], vec![snake("s", 50, &[(1, 0)])], &[]);
    let gb = board.to_game_board();
    let you = board.snakes[0].clone();
    assert!(can_move_board(&you.head, &board, &gb, &you, None));
    let path = a_star(&board, &gb, &you, Ratio::new(0, 1), 0);
    assert_eq!(path, vec![c(2, 0), c(3, 0)]);
    assert!(!path.contains(&you.head));
}

#[test]
fn equal_snapshots_give_equal_moves() {
    let (board, you) = box_board();
    let first = get_move(&game("standard"), &1, &board, &you);
    for turn in 0..5 {
        assert_eq!(get_move(&game("standard"), &turn, &board, &you), first);
    }
    let board = food_board();
    let you = board.snakes[0].clone();
    let way = a_star(&board, &board.to_game_board(), &you, Ratio::new(1, 2), 0);
    for _ in 0..5 {
        assert_eq!(a_star(&board, &board.to_game_board(), &you, Ratio::new(1, 2), 0), way);
    }
}
