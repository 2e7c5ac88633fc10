use snake_core::index::GameBoard;
use snake_core::logic::{
    adj_to_bigger_snake, can_move_board, can_move_on_tail, contains_coord, get_adj_tiles,
    get_all_adj_tiles, get_snake_from_tile, position_of,
};
use snake_core::types::{Battlesnake, Board, Coord, Direction, Flags};

fn c(x: i16, y: i16) -> Coord {
    Coord { x, y }
}

fn snake(id: &str, health: u8, body: &[(i16, i16)]) -> Battlesnake {
    let body: Vec<Coord> = body.iter().map(|p| c(p.0, p.1)).collect();
    Battlesnake {
        id: id.to_string(),
        name: format!("snake {}", id),
        health,
        head: body[0],
        length: body.len() as u32,
        body,
        shout: Some(String::new()),
    }
}

fn board(food: &[(i16, i16)], snakes: Vec<Battlesnake>, hazards: &[(i16, i16)]) -> Board {
    Board {
        height: 11,
        width: 11,
        food: food.iter().map(|p| c(p.0, p.1)).collect(),
        snakes,
        hazards: hazards.iter().map(|p| c(p.0, p.1)).collect(),
    }
}

#[test]
fn avoid_wall() {
    let body = [(5, 10), (5, 9), (5, 8), (5, 7)];
    let board = board(&[], vec![snake("GUODB", 100, &body)], &[]);
    let mut you = snake("GUODB", 100, &body);
    you.health -= 1;
    let game_board = board.to_game_board();
    let point = Coord { x: 5, y: 11 };

    assert!(!can_move_board(&point, &board, &game_board, &you, None));
}

#[test]
fn avoid_snake_tail() {
    let long = [
        (3, 3), (3, 4), (2, 4), (2, 5), (2, 6), (2, 7), (3, 7), (4, 7), (5, 7), (6, 7), (7, 7),
    ];
    let short = [(3, 6), (3, 5), (4, 5), (5, 5)];
    let board = board(&[], vec![snake("unnda", 100, &long), snake("q1pji", 100, &short)], &[]);
    let mut you = snake("q1pji", 100, &short);
    you.health -= 1;
    let game_board = board.to_game_board();
    assert!(!can_move_board(&Coord { x: 2, y: 6 }, &board, &game_board, &you, None));
    assert!(can_move_board(&Coord { x: 4, y: 6 }, &board, &game_board, &you, None));
}

#[test]
fn avoid_head_to_head() {
    let a = [(4, 5), (3, 5), (2, 5), (1, 5)];
    let b = [(5, 4), (5, 3), (5, 2), (5, 1)];
    let board = board(&[(5, 5)], vec![snake("mTOl1", 80, &a), snake("uZejq", 80, &b)], &[]);
    let mut you = snake("uZejq", 80, &b);
    you.health -= 1;
    let game_board = board.to_game_board();
    assert!(!can_move_board(&Coord { x: 5, y: 5 }, &board, &game_board, &you, None));
    assert!(can_move_board(&Coord { x: 6, y: 4 }, &board, &game_board, &you, None));
}

#[test]
fn head_to_head_is_rejected_by_both() {
    let a = [(4, 5), (3, 5), (2, 5), (1, 5)];
    let b = [(5, 4), (5, 3), (5, 2), (5, 1)];
    let board = board(&[(5, 5)], vec![snake("mTOl1", 80, &a), snake("uZejq", 80, &b)], &[]);
    let game_board = board.to_game_board();
    let contested = c(5, 5);
    assert!(!can_move_board(&contested, &board, &game_board, &board.snakes[0], None));
    assert!(!can_move_board(&contested, &board, &game_board, &board.snakes[1], None));
    // with the veto relaxed the tile is as legal as any free tile
    assert!(can_move_board(&contested, &board, &game_board, &board.snakes[0], Some(false)));
    assert!(can_move_board(&contested, &board, &game_board, &board.snakes[1], Some(false)));
}

#[test]
fn shorter_snake_does_not_veto() {
    let a = [(4, 5), (3, 5), (2, 5)];
    let b = [(5, 4), (5, 3), (5, 2), (5, 1)];
    let board = board(&[], vec![snake("short", 80, &a), snake("long", 80, &b)], &[]);
    let game_board = board.to_game_board();
    let contested = c(5, 5);
    assert!(can_move_board(&contested, &board, &game_board, &board.snakes[1], None));
    assert!(!can_move_board(&contested, &board, &game_board, &board.snakes[0], None));
    assert!(adj_to_bigger_snake(&contested, &board, &board.snakes[0]));
    assert!(!adj_to_bigger_snake(&contested, &board, &board.snakes[1]));
}

#[test]
fn off_board_is_never_enterable() {
    let body = [(0, 0), (1, 0), (2, 0)];
    let board = board(&[], vec![snake("a", 50, &body)], &[]);
    let you = snake("a", 50, &body);
    let game_board = board.to_game_board();
    for t in [c(-1, 0), c(0, -1), c(11, 0), c(0, 11), c(256, 0), c(0, 256), c(-32768, 32767)] {
        assert!(!can_move_board(&t, &board, &game_board, &you, None));
        assert!(!can_move_board(&t, &board, &game_board, &you, Some(false)));
    }
    assert!(can_move_board(&c(0, 1), &board, &game_board, &you, None));
    assert!(can_move_board(&c(10, 10), &board, &game_board, &you, None));
}

#[test]
fn tail_is_enterable_only_below_full_health() {
    let body = [(3, 3), (3, 4), (3, 5)];
    let me = [(5, 5), (6, 5), (7, 5)];
    let fed = board(&[], vec![snake("other", 100, &body), snake("me", 90, &me)], &[]);
    let hungry = board(&[], vec![snake("other", 99, &body), snake("me", 90, &me)], &[]);
    let you = snake("me", 90, &me);
    let tail = c(3, 5);
    assert!(!can_move_board(&tail, &fed, &fed.to_game_board(), &you, None));
    assert!(can_move_board(&tail, &hungry, &hungry.to_game_board(), &you, None));
    // a segment that is no tail blocks either way
    assert!(!can_move_board(&c(3, 4), &fed, &fed.to_game_board(), &you, None));
    assert!(!can_move_board(&c(3, 4), &hungry, &hungry.to_game_board(), &you, None));
    assert!(can_move_on_tail(&hungry.snakes, &tail));
    assert!(!can_move_on_tail(&fed.snakes, &tail));
    assert!(!can_move_on_tail(&hungry.snakes, &c(3, 4)));
}

#[test]
fn hazard_and_food_tiles_are_free() {
    let me = [(5, 5), (6, 5), (7, 5)];
    let board = board(&[(1, 1), (2, 2)], vec![snake("me", 90, &me)], &[(2, 2), (3, 3)]);
    let you = snake("me", 90, &me);
    let game_board = board.to_game_board();
    assert!(can_move_board(&c(1, 1), &board, &game_board, &you, None));
    assert!(can_move_board(&c(2, 2), &board, &game_board, &you, None));
    assert!(can_move_board(&c(3, 3), &board, &game_board, &you, None));
    assert!(!can_move_board(&c(6, 5), &board, &game_board, &you, None));
}

#[test]
fn index_joins_marks() {
    let me = [(5, 5), (6, 5), (7, 5)];
    let other = [(7, 5), (7, 6)];
    let board = board(
        &[(1, 1), (2, 2), (7, 5)],
        vec![snake("me", 90, &me), snake("o", 90, &other)],
        &[(2, 2), (3, 3)],
    );
    let game_board: GameBoard = board.to_game_board();
    let none = Flags { empty: false, food: false, ally: false, snake: false, hazard: false };
    assert_eq!(game_board.get(&c(0, 0)), Flags { empty: true, ..none });
    assert_eq!(game_board.get(&c(1, 1)), Flags { food: true, ..none });
    assert_eq!(game_board.get(&c(2, 2)), Flags { food: true, hazard: true, ..none });
    assert_eq!(game_board.get(&c(3, 3)), Flags { hazard: true, ..none });
    assert_eq!(game_board.get(&c(5, 5)), Flags { snake: true, ..none });
    assert_eq!(game_board.get(&c(7, 5)), Flags { snake: true, food: true, ..none });
    assert_eq!(game_board.get(&c(-3, 40)), Flags { empty: true, ..none });
    assert_eq!(game_board.tiles.len(), 7);
}

#[test]
fn flags_union_and_freedom() {
    let f = Flags::food_tile().union(&Flags::hazard_tile());
    assert!(f.food && f.hazard && !f.snake && !f.empty && !f.ally);
    assert!(f.is_free());
    assert!(!f.union(&Flags::snake_tile()).is_free());
    assert!(Flags::empty_tile().is_free());
    assert_eq!(f.union(&f), f);
}

#[test]
fn test_get_head_adj() {
    let body = [(5, 10), (5, 9), (5, 8), (5, 7)];
    let board = board(&[], vec![snake("GUODB", 100, &body)], &[]);
    let you: Battlesnake = board.snakes[0].clone();
    let game_board = board.to_game_board();
    let adj = get_adj_tiles(&you.head, &board, &game_board, &you, None, None);
    assert!(
        adj.contains(&(you.head + Direction::Left.unit()))
            && adj.contains(&(you.head + Direction::Right.unit()))
            && adj.len() == 2
    );
}

#[test]
fn neighbours_come_in_listing_order() {
    let me = [(5, 5), (5, 4)];
    let board = board(&[], vec![snake("me", 90, &me)], &[]);
    let you = snake("me", 90, &me);
    let game_board = board.to_game_board();
    let adj = get_adj_tiles(&c(2, 2), &board, &game_board, &you, None, None);
    assert_eq!(adj, vec![c(2, 3), c(3, 2), c(1, 2), c(2, 1)]);
    let adj = get_adj_tiles(&c(2, 2), &board, &game_board, &you, None, Some(vec![c(3, 2), c(9, 9)]));
    assert_eq!(adj, vec![c(2, 3), c(1, 2), c(2, 1)]);
    // the own tail leaves its tile, so the step back onto it is listed
    let adj = get_adj_tiles(&you.head, &board, &game_board, &you, None, None);
    assert_eq!(adj, vec![c(5, 6), c(6, 5), c(4, 5), c(5, 4)]);
    let fed = snake("me", 100, &me);
    let fed_board = self::board(&[], vec![snake("me", 100, &me)], &[]);
    let adj = get_adj_tiles(&fed.head, &fed_board, &fed_board.to_game_board(), &fed, None, None);
    assert_eq!(adj, vec![c(5, 6), c(6, 5), c(4, 5)]);
    assert_eq!(get_all_adj_tiles(&c(0, 0), &board), vec![c(0, 1), c(1, 0)]);
    assert_eq!(get_all_adj_tiles(&c(10, 10), &board), vec![c(9, 10), c(10, 9)]);
    assert_eq!(get_all_adj_tiles(&you.head, &board), vec![c(5, 6), c(6, 5), c(4, 5), c(5, 4)]);
    assert_eq!(get_all_adj_tiles(&c(32767, 32767), &board), vec![]);
    assert_eq!(get_all_adj_tiles(&c(-1, 3), &board), vec![c(0, 3)]);
}

#[test]
fn first_snake_on_a_tile() {
    let a = [(1, 1), (1, 2), (1, 3), (1, 2)];
    let b = [(1, 3), (2, 3)];
    let snakes = vec![snake("a", 90, &a), snake("b", 90, &b)];
    assert_eq!(get_snake_from_tile(&c(1, 3), &snakes).unwrap().id, "a");
    assert_eq!(get_snake_from_tile(&c(2, 3), &snakes).unwrap().id, "b");
    assert!(get_snake_from_tile(&c(5, 5), &snakes).is_none());
    assert_eq!(position_of(&snakes[0].body, &c(1, 2)), Some(1));
    assert_eq!(position_of(&snakes[0].body, &c(9, 9)), None);
    assert!(contains_coord(&snakes[0].body, &c(1, 3)));
    assert!(!contains_coord(&snakes[1].body, &c(1, 1)));
    assert!(snakes[0] == snake("a", 1, &b));
    assert!(snakes[0] != snakes[1]);
}

#[test]
fn directions_and_steps() {
    assert_eq!(
        Direction::all(),
        vec![Direction::Up, Direction::Right, Direction::Left, Direction::Down]
    );
    assert_eq!(Direction::Up.unit(), c(0, 1));
    assert_eq!(Direction::Right.unit(), c(1, 0));
    assert_eq!(Direction::Left.unit(), c(-1, 0));
    assert_eq!(Direction::Down.unit(), c(0, -1));
    assert_eq!(Direction::Down.name(), "down");
    assert_eq!(Direction::Up.name(), "up");
    assert_eq!(Direction::Left.name(), "left");
    assert_eq!(Direction::Right.name(), "right");
    for d in Direction::all() {
        assert_eq!(Direction::of_unit(&d.unit()), Some(d));
    }
    assert_eq!(Direction::of_unit(&c(1, 1)), None);
    assert_eq!(Direction::of_unit(&c(0, 0)), None);
    assert_eq!(Direction::Up.step(&c(3, 32767)), None);
    assert_eq!(Direction::Left.step(&c(-32768, 0)), None);
    assert_eq!(Direction::Left.step(&c(0, 0)), Some(c(-1, 0)));
    assert_eq!(c(3, 4) + c(-1, 2), c(2, 6));
    assert_eq!(c(3, 4) - c(-1, 2), c(4, 2));
    assert_eq!(c(3, 4).distance_squared(&c(0, 0)), 25);
    assert_eq!(c(-32768, -32768).distance_squared(&c(32767, 32767)), 2 * 65535 * 65535);
    assert_eq!(c(7, 7).distance_squared(&c(7, 7)), 0);
}
