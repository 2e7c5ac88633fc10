use snake_core::connect::{num_connected_tiles, num_free_tiles};
use snake_core::logic::can_move_board;
use snake_core::moves::get_move;
use snake_core::rank::get_adj_tiles_connected;
use snake_core::search::astar::a_star;
use snake_core::search::dfs::dfs_long;
use snake_core::search::graph::{find_key_hole, inside_box};
use snake_core::types::{Battlesnake, Board, Coord, Game, Ratio};

fn c(x: i16, y: i16) -> Coord {
    Coord { x, y }
}

fn to_coords(pts: &[(i16, i16)]) -> Vec<Coord> {
    pts.iter().map(|p| c(p.0, p.1)).collect()
}

fn snake(id: &str, health: u8, body: &[(i16, i16)]) -> Battlesnake {
    let body = to_coords(body);
    Battlesnake {
        id: id.to_string(),
        name: format!("snake {}", id),
        health,
        head: body[0],
        length: body.len() as u32,
        body,
        shout: None,
    }
}

fn board_of(w: u8, h: u8, food: &[(i16, i16)], snakes: Vec<Battlesnake>, hazards: &[(i16, i16)]) -> Board {
    Board { height: h, width: w, food: to_coords(food), snakes, hazards: to_coords(hazards) }
}

fn game(ruleset: &str) -> Game {
    Game { id: "g".to_string(), ruleset_name: ruleset.to_string(), timeout: 500 }
}

struct Case {
    board: Board,
    legal: &'static str,
    risky: &'static str,
    free: u16,
    reached: u32,
    ranked: Vec<Coord>,
    relaxed: Vec<Coord>,
    boxed: bool,
    hole: Option<Coord>,
    way: Vec<Coord>,
    food_way: Vec<Coord>,
    word: &'static str,
    constrictor_word: &'static str,
}

fn grid(board: &Board, avoid: bool) -> String {
    let you = &board.snakes[0];
    let gb = board.to_game_board();
    let mut s = String::new();
    for y in 0..board.height as i16 {
        for x in 0..board.width as i16 {
            s.push(if can_move_board(&c(x, y), board, &gb, you, Some(avoid)) { '1' } else { '0' });
        }
    }
    s
}

// Boards drawn at random, each taken as the first snake's turn, with what the rules give
// for them: the legality of every tile, the counts, the rankings, the searches and the move.
fn cases() -> Vec<Case> {
    vec![
    Case {
        board: board_of(7, 7, &[(4, 5)], vec![snake("s0", 100, &[(0, 3), (0, 2), (1, 2), (2, 2), (2, 2)])], &[]),
        legal: "1111111111111100011110111111111111111111111111111",
        risky: "1111111111111100011110111111111111111111111111111",
        free: 45,
        reached: 45,
        ranked: to_coords(&[(0, 4), (1, 3)]),
        relaxed: to_coords(&[(1, 3), (0, 4)]),
        boxed: false,
        hole: Some(c(2, 2)),
        way: to_coords(&[(0, 4), (0, 5), (0, 6), (1, 6), (2, 6), (3, 6), (4, 6), (5, 6), (6, 6), (6, 5), (6, 4), (6, 3), (6, 2), (6, 1), (6, 0), (5, 0), (5, 1), (5, 2), (5, 3), (5, 4), (5, 5), (4, 5), (3, 5), (2, 5), (1, 5), (1, 4), (2, 4), (3, 4), (4, 4), (4, 3), (4, 2), (4, 1), (4, 0), (3, 0), (2, 0), (1, 0), (0, 0), (0, 1), (1, 1), (2, 1), (2, 2)]),
        food_way: to_coords(&[(1, 3), (2, 3), (3, 3), (3, 4), (4, 4), (4, 5)]),
        word: "right",
        constrictor_word: "right",
    },
    Case {
        board: board_of(7, 3, &[], vec![snake("s0", 100, &[(3, 1), (4, 1), (4, 2), (3, 2), (2, 2), (1, 2), (0, 2), (0, 1), (0, 1)]), snake("s1", 60, &[(2, 0), (2, 1), (1, 1), (1, 0), (0, 0)])], &[(5, 1), (2, 2), (2, 0)]),
        legal: "100111100000110000011",
        risky: "100111100000110000011",
        free: 7,
        reached: 8,
        ranked: to_coords(&[(3, 0)]),
        relaxed: to_coords(&[(3, 0)]),
        boxed: false,
        hole: Some(c(2, 1)),
        way: to_coords(&[(2, 1)]),
        food_way: to_coords(&[]),
        word: "down",
        constrictor_word: "down",
    },
    Case {
        board: board_of(4, 5, &[(0, 0)], vec![snake("s0", 99, &[(3, 3), (3, 2), (2, 2), (2, 3), (1, 3), (1, 2)])], &[(1, 4), (2, 1)]),
        legal: "11111111110010001111",
        risky: "11111111110010001111",
        free: 12,
        reached: 15,
        ranked: to_coords(&[(3, 4)]),
        relaxed: to_coords(&[(3, 4)]),
        boxed: false,
        hole: Some(c(1, 2)),
        way: to_coords(&[(3, 4), (2, 4), (1, 4), (0, 4), (0, 3), (0, 2), (1, 2)]),
        food_way: to_coords(&[(3, 4), (2, 4), (1, 4), (0, 4), (0, 3), (0, 2), (0, 1), (0, 0)]),
        word: "up",
        constrictor_word: "up",
    },
    Case {
        board: board_of(5, 3, &[], vec![snake("s0", 3, &[(3, 2), (2, 2), (2, 1), (2, 0), (1, 0)])], &[(0, 1)]),
        legal: "110111101111001",
        risky: "110111101111001",
        free: 9,
        reached: 5,
        ranked: to_coords(&[(4, 2), (3, 1)]),
        relaxed: to_coords(&[(4, 2), (3, 1)]),
        boxed: false,
        hole: Some(c(2, 0)),
        way: to_coords(&[(4, 2), (4, 1), (4, 0), (3, 0), (2, 0)]),
        food_way: to_coords(&[]),
        word: "down",
        constrictor_word: "down",
    },
    Case {
        board: board_of(4, 6, &[], vec![snake("s0", 8, &[(2, 4), (2, 5)]), snake("s1", 60, &[(0, 1), (0, 0)]), snake("s2", 60, &[(3, 2), (2, 2), (2, 1), (1, 1), (1, 2)]), snake("s3", 3, &[(1, 0), (2, 0), (3, 0), (3, 1)])], &[(0, 2), (1, 1), (0, 2)]),
        legal: "000000000100111011011111",
        risky: "100000011100111111011111",
        free: 10,
        reached: 11,
        ranked: to_coords(&[(3, 4), (2, 3), (2, 5), (1, 4)]),
        relaxed: to_coords(&[(2, 5), (3, 4), (1, 4), (2, 3)]),
        boxed: false,
        hole: Some(c(2, 5)),
        way: to_coords(&[(2, 5)]),
        food_way: to_coords(&[]),
        word: "down",
        constrictor_word: "down",
    },
    Case {
        board: board_of(6, 8, &[(0, 2)], vec![snake("s0", 99, &[(5, 0), (5, 0)]), snake("s1", 100, &[(4, 7), (3, 7), (3, 6)])], &[(2, 7), (3, 3), (0, 2), (0, 5)]),
        legal: "111111111111111111111111111111111111111001111000",
        risky: "111111111111111111111111111111111111111011111001",
        free: 40,
        reached: 43,
        ranked: to_coords(&[(4, 0), (5, 1)]),
        relaxed: to_coords(&[(4, 0), (5, 1)]),
        boxed: false,
        hole: Some(c(3, 6)),
        way: to_coords(&[(4, 0), (3, 0), (2, 0), (1, 0), (0, 0), (0, 1), (1, 1), (2, 1), (3, 1), (4, 1), (5, 1), (5, 2), (4, 2), (3, 2), (2, 2), (1, 2), (0, 2), (0, 3), (0, 4), (0, 5), (0, 6), (0, 7), (1, 7), (1, 6), (1, 5), (1, 4), (1, 3), (2, 3), (3, 3), (4, 3), (5, 3), (5, 4), (5, 5), (4, 5), (4, 4), (3, 4), (2, 4), (2, 5), (2, 6), (3, 6)]),
        food_way: to_coords(&[(4, 0), (3, 0), (2, 0), (2, 1), (1, 1), (1, 2), (0, 2)]),
        word: "left",
        constrictor_word: "left",
    },
    Case {
        board: board_of(6, 8, &[], vec![snake("s0", 99, &[(5, 7), (4, 7), (4, 6)]), snake("s1", 30, &[(3, 0)]), snake("s2", 3, &[(2, 6)]), snake("s3", 8, &[(0, 6), (1, 6), (1, 5), (0, 5), (0, 4), (1, 4), (1, 3), (2, 3)])], &[(0, 2)]),
        legal: "111111111111111111101111001111001111001111011100",
        risky: "111111111111111111101111001111001111001111111100",
        free: 34,
        reached: 38,
        ranked: to_coords(&[(5, 6)]),
        relaxed: to_coords(&[(5, 6)]),
        boxed: false,
        hole: Some(c(4, 6)),
        way: to_coords(&[(5, 6), (4, 6)]),
        food_way: to_coords(&[]),
        word: "down",
        constrictor_word: "down",
    },
    Case {
        board: board_of(3, 6, &[], vec![snake("s0", 99, &[(1, 3), (1, 4), (1, 5), (2, 5), (2, 4), (2, 3), (2, 2)]), snake("s1", 99, &[(1, 2), (1, 1), (1, 0)]), snake("s2", 100, &[(0, 3), (0, 4), (0, 5), (0, 5)]), snake("s3", 8, &[(2, 1), (2, 0)])], &[(1, 4), (2, 3)]),
        legal: "111100101000000000",
        risky: "111100101000000000",
        free: 3,
        reached: 0,
        ranked: to_coords(&[]),
        relaxed: to_coords(&[]),
        boxed: true,
        hole: Some(c(2, 3)),
        way: to_coords(&[(2, 3)]),
        food_way: to_coords(&[]),
        word: "up",
        constrictor_word: "up",
    },
    Case {
        board: board_of(3, 8, &[(0, 4)], vec![snake("s0", 99, &[(2, 3), (1, 3), (1, 4), (2, 4), (2, 5), (2, 6), (1, 6), (1, 5), (0, 5)]), snake("s1", 100, &[(1, 1), (1, 0), (0, 0), (0, 0)]), snake("s2", 99, &[(0, 7), (1, 7), (2, 7)]), snake("s3", 3, &[(2, 2), (2, 1), (2, 0)])], &[(1, 7)]),
        legal: "001100110100100100100001",
        risky: "001100110100100100100001",
        free: 6,
        reached: 0,
        ranked: to_coords(&[]),
        relaxed: to_coords(&[]),
        boxed: true,
        hole: Some(c(2, 2)),
        way: to_coords(&[(2, 2)]),
        food_way: to_coords(&[]),
        word: "up",
        constrictor_word: "up",
    },
    Case {
        board: board_of(5, 5, &[(3, 0)], vec![snake("s0", 100, &[(3, 4), (3, 3), (4, 3), (4, 4)]), snake("s1", 100, &[(1, 1), (1, 0), (0, 0), (0, 0)]), snake("s2", 30, &[(4, 1), (3, 1), (3, 2), (4, 2)]), snake("s3", 3, &[(0, 3), (0, 2)])], &[(3, 2), (0, 4), (3, 0), (1, 4)]),
        legal: "0011000000101000110011100",
        risky: "0011110100111010110011100",
        free: 9,
        reached: 6,
        ranked: to_coords(&[(2, 4)]),
        relaxed: to_coords(&[(2, 4)]),
        boxed: false,
        hole: Some(c(4, 4)),
        way: to_coords(&[(4, 4)]),
        food_way: to_coords(&[]),
        word: "left",
        constrictor_word: "left",
    },
    Case {
        board: board_of(6, 4, &[(2, 0)], vec![snake("s0", 30, &[(2, 3), (2, 2), (3, 2)]), snake("s1", 100, &[(5, 2), (5, 3), (4, 3), (4, 2), (4, 1), (4, 0), (4, 0)]), snake("s2", 30, &[(3, 3), (3, 3)]), snake("s3", 60, &[(0, 3), (1, 3)])], &[(4, 0), (2, 0), (2, 1)]),
        legal: "111101111100110100010100",
        risky: "111101111101110100010100",
        free: 10,
        reached: 13,
        ranked: to_coords(&[]),
        relaxed: to_coords(&[(3, 3), (1, 3)]),
        boxed: false,
        hole: Some(c(1, 3)),
        way: to_coords(&[(1, 3)]),
        food_way: to_coords(&[]),
        word: "left",
        constrictor_word: "left",
    },
    Case {
        board: board_of(3, 6, &[(0, 1), (0, 2)], vec![snake("s0", 30, &[(2, 2), (2, 1), (1, 1), (1, 0)]), snake("s1", 3, &[(1, 5), (2, 5), (2, 4), (1, 4), (1, 3)]), snake("s2", 60, &[(2, 0), (2, 0)])], &[(1, 1), (1, 4), (2, 0), (0, 3)]),
        legal: "111100110111100000",
        risky: "111100110111100100",
        free: 7,
        reached: 10,
        ranked: to_coords(&[(1, 2)]),
        relaxed: to_coords(&[(1, 2), (2, 3)]),
        boxed: false,
        hole: Some(c(1, 3)),
        way: to_coords(&[(2, 3), (1, 3)]),
        food_way: to_coords(&[(1, 2), (0, 2)]),
        word: "left",
        constrictor_word: "left",
    },
    Case {
        board: board_of(3, 7, &[(0, 0)], vec![snake("s0", 60, &[(1, 6)]), snake("s1", 100, &[(2, 6), (2, 5), (2, 5)]), snake("s2", 99, &[(0, 3), (0, 4), (0, 4)])], &[(1, 6), (1, 1), (2, 6), (2, 3)]),
        legal: "111111011001011110100",
        risky: "111111111011111110110",
        free: 14,
        reached: 14,
        ranked: to_coords(&[(0, 6), (1, 5)]),
        relaxed: to_coords(&[(1, 5), (0, 6)]),
        boxed: false,
        hole: Some(c(1, 6)),
        way: to_coords(&[]),
        food_way: to_coords(&[]),
        word: "down",
        constrictor_word: "down",
    },
    Case {
        board: board_of(4, 3, &[(0, 0)], vec![snake("s0", 8, &[(3, 2), (2, 2), (2, 1), (3, 1), (3, 0), (2, 0)])], &[(0, 1), (0, 1)]),
        legal: "111011001100",
        risky: "111011001100",
        free: 5,
        reached: 0,
        ranked: to_coords(&[]),
        relaxed: to_coords(&[]),
        boxed: true,
        hole: Some(c(3, 1)),
        way: to_coords(&[(3, 1)]),
        food_way: to_coords(&[]),
        word: "up",
        constrictor_word: "up",
    },
    Case {
        board: board_of(8, 7, &[], vec![snake("s0", 8, &[(0, 5), (0, 6), (1, 6), (1, 5), (1, 4)]), snake("s1", 60, &[(0, 1), (1, 1), (1, 2), (2, 2), (3, 2), (3, 3), (3, 4)])], &[]),
        legal: "01111111001111110000111111101111111111110011111100111111",
        risky: "11111111001111111000111111101111111111110011111100111111",
        free: 44,
        reached: 44,
        ranked: to_coords(&[(0, 4)]),
        relaxed: to_coords(&[(0, 4)]),
        boxed: false,
        hole: Some(c(1, 4)),
        way: to_coords(&[(0, 4), (1, 4)]),
        food_way: to_coords(&[]),
        word: "down",
        constrictor_word: "down",
    },
    Case {
        board: board_of(3, 6, &[], vec![snake("s0", 8, &[(0, 4), (0, 3), (1, 3)]), snake("s1", 3, &[(0, 0), (1, 0), (2, 0), (2, 1)]), snake("s2", 3, &[(2, 4), (1, 4), (1, 5), (2, 5)])], &[(2, 5), (0, 1), (2, 3)]),
        legal: "000011111010000100",
        risky: "000111111011000101",
        free: 5,
        reached: 1,
        ranked: to_coords(&[(0, 5)]),
        relaxed: to_coords(&[(0, 5)]),
        boxed: true,
        hole: Some(c(0, 3)),
        way: to_coords(&[(0, 3)]),
        food_way: to_coords(&[]),
        word: "up",
        constrictor_word: "up",
    },
    Case {
        board: board_of(8, 6, &[], vec![snake("s0", 100, &[(2, 3), (1, 3), (0, 3), (0, 4), (0, 5), (1, 5), (1, 4), (2, 4)])], &[(1, 4), (5, 4), (3, 3), (7, 5)]),
        legal: "111111111111111111111111000111110001111100111111",
        risky: "111111111111111111111111000111110001111100111111",
        free: 37,
        reached: 40,
        ranked: to_coords(&[(2, 2), (3, 3)]),
        relaxed: to_coords(&[(2, 2), (3, 3)]),
        boxed: false,
        hole: Some(c(2, 4)),
        way: to_coords(&[(2, 4)]),
        food_way: to_coords(&[]),
        word: "right",
        constrictor_word: "right",
    },
    Case {
        board: board_of(6, 6, &[], vec![snake("s0", 8, &[(5, 3), (4, 3), (4, 4), (4, 5)]), snake("s1", 100, &[(0, 1), (0, 2), (1, 2), (1, 1), (1, 0), (2, 0)]), snake("s2", 100, &[(3, 0), (3, 1), (2, 1), (2, 2), (2, 3), (1, 3), (0, 3), (0, 4), (0, 5), (0, 5)]), snake("s3", 100, &[(2, 5), (1, 5), (1, 4), (2, 4), (3, 4), (3, 5)])], &[(5, 0)]),
        legal: "000001000011000111000100000001000011",
        risky: "100011000011000111000100000001000011",
        free: 10,
        reached: 10,
        ranked: to_coords(&[(5, 2)]),
        relaxed: to_coords(&[(5, 4), (5, 2)]),
        boxed: false,
        hole: Some(c(4, 5)),
        way: to_coords(&[(5, 4), (5, 5), (4, 5)]),
        food_way: to_coords(&[]),
        word: "down",
        constrictor_word: "down",
    },
    Case {
        board: board_of(6, 4, &[], vec![snake("s0", 60, &[(0, 2), (0, 3), (1, 3), (1, 3)]), snake("s1", 8, &[(0, 0), (1, 0), (2, 0), (3, 0), (3, 1)]), snake("s2", 8, &[(4, 1), (4, 0), (5, 0), (5, 1)]), snake("s3", 3, &[(3, 2)])], &[(2, 3)]),
        legal: "000000011000011101011111",
        risky: "000000111101011111011111",
        free: 10,
        reached: 11,
        ranked: to_coords(&[(1, 2)]),
        relaxed: to_coords(&[(0, 1), (1, 2)]),
        boxed: false,
        hole: Some(c(3, 2)),
        way: to_coords(&[(1, 2), (1, 3), (2, 3), (3, 3), (3, 2)]),
        food_way: to_coords(&[]),
        word: "right",
        constrictor_word: "right",
    },
    Case {
        board: board_of(4, 5, &[], vec![snake("s0", 8, &[(1, 1), (1, 2), (1, 3), (0, 3), (0, 4), (1, 4), (2, 4)]), snake("s1", 100, &[(2, 1), (3, 1), (3, 0), (2, 0), (1, 0), (0, 0), (0, 1), (0, 2)]), snake("s2", 99, &[(3, 2), (2, 2), (2, 3), (3, 3), (3, 4)])], &[(2, 3)]),
        legal: "00000000000000000011",
        risky: "00000000000000000011",
        free: 0,
        reached: 0,
        ranked: to_coords(&[]),
        relaxed: to_coords(&[]),
        boxed: true,
        hole: Some(c(0, 1)),
        way: to_coords(&[(0, 1)]),
        food_way: to_coords(&[]),
        word: "up",
        constrictor_word: "up",
    },
    Case {
        board: board_of(4, 5, &[(3, 4), (0, 0), (2, 2)], vec![snake("s0", 3, &[(0, 2)]), snake("s1", 8, &[(3, 0), (2, 0)])], &[(2, 3), (3, 0)]),
        legal: "11001110111111111111",
        risky: "11101111111111111111",
        free: 16,
        reached: 17,
        ranked: to_coords(&[(0, 3), (0, 1), (1, 2)]),
        relaxed: to_coords(&[(1, 2), (0, 1), (0, 3)]),
        boxed: false,
        hole: Some(c(0, 2)),
        way: to_coords(&[]),
        food_way: to_coords(&[(1, 2), (2, 2)]),
        word: "right",
        constrictor_word: "right",
    },
    Case {
        board: board_of(3, 3, &[], vec![snake("s0", 100, &[(0, 2)]), snake("s1", 60, &[(2, 1), (1, 1), (1, 0)])], &[(0, 0), (1, 1), (2, 1)]),
        legal: "110100010",
        risky: "111100011",
        free: 4,
        reached: 4,
        ranked: to_coords(&[]),
        relaxed: to_coords(&[(1, 2), (0, 1)]),
        boxed: false,
        hole: Some(c(0, 2)),
        way: to_coords(&[]),
        food_way: to_coords(&[]),
        word: "down",
        constrictor_word: "down",
    },
    Case {
        board: board_of(4, 7, &[], vec![snake("s0", 30, &[(1, 4), (1, 5), (2, 5), (2, 5)]), snake("s1", 30, &[(3, 1), (3, 0), (2, 0), (1, 0), (0, 0), (0, 1), (1, 1), (2, 1)]), snake("s2", 100, &[(3, 3), (2, 3), (2, 4), (3, 4)]), snake("s3", 60, &[(0, 2), (0, 3), (1, 3), (1, 2)])], &[(2, 2), (0, 5), (0, 6)]),
        legal: "0000000000100000100010111111",
        risky: "0000001001110000100010111111",
        free: 6,
        reached: 8,
        ranked: to_coords(&[(0, 4)]),
        relaxed: to_coords(&[(0, 4)]),
        boxed: false,
        hole: Some(c(3, 4)),
        way: to_coords(&[(0, 4), (0, 5), (0, 6), (1, 6), (2, 6), (3, 6), (3, 5), (3, 4)]),
        food_way: to_coords(&[]),
        word: "left",
        constrictor_word: "left",
    },
    Case {
        board: board_of(4, 5, &[], vec![snake("s0", 99, &[(0, 3), (0, 4), (1, 4), (1, 3), (2, 3), (2, 4), (3, 4)]), snake("s1", 100, &[(0, 1)]), snake("s2", 30, &[(1, 1), (1, 2), (0, 2)]), snake("s3", 100, &[(3, 3)])], &[]),
        legal: "11110011101100000001",
        risky: "11110011101100000001",
        free: 8,
        reached: 1,
        ranked: to_coords(&[(0, 2)]),
        relaxed: to_coords(&[(0, 2)]),
        boxed: true,
        hole: Some(c(0, 2)),
        way: to_coords(&[(0, 2)]),
        food_way: to_coords(&[]),
        word: "down",
        constrictor_word: "down",
    },
    Case {
        board: board_of(5, 6, &[], vec![snake("s0", 100, &[(3, 5), (4, 5)]), snake("s1", 100, &[(0, 4), (0, 3), (0, 2)]), snake("s2", 60, &[(4, 3), (4, 3)])], &[(0, 3)]),
        legal: "111111111101110011000011001100",
        risky: "111111111101111011110111111100",
        free: 24,
        reached: 19,
        ranked: to_coords(&[(3, 4), (2, 5)]),
        relaxed: to_coords(&[(2, 5), (3, 4)]),
        boxed: false,
        hole: Some(c(4, 5)),
        way: to_coords(&[(4, 5)]),
        food_way: to_coords(&[]),
        word: "down",
        constrictor_word: "down",
    },
    Case {
        board: board_of(7, 5, &[], vec![snake("s0", 99, &[(4, 3), (3, 3), (3, 4), (2, 4), (2, 3), (1, 3)]), snake("s1", 30, &[(0, 0)]), snake("s2", 8, &[(4, 2), (3, 2), (2, 2), (1, 2), (0, 2), (0, 3), (0, 4), (1, 4), (1, 4)]), snake("s3", 100, &[(6, 0), (6, 1), (6, 2), (5, 2), (5, 3), (6, 3), (6, 4), (6, 4)])], &[]),
        legal: "11111001111010000000001000000100110",
        risky: "11111101111110000000001000000100110",
        free: 13,
        reached: 2,
        ranked: to_coords(&[(4, 4)]),
        relaxed: to_coords(&[(4, 4)]),
        boxed: true,
        hole: Some(c(6, 4)),
        way: to_coords(&[(4, 4), (5, 4), (6, 4)]),
        food_way: to_coords(&[]),
        word: "up",
        constrictor_word: "up",
    },
    Case {
        board: board_of(8, 6, &[(0, 0)], vec![snake("s0", 3, &[(2, 4), (2, 3), (2, 2), (2, 1), (3, 1), (3, 0), (2, 0), (1, 0), (1, 1)])], &[(7, 3), (3, 2)]),
        legal: "100011111100111111011111110111111101111111111111",
        risky: "100011111100111111011111110111111101111111111111",
        free: 37,
        reached: 40,
        ranked: to_coords(&[(2, 5), (1, 4), (3, 4)]),
        relaxed: to_coords(&[(1, 4), (3, 4), (2, 5)]),
        boxed: false,
        hole: Some(c(1, 1)),
        way: to_coords(&[(2, 5), (1, 5), (0, 5), (0, 4), (1, 4), (1, 3), (0, 3), (0, 2), (1, 2), (1, 1)]),
        food_way: to_coords(&[]),
        word: "right",
        constrictor_word: "right",
    },
    Case {
        board: board_of(3, 5, &[], vec![snake("s0", 100, &[(0, 3), (0, 4), (1, 4), (1, 3), (1, 2), (1, 1), (0, 1)]), snake("s1", 99, &[(1, 0), (0, 0)]), snake("s2", 3, &[(2, 3), (2, 2), (2, 1), (2, 0), (2, 0)])], &[(0, 4)]),
        legal: "101000100000001",
        risky: "101000100000001",
        free: 2,
        reached: 1,
        ranked: to_coords(&[(0, 2)]),
        relaxed: to_coords(&[(0, 2)]),
        boxed: false,
        hole: Some(c(0, 1)),
        way: to_coords(&[(0, 2), (0, 1)]),
        food_way: to_coords(&[]),
        word: "down",
        constrictor_word: "down",
    },
    Case {
        board: board_of(5, 3, &[(0, 0), (0, 0)], vec![snake("s0", 60, &[(3, 0), (4, 0), (4, 1), (3, 1), (2, 1), (2, 0)]), snake("s1", 99, &[(1, 0), (1, 1)])], &[(0, 1)]),
        legal: "101001100011111",
        risky: "101001100011111",
        free: 6,
        reached: 1,
        ranked: to_coords(&[(2, 0)]),
        relaxed: to_coords(&[(2, 0)]),
        boxed: true,
        hole: Some(c(2, 0)),
        way: to_coords(&[(2, 0)]),
        food_way: to_coords(&[]),
        word: "left",
        constrictor_word: "left",
    },
    Case {
        board: board_of(8, 7, &[(6, 0), (7, 1)], vec![snake("s0", 100, &[(3, 2), (4, 2), (5, 2), (5, 3), (6, 3), (7, 3), (7, 4), (6, 4), (6, 4)]), snake("s1", 30, &[(1, 4), (1, 5), (2, 5), (2, 6), (1, 6), (0, 6), (0, 5), (0, 4), (0, 3)]), snake("s2", 99, &[(3, 1), (2, 1), (2, 2), (2, 3), (2, 3)])], &[(2, 3)]),
        legal: "11111111110011111100001110111000000111000001111100011111",
        risky: "11111111110011111100001111111000001111000001111100011111",
        free: 35,
        reached: 16,
        ranked: to_coords(&[(3, 3)]),
        relaxed: to_coords(&[(3, 3)]),
        boxed: false,
        hole: Some(c(2, 3)),
        way: to_coords(&[(3, 3), (2, 3)]),
        food_way: to_coords(&[]),
        word: "up",
        constrictor_word: "up",
    },
    Case {
        board: board_of(4, 7, &[(2, 2), (3, 2)], vec![snake("s0", 3, &[(2, 3), (2, 4), (3, 4), (3, 5), (2, 5), (1, 5), (1, 6)]), snake("s1", 3, &[(0, 0), (0, 1), (1, 1)]), snake("s2", 8, &[(0, 3), (0, 4), (0, 5), (0, 6)]), snake("s3", 30, &[(1, 0), (2, 0), (2, 1), (3, 1)])], &[(3, 2), (0, 6), (1, 5), (3, 6)]),
        legal: "0001010111110101010000001111",
        risky: "0001010111110101010000001111",
        free: 8,
        reached: 10,
        ranked: to_coords(&[(3, 3), (1, 3), (2, 2)]),
        relaxed: to_coords(&[(2, 2), (3, 3), (1, 3)]),
        boxed: false,
        hole: Some(c(3, 1)),
        way: to_coords(&[(1, 3), (1, 2), (2, 2), (3, 2), (3, 1)]),
        food_way: to_coords(&[(2, 2)]),
        word: "down",
        constrictor_word: "down",
    },
    Case {
        board: board_of(8, 5, &[], vec![snake("s0", 30, &[(4, 2), (4, 3), (5, 3), (5, 4), (4, 4), (3, 4), (3, 4)]), snake("s1", 8, &[(0, 1), (1, 1), (1, 2), (1, 3), (2, 3), (3, 3)])], &[]),
        legal: "1111111100111111101101111001001111110011",
        risky: "1111111100111111101101111001001111110011",
        free: 28,
        reached: 30,
        ranked: to_coords(&[(5, 2), (3, 2), (4, 1)]),
        relaxed: to_coords(&[(5, 2), (3, 2), (4, 1)]),
        boxed: false,
        hole: Some(c(3, 3)),
        way: to_coords(&[(5, 2), (6, 2), (7, 2), (7, 1), (7, 0), (6, 0), (6, 1), (5, 1), (5, 0), (4, 0), (3, 0), (2, 0), (2, 1), (3, 1), (3, 2), (3, 3)]),
        food_way: to_coords(&[]),
        word: "down",
        constrictor_word: "down",
    },
    Case {
        board: board_of(4, 7, &[], vec![snake("s0", 8, &[(1, 5), (0, 5), (0, 4)]), snake("s1", 3, &[(0, 0)]), snake("s2", 100, &[(3, 0), (2, 0)]), snake("s3", 3, &[(1, 4), (1, 3), (2, 3), (2, 2), (1, 2), (1, 1)])], &[(0, 0)]),
        legal: "1100111110011001000100111111",
        risky: "1100111110011001101100111111",
        free: 16,
        reached: 17,
        ranked: to_coords(&[(1, 6), (2, 5)]),
        relaxed: to_coords(&[(1, 6), (2, 5)]),
        boxed: false,
        hole: Some(c(1, 1)),
        way: to_coords(&[(1, 6), (2, 6), (3, 6), (3, 5), (3, 4), (3, 3), (3, 2), (3, 1), (2, 1), (1, 1)]),
        food_way: to_coords(&[]),
        word: "right",
        constrictor_word: "right",
    },
    Case {
        board: board_of(4, 6, &[], vec![snake("s0", 99, &[(0, 5), (0, 4), (1, 4), (2, 4), (2, 3), (2, 2), (1, 2), (1, 3)]), snake("s1", 60, &[(3, 0), (2, 0), (1, 0), (1, 1)]), snake("s2", 3, &[(1, 5), (2, 5), (3, 5), (3, 4)]), snake("s3", 8, &[(2, 1)])], &[(2, 5), (3, 0)]),
        legal: "100011111001110100010000",
        risky: "100011111001110100010000",
        free: 7,
        reached: 0,
        ranked: to_coords(&[]),
        relaxed: to_coords(&[]),
        boxed: true,
        hole: Some(c(1, 5)),
        way: to_coords(&[(1, 5)]),
        food_way: to_coords(&[]),
        word: "up",
        constrictor_word: "up",
    },
    Case {
        board: board_of(7, 4, &[(0, 3)], vec![snake("s0", 3, &[(6, 0), (5, 0), (4, 0), (4, 1), (5, 1), (6, 1)]), snake("s1", 3, &[(3, 0), (3, 1), (3, 2), (2, 2), (2, 3), (3, 3), (4, 3)]), snake("s2", 60, &[(0, 1), (0, 0), (1, 0), (1, 1), (2, 1), (2, 0)]), snake("s3", 30, &[(4, 2), (5, 2), (5, 3), (6, 3), (6, 2), (6, 2)])], &[(6, 3), (4, 2), (4, 0)]),
        legal: "0000000000000101000011100000",
        risky: "0010000000000111000011100100",
        free: 4,
        reached: 2,
        ranked: to_coords(&[(6, 1)]),
        relaxed: to_coords(&[(6, 1)]),
        boxed: false,
        hole: Some(c(6, 1)),
        way: to_coords(&[(6, 1)]),
        food_way: to_coords(&[]),
        word: "up",
        constrictor_word: "up",
    },
    Case {
        board: board_of(6, 5, &[], vec![snake("s0", 100, &[(1, 3), (1, 2), (2, 2), (3, 2), (3, 3), (3, 4), (2, 4)]), snake("s1", 100, &[(1, 1), (0, 1), (0, 2), (0, 3), (0, 4), (1, 4), (1, 4)])], &[(2, 4)]),
        legal: "101111000111000011001011000011",
        risky: "111111001111000011001011000011",
        free: 17,
        reached: 1,
        ranked: to_coords(&[(2, 3)]),
        relaxed: to_coords(&[(2, 3)]),
        boxed: true,
        hole: Some(c(2, 4)),
        way: to_coords(&[(2, 3), (2, 4)]),
        food_way: to_coords(&[]),
        word: "right",
        constrictor_word: "right",
    },
    Case {
        board: board_of(5, 4, &[(4, 3)], vec![snake("s0", 8, &[(3, 1), (3, 2), (2, 2), (2, 1), (2, 0), (3, 0), (4, 0), (4, 1), (4, 2)]), snake("s1", 99, &[(1, 3)])], &[(4, 3), (2, 0), (4, 2), (4, 0)]),
        legal: "11000110001100111111",
        risky: "11000110001100111111",
        free: 9,
        reached: 0,
        ranked: to_coords(&[]),
        relaxed: to_coords(&[]),
        boxed: true,
        hole: Some(c(4, 1)),
        way: to_coords(&[(4, 1)]),
        food_way: to_coords(&[]),
        word: "up",
        constrictor_word: "up",
    },
    Case {
        board: board_of(7, 3, &[(4, 1)], vec![snake("s0", 100, &[(1, 0), (1, 1), (2, 1), (3, 1)])], &[(5, 2), (5, 2)]),
        legal: "101111110001111111111",
        risky: "101111110001111111111",
        free: 16,
        reached: 17,
        ranked: to_coords(&[]),
        relaxed: to_coords(&[(2, 0), (0, 0)]),
        boxed: false,
        hole: Some(c(3, 1)),
        way: to_coords(&[(0, 0), (0, 1), (0, 2), (1, 2), (2, 2), (3, 2), (3, 1)]),
        food_way: to_coords(&[]),
        word: "left",
        constrictor_word: "left",
    },
    Case {
        board: board_of(5, 8, &[(2, 2)], vec![snake("s0", 8, &[(2, 4), (1, 4), (1, 5)]), snake("s1", 3, &[(1, 2)]), snake("s2", 100, &[(3, 7), (3, 6), (2, 6), (2, 7), (1, 7)])], &[(2, 7), (4, 5), (1, 3)]),
        legal: "1111111111111111111110011111111100110000",
        risky: "1111111111111111111110011111111100110001",
        free: 29,
        reached: 32,
        ranked: to_coords(&[(2, 5), (3, 4), (2, 3)]),
        relaxed: to_coords(&[(2, 3), (3, 4), (2, 5)]),
        boxed: false,
        hole: Some(c(1, 5)),
        way: to_coords(&[(3, 4), (4, 4), (4, 3), (4, 2), (4, 1), (4, 0), (3, 0), (2, 0), (1, 0), (0, 0), (0, 1), (1, 1), (2, 1), (3, 1), (3, 2), (2, 2), (1, 2), (0, 2), (0, 3), (0, 4), (0, 5), (1, 5)]),
        food_way: to_coords(&[(2, 3), (2, 2)]),
        word: "down",
        constrictor_word: "down",
    },
    Case {
        board: board_of(3, 7, &[], vec![snake("s0", 100, &[(0, 6), (0, 5), (1, 5), (1, 4), (1, 3)]), snake("s1", 8, &[(1, 1), (1, 2), (2, 2), (2, 3), (2, 4), (2, 5)]), snake("s2", 60, &[(0, 0), (0, 1), (0, 2)])], &[(2, 3), (1, 0), (1, 4), (2, 0)]),
        legal: "001000100100100001011",
        risky: "011001100100100001011",
        free: 5,
        reached: 3,
        ranked: to_coords(&[(1, 6)]),
        relaxed: to_coords(&[(1, 6)]),
        boxed: false,
        hole: Some(c(2, 5)),
        way: to_coords(&[(1, 6), (2, 6), (2, 5)]),
        food_way: to_coords(&[]),
        word: "right",
        constrictor_word: "right",
    },
    ]
}

#[test]
fn random_boards_legality_and_counts() {
    for (i, case) in cases().iter().enumerate() {
        let you = &case.board.snakes[0];
        let gb = case.board.to_game_board();
        assert!(case.board.well_formed(), "board {}", i);
        assert_eq!(grid(&case.board, true), case.legal, "board {}", i);
        assert_eq!(grid(&case.board, false), case.risky, "board {}", i);
        assert_eq!(num_free_tiles(&case.board), case.free, "board {}", i);
        assert_eq!(num_connected_tiles(&case.board, &gb, you, &you.head, &vec![]), case.reached, "board {}", i);
        assert_eq!(inside_box(you, &case.board, &gb, Ratio::new(3, 10)), case.boxed, "board {}", i);
    }
}

#[test]
fn random_boards_rankings() {
    for (i, case) in cases().iter().enumerate() {
        let you = &case.board.snakes[0];
        let gb = case.board.to_game_board();
        let ranked = get_adj_tiles_connected(&you.head, &case.board, &gb, you, Ratio::new(1, 2), 2, None, None, None, None);
        assert_eq!(ranked, case.ranked, "board {}", i);
        let relaxed = get_adj_tiles_connected(
            &you.head, &case.board, &gb, you, Ratio::new(0, 1), 0, Some(false), Some(true), Some(false), None,
        );
        assert_eq!(relaxed, case.relaxed, "board {}", i);
    }
}

#[test]
fn random_boards_searches() {
    for (i, case) in cases().iter().enumerate() {
        let you = &case.board.snakes[0];
        let gb = case.board.to_game_board();
        let hole = find_key_hole(&case.board, &gb, you);
        assert_eq!(hole, case.hole, "board {}", i);
        if let Some(h) = hole {
            assert_eq!(dfs_long(&h, &case.board, &gb, you, Ratio::new(0, 1), 0), case.way, "board {}", i);
        }
        assert_eq!(a_star(&case.board, &gb, you, Ratio::new(1, 2), 2), case.food_way, "board {}", i);
    }
}

#[test]
fn random_boards_moves() {
    for (i, case) in cases().iter().enumerate() {
        let you = &case.board.snakes[0];
        assert_eq!(get_move(&game("standard"), &(i as u32), &case.board, you), case.word, "board {}", i);
        assert_eq!(
            get_move(&game("constrictor"), &(i as u32), &case.board, you),
            case.constrictor_word,
            "board {}",
            i
        );
    }
}
