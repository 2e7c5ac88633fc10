use snake_core::connect::{num_connected_tiles, num_free_tiles, percent_connected};
use snake_core::rank::{
    closest_food, compare_moves, coords_diverge, distance_to_center, favourable_divergent_coords,
    get_adj_tiles_connected, rank_candidates, sort_ranked, Order, Ranked,
};
use snake_core::types::{Battlesnake, Board, Coord, Ratio};

fn c(x: i16, y: i16) -> Coord {
    Coord { x, y }
}

fn snake(id: &str, health: u8, body: &[(i16, i16)]) -> Battlesnake {
    let body: Vec<Coord> = body.iter().map(|p| c(p.0, p.1)).collect();
    Battlesnake {
        id: id.to_string(),
        name: format!("snake {}", id),
        health,
        head: body[0],
        length: body.len() as u32,
        body,
        shout: None,
    }
}

fn board_of(w: u8, h: u8, food: &[(i16, i16)], snakes: Vec<Battlesnake>, hazards: &[(i16, i16)]) -> Board {
    Board {
        height: h,
        width: w,
        food: food.iter().map(|p| c(p.0, p.1)).collect(),
        snakes,
        hazards: hazards.iter().map(|p| c(p.0, p.1)).collect(),
    }
}

const RING: [(i16, i16); 15] = [
    (4, 5), (3, 5), (3, 6), (3, 7), (3, 8), (4, 8), (5, 8), (6, 8), (7, 8), (7, 7), (7, 6), (7, 5),
    (7, 4), (6, 4), (5, 4),
];

#[test]
fn avoid_poorly_connected_tiles() {
    let board = board_of(11, 11, &[], vec![snake("2j__G", 100, &RING)], &[]);
    let game_board = board.to_game_board();
    let you: &Battlesnake = &board.snakes[0];
    let mut connected_tiles = get_adj_tiles_connected(
        &you.head,
        &board,
        &game_board,
        you,
        Ratio::new(8, 10),
        0,
        Some(false),
        None,
        Some(true),
        None,
    );
    assert!(connected_tiles[0] == Coord { x: 4, y: 4 });
    connected_tiles = get_adj_tiles_connected(
        &you.head,
        &board,
        &game_board,
        you,
        Ratio::new(1, 100),
        0,
        Some(false),
        None,
        Some(true),
        None,
    );
    assert!(
        connected_tiles.len() == 3
            && connected_tiles[connected_tiles.len() - 1] == Coord { x: 4, y: 4 }
    );
}

#[test]
fn free_tiles_count_overlaps_once() {
    let a = [(1, 1), (1, 2), (1, 3)];
    let b = [(1, 3), (2, 3)];
    let board = board_of(11, 11, &[(5, 5)], vec![snake("a", 90, &a), snake("b", 90, &b)], &[(2, 3), (9, 9)]);
    // 121 tiles less (1,1) (1,2) (1,3) (2,3) (9,9); food does not count
    assert_eq!(num_free_tiles(&board), 116);
    assert_eq!(num_free_tiles(&board_of(11, 11, &[], vec![], &[])), 121);
    assert_eq!(num_free_tiles(&board_of(0, 7, &[], vec![], &[])), 0);
    assert_eq!(num_free_tiles(&board_of(255, 255, &[], vec![], &[])), 65025);
    let full = board_of(2, 1, &[], vec![snake("a", 90, &[(0, 0), (1, 0)])], &[]);
    assert_eq!(num_free_tiles(&full), 0);
}

#[test]
fn connected_tiles_inside_and_outside_the_ring() {
    let board = board_of(11, 11, &[], vec![snake("2j__G", 100, &RING)], &[]);
    let game_board = board.to_game_board();
    let you = &board.snakes[0];
    let none: Vec<Coord> = vec![];
    // inside the ring: (4,6) (4,7) (5,5) (5,6) (5,7) (6,5) (6,6) (6,7)
    assert_eq!(num_connected_tiles(&board, &game_board, you, &c(5, 5), &none), 8);
    assert_eq!(num_connected_tiles(&board, &game_board, you, &c(4, 6), &none), 8);
    // outside: all the rest of the 106 free tiles
    assert_eq!(num_connected_tiles(&board, &game_board, you, &c(4, 4), &none), 98);
    assert_eq!(num_free_tiles(&board), 106);
    assert_eq!(percent_connected(&c(5, 5), &board, &game_board, you, &none), Ratio::new(8, 106));
    assert_eq!(percent_connected(&c(4, 4), &board, &game_board, you, &none), Ratio::new(98, 106));
    // from the head, a body tile, both regions are reached
    assert_eq!(num_connected_tiles(&board, &game_board, you, &you.head, &none), 106);
    // a lone free tile reaches nothing, not even itself
    let pocket = board_of(3, 1, &[], vec![snake("a", 100, &[(0, 0), (0, 0)]), snake("b", 100, &[(2, 0), (2, 0)])], &[]);
    let gb = pocket.to_game_board();
    assert_eq!(num_connected_tiles(&pocket, &gb, &pocket.snakes[0], &c(1, 0), &none), 0);
    assert_eq!(percent_connected(&c(1, 0), &pocket, &gb, &pocket.snakes[0], &none), Ratio::new(0, 1));
}

#[test]
fn percent_connected_is_zero_without_free_tiles() {
    let full = board_of(2, 1, &[], vec![snake("a", 90, &[(0, 0), (1, 0)])], &[]);
    let gb = full.to_game_board();
    let r = percent_connected(&c(0, 0), &full, &gb, &full.snakes[0], &vec![]);
    assert_eq!(r, Ratio::new(0, 1));
}

#[test]
fn excluding_more_tiles_never_connects_more() {
    let board = board_of(11, 11, &[], vec![snake("2j__G", 100, &RING)], &[]);
    let game_board = board.to_game_board();
    let you = &board.snakes[0];
    let mut excluded: Vec<Coord> = vec![];
    let mut last = percent_connected(&c(5, 5), &board, &game_board, you, &excluded);
    assert_eq!(last, Ratio::new(8, 106));
    let expected = [7, 3, 3, 2, 0];
    let added = [c(6, 7), c(5, 6), c(0, 0), c(6, 6), c(6, 5)];
    for i in 0..added.len() {
        excluded.push(added[i]);
        let now = percent_connected(&c(5, 5), &board, &game_board, you, &excluded);
        assert!(last.at_least(&now));
        assert_eq!(now, Ratio::new(expected[i], 106));
        last = now;
    }
}

#[test]
fn ratios_compare_by_cross_multiplication() {
    assert!(Ratio::new(1, 2).at_least(&Ratio::new(2, 4)));
    assert!(!Ratio::new(1, 2).above(&Ratio::new(2, 4)));
    assert!(Ratio::new(53, 106).at_least(&Ratio::new(1, 2)));
    assert!(!Ratio::new(52, 106).at_least(&Ratio::new(1, 2)));
    assert!(Ratio::new(4, 10).above(&Ratio::new(3, 10)));
    assert!(!Ratio::new(3, 10).above(&Ratio::new(3, 10)));
    assert!(Ratio::new(0, 1).at_least(&Ratio::new(0, 1)));
    assert!(Ratio::new(u32::MAX, 1).above(&Ratio::new(u32::MAX - 1, 1)));
    assert!(Ratio::new(1, u32::MAX).at_least(&Ratio::new(1, u32::MAX)));
}

#[test]
fn sort_is_stable_and_rising() {
    let r = |x: i16, conn: u32, major: i64, minor: i64| Ranked { tile: c(x, 0), conn, major, minor };
    let v = vec![r(0, 1, 5, 0), r(1, 0, 9, 9), r(2, 1, 5, 0), r(3, 1, 4, 7), r(4, 0, 9, 9), r(5, 1, 5, -1)];
    let s = sort_ranked(&v);
    let order: Vec<i16> = s.iter().map(|e| e.tile.x).collect();
    assert_eq!(order, vec![1, 4, 3, 5, 0, 2]);
    assert_eq!(sort_ranked(&vec![]), vec![]);
    assert!(r(0, 1, 5, 0).le(&r(1, 1, 5, 0)));
    assert!(r(0, 0, 9, 9).le(&r(1, 1, 0, 0)));
    assert!(!r(0, 1, 5, 1).le(&r(1, 1, 5, 0)));
}

#[test]
fn moves_are_ordered_by_degree_then_centre_or_food() {
    let me = [(5, 0), (6, 0), (7, 0)];
    let board = board_of(11, 11, &[(0, 0), (10, 10)], vec![snake("me", 100, &me)], &[]);
    let gb = board.to_game_board();
    let you = &board.snakes[0];
    let none: Vec<Coord> = vec![];
    // (5,1) has three open neighbours, (4,0) has two
    assert_eq!(compare_moves(&c(4, 0), &c(5, 1), &board, &gb, you, &none, None, None, None), Order::Less);
    assert_eq!(compare_moves(&c(5, 1), &c(4, 0), &board, &gb, you, &none, None, None, None), Order::Greater);
    assert_eq!(compare_moves(&c(5, 1), &c(5, 1), &board, &gb, you, &none, None, None, None), Order::Equal);
    // without the degree the tile nearer the centre (5,5) is the greater
    assert_eq!(compare_moves(&c(4, 0), &c(5, 1), &board, &gb, you, &none, None, Some(false), None), Order::Less);
    assert_eq!(compare_moves(&c(5, 4), &c(5, 7), &board, &gb, you, &none, None, Some(false), None), Order::Greater);
    assert_eq!(compare_moves(&c(4, 5), &c(5, 6), &board, &gb, you, &none, None, Some(false), None), Order::Equal);
    // evading: the tile farther from its nearest food is the greater
    assert_eq!(compare_moves(&c(1, 0), &c(5, 5), &board, &gb, you, &none, None, None, Some(true)), Order::Less);
    assert_eq!(compare_moves(&c(1, 0), &c(10, 9), &board, &gb, you, &none, None, None, Some(true)), Order::Equal);
    assert_eq!(closest_food(&c(1, 0), &board), Some(1));
    assert_eq!(closest_food(&c(5, 5), &board), Some(50));
    assert_eq!(closest_food(&c(9, 8), &board), Some(5));
    assert_eq!(closest_food(&c(1, 0), &board_of(11, 11, &[], vec![], &[])), None);
    assert_eq!(distance_to_center(&c(0, 0), &board), 50);
    assert_eq!(distance_to_center(&c(5, 5), &board), 0);
    assert_eq!(distance_to_center(&c(3, 3), &board_of(7, 4, &[], vec![], &[])), 1);
}

#[test]
fn divergence_of_two_moves() {
    let me = [(5, 5), (5, 4), (5, 3)];
    let wall = [(6, 6), (6, 7)];
    let board = board_of(11, 11, &[], vec![snake("me", 100, &me), snake("w", 100, &wall)], &[(4, 6)]);
    let gb = board.to_game_board();
    let up = c(0, 1);
    let right = c(1, 0);
    let left = c(-1, 0);
    let down = c(0, -1);
    // a body stands diagonally between up and right
    assert!(coords_diverge(&c(5, 5), (&up, &right), &gb));
    // a hazard between up and left parts nothing
    assert!(!coords_diverge(&c(5, 5), (&up, &left), &gb));
    // opposite moves always may diverge
    assert!(coords_diverge(&c(5, 5), (&left, &right), &gb));
    assert!(coords_diverge(&c(5, 5), (&up, &down), &gb));
    // off the board nothing stands
    assert!(!coords_diverge(&c(0, 0), (&left, &down), &gb));
}

#[test]
fn favourable_branches_are_filtered_and_ordered() {
    let board = board_of(11, 11, &[], vec![snake("2j__G", 100, &RING)], &[]);
    let gb = board.to_game_board();
    let you = &board.snakes[0];
    let none: Vec<Coord> = vec![];
    let inside = c(5, 5);
    let outside = c(4, 4);
    let both = favourable_divergent_coords(
        (&outside, &inside), &board, &gb, you, &none, 0, Ratio::new(1, 100), Some(true), Some(false), None,
    );
    assert_eq!(both.len(), 2);
    assert_eq!((both[0].tile, both[0].conn), (inside, 8));
    assert_eq!((both[1].tile, both[1].conn), (outside, 98));
    let one = favourable_divergent_coords(
        (&outside, &inside), &board, &gb, you, &none, 0, Ratio::new(8, 10), Some(true), Some(false), None,
    );
    assert_eq!(one.len(), 1);
    assert_eq!(one[0].tile, outside);
    // each of the two has two open neighbours; (3,3) has four
    let by_degree = favourable_divergent_coords(
        (&outside, &inside), &board, &gb, you, &none, 2, Ratio::new(0, 1), Some(true), Some(false), None,
    );
    assert_eq!(by_degree.len(), 2);
    let nothing = favourable_divergent_coords(
        (&outside, &inside), &board, &gb, you, &none, 3, Ratio::new(0, 1), Some(true), Some(false), None,
    );
    assert_eq!(nothing.len(), 0);
    let open = c(3, 3);
    let wide = favourable_divergent_coords(
        (&open, &inside), &board, &gb, you, &none, 3, Ratio::new(0, 1), Some(true), Some(false), None,
    );
    assert_eq!(wide.len(), 1);
    assert_eq!((wide[0].tile, wide[0].conn), (open, 98));
}

#[test]
fn candidates_without_divergence_are_all_moves() {
    let me = [(5, 5), (5, 4), (5, 3)];
    let board = board_of(11, 11, &[], vec![snake("me", 100, &me)], &[]);
    let gb = board.to_game_board();
    let you = &board.snakes[0];
    let r = get_adj_tiles_connected(&you.head, &board, &gb, you, Ratio::new(99, 100), 4, None, None, None, None);
    // nothing stands on the diagonals: no divergence, the threshold is not applied
    assert_eq!(r.len(), 3);
    assert!(r.contains(&c(5, 6)) && r.contains(&c(4, 5)) && r.contains(&c(6, 5)));
    // a single move is returned as it is
    let corner = [(0, 0), (1, 0), (1, 1)];
    let b2 = board_of(11, 11, &[], vec![snake("me", 100, &corner)], &[]);
    let gb2 = b2.to_game_board();
    let r = get_adj_tiles_connected(&c(0, 0), &b2, &gb2, &b2.snakes[0], Ratio::new(99, 100), 4, None, None, None, None);
    assert_eq!(r, vec![c(0, 1)]);
    // planned moves are left out
    let r = get_adj_tiles_connected(&c(0, 0), &b2, &gb2, &b2.snakes[0], Ratio::new(0, 1), 0, None, None, None, Some(vec![c(0, 1)]));
    assert_eq!(r, vec![]);
}

#[test]
fn ranking_falls_back_to_all_moves_unless_strict() {
    let board = board_of(11, 11, &[], vec![snake("2j__G", 100, &RING)], &[]);
    let gb = board.to_game_board();
    let you = &board.snakes[0];
    let none: Vec<Coord> = vec![];
    let all = Ratio::new(99, 100);
    // nothing is joined to 99 of 100 free tiles
    let strict = rank_candidates(&you.head, &board, &gb, you, &all, 0, true, false, false, true, &none);
    assert_eq!(strict, vec![]);
    let loose = rank_candidates(&you.head, &board, &gb, you, &all, 0, false, false, false, true, &none);
    assert_eq!(loose.len(), 3);
    assert_eq!(loose[2], c(4, 4));
    let low = Ratio::new(8, 10);
    let strict = rank_candidates(&you.head, &board, &gb, you, &low, 0, true, false, false, true, &none);
    let loose = rank_candidates(&you.head, &board, &gb, you, &low, 0, false, false, false, true, &none);
    assert_eq!(strict, vec![c(4, 4)]);
    assert_eq!(loose, strict);
}

#[test]
fn connectivity_counts_free_tiles_only() {
    // the hazard at (1,0) is entered by the fill but is no free tile
    let board = board_of(2, 1, &[], vec![], &[(1, 0)]);
    let gb = board.to_game_board();
    let me = snake("me", 100, &[(0, 0)]);
    let none: Vec<Coord> = vec![];
    assert_eq!(num_connected_tiles(&board, &gb, &me, &c(0, 0), &none), 2);
    assert_eq!(num_free_tiles(&board), 1);
    assert_eq!(percent_connected(&c(0, 0), &board, &gb, &me, &none), Ratio::new(1, 1));
    // a tail that leaves is entered too, and is no free tile either
    let board = board_of(3, 1, &[], vec![snake("s", 50, &[(0, 0), (1, 0)])], &[]);
    let gb = board.to_game_board();
    let you = &board.snakes[0];
    assert_eq!(num_connected_tiles(&board, &gb, you, &c(2, 0), &none), 2);
    assert_eq!(percent_connected(&c(2, 0), &board, &gb, you, &none), Ratio::new(1, 1));
    // never above one, whatever is excluded
    let ring = board_of(11, 11, &[(5, 5)], vec![snake("r", 60, &RING)], &[(5, 6), (0, 0), (4, 4)]);
    let gb = ring.to_game_board();
    for x in 0..11 {
        for y in 0..11 {
            let r = percent_connected(&c(x, y), &ring, &gb, &ring.snakes[0], &vec![c(1, 1)]);
            assert!(r.num <= r.den && r.den > 0);
        }
    }
}

#[test]
fn no_tile_is_ranked_twice() {
    let ring = board_of(11, 11, &[(5, 5)], vec![snake("r", 60, &RING)], &[(5, 6)]);
    let gb = ring.to_game_board();
    let you = &ring.snakes[0];
    for x in 0..11 {
        for y in 0..11 {
            for (num, deg) in [(0, 0), (1, 2), (1, 1)] {
                let r = get_adj_tiles_connected(
                    &c(x, y), &ring, &gb, you, Ratio::new(num, 2), deg, None, None, Some(false), None,
                );
                for i in 0..r.len() {
                    for j in 0..i {
                        assert!(r[i] != r[j]);
                    }
                }
            }
        }
    }
}
