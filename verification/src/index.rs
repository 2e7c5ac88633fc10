//! The per-turn tile index: from a coordinate to what stands on it.

use crate::types::{Board, Coord, Flags};
use std::collections::HashMap;
use vstd::prelude::*;

verus! {

broadcast use vstd::std_specs::hash::group_hash_axioms;

/// The integer under which a coordinate is stored. Every coordinate has
/// its own.
pub open spec fn key_of(c: Coord) -> u32 {
    ((c.x + 32768) * 65536 + (c.y + 32768)) as u32
}

/// The coordinate stored under `k`.
pub open spec fn coord_of(k: u32) -> Coord {
    Coord { x: (k / 65536 - 32768) as i16, y: (k % 65536 - 32768) as i16 }
}

pub proof fn lemma_key_roundtrip(c: Coord)
    ensures
        coord_of(key_of(c)) == c,
{
}

pub proof fn lemma_coord_roundtrip(k: u32)
    ensures
        key_of(coord_of(k)) == k,
{
}

pub fn tile_key(c: &Coord) -> (k: u32)
    ensures
        k == key_of(*c),
{
    let x: u32 = (c.x as i32 + 32768) as u32;
    let y: u32 = (c.y as i32 + 32768) as u32;
    x * 65536 + y
}

/// The marks of `c` in an index: those listed, else those of an
/// unlisted tile.
pub open spec fn flags_at(m: Map<Coord, Flags>, c: Coord) -> Flags {
    if m.contains_key(c) {
        m[c]
    } else {
        Flags::unlisted()
    }
}

/// `m` after each tile of `pts` got the marks `v` joined to its own.
pub open spec fn marked(m: Map<Coord, Flags>, pts: Seq<Coord>, v: Flags) -> Map<Coord, Flags> {
    Map::new(
        |c: Coord| m.contains_key(c) || pts.contains(c),
        |c: Coord|
            if pts.contains(c) {
                if m.contains_key(c) {
                    v.union_spec(m[c])
                } else {
                    v
                }
            } else {
                m[c]
            },
    )
}

/// The tile index of one turn. Its view maps each listed coordinate to
/// its marks.
pub struct GameBoard {
    pub tiles: HashMap<u32, Flags>,
}

impl View for GameBoard {
    type V = Map<Coord, Flags>;

    open spec fn view(&self) -> Map<Coord, Flags> {
        Map::new(
            |c: Coord| self.tiles@.contains_key(key_of(c)),
            |c: Coord| self.tiles@[key_of(c)],
        )
    }
}

impl GameBoard {
    pub fn new() -> (r: GameBoard)
        ensures
            r@ == Map::<Coord, Flags>::empty(),
    {
        let r = GameBoard { tiles: HashMap::new() };
        assert(r@ =~= Map::<Coord, Flags>::empty());
        r
    }

    /// The marks of a tile; an unlisted tile is empty.
    pub fn get(&self, c: &Coord) -> (f: Flags)
        ensures
            f == flags_at(self@, *c),
    {
        let k = tile_key(c);
        match self.tiles.get(&k) {
            Some(f) => *f,
            None => Flags::empty_tile(),
        }
    }

    /// Joins `value` to the marks of one tile.
    pub fn mark(&mut self, c: &Coord, value: Flags)
        ensures
            final(self)@ == marked(old(self)@, seq![*c], value),
    {
        let k = tile_key(c);
        let joined = match self.tiles.get(&k) {
            Some(f) => value.union(f),
            None => value,
        };
        self.tiles.insert(k, joined);
        proof {
            let goal = marked(old(self)@, seq![*c], value);
            assert(seq![*c].contains(*c)) by {
                assert(seq![*c][0] == *c);
            }
            assert forall|d: Coord| self@.contains_key(d) == goal.contains_key(d) by {
                lemma_key_roundtrip(d);
                lemma_key_roundtrip(*c);
            }
            assert forall|d: Coord| self@.contains_key(d) implies self@[d] == goal[d] by {
                lemma_key_roundtrip(d);
                lemma_key_roundtrip(*c);
            }
            assert(self@ =~= goal);
        }
    }
}

/// Joins `value` to the marks of every tile of `points`.
pub fn add_coords_to_board(board: &mut GameBoard, points: &Vec<Coord>, value: Flags)
    ensures
        final(board)@ == marked(old(board)@, points@, value),
{
    let mut i: usize = 0;
    assert(board@ =~= marked(old(board)@, points@.take(0), value));
    while i < points.len()
        invariant
            0 <= i <= points.len(),
            board@ == marked(old(board)@, points@.take(i as int), value),
        decreases points.len() - i,
    {
        let ghost before = board@;
        board.mark(&points[i], value);
        proof {
            let p = points@[i as int];
            let pre = points@.take(i as int);
            let now = points@.take(i + 1);
            assert(now =~= pre.push(p));
            assert(seq![p].contains(p)) by {
                assert(seq![p][0] == p);
            }
            assert forall|d: Coord| now.contains(d) == (pre.contains(d) || d == p) by {
                if pre.contains(d) {
                    let j = choose|j: int| 0 <= j < pre.len() && pre[j] == d;
                    assert(now[j] == d);
                }
                if d == p {
                    assert(now[i as int] == d);
                }
            }
            assert forall|d: Coord| seq![p].contains(d) == (d == p) by {}
            assert(board@ =~= marked(old(board)@, now, value));
        }
        i = i + 1;
    }
    assert(points@.take(points@.len() as int) =~= points@);
}

impl Board {
    /// Some snake among the first `n` lies on `c`.
    pub open spec fn body_among(&self, n: int, c: Coord) -> bool {
        exists|i: int| 0 <= i < n && i < self.snakes@.len() && (#[trigger] self.snakes@[i]).body@.contains(c)
    }

    /// The index of the snapshot: each tile that holds food, a body or a
    /// hazard, with exactly those marks.
    pub open spec fn index(&self) -> Map<Coord, Flags> {
        Map::new(
            |c: Coord| self.food@.contains(c) || self.body_on(c) || self.hazards@.contains(c),
            |c: Coord|
                Flags {
                    empty: false,
                    food: self.food@.contains(c),
                    ally: false,
                    snake: self.body_on(c),
                    hazard: self.hazards@.contains(c),
                },
        )
    }

    /// Builds the tile index of the snapshot.
    pub fn to_game_board(&self) -> (board: GameBoard)
        ensures
            board@ == self.index(),
    {
        let mut board = GameBoard::new();
        add_coords_to_board(&mut board, &self.food, Flags::food_tile());
        let mut i: usize = 0;
        let ghost fed = board@;
        while i < self.snakes.len()
            invariant
                0 <= i <= self.snakes.len(),
                fed == marked(Map::<Coord, Flags>::empty(), self.food@, Flags::only_food()),
                forall|c: Coord|
                    #[trigger] board@.contains_key(c) == (self.food@.contains(c)
                        || self.body_among(i as int, c)),
                forall|c: Coord|
                    board@.contains_key(c) ==> #[trigger] board@[c] == (Flags {
                        empty: false,
                        food: self.food@.contains(c),
                        ally: false,
                        snake: self.body_among(i as int, c),
                        hazard: false,
                    }),
            decreases self.snakes.len() - i,
        {
            let ghost before = board@;
            add_coords_to_board(&mut board, &self.snakes[i].body, Flags::snake_tile());
            proof {
                assert forall|c: Coord|
                    self.body_among(i + 1, c) == (self.body_among(i as int, c)
                        || self.snakes@[i as int].body@.contains(c)) by {
                    if self.body_among(i + 1, c) {
                        let j = choose|j: int|
                            0 <= j < i + 1 && j < self.snakes@.len() && (
                            #[trigger] self.snakes@[j]).body@.contains(c);
                        if j < i {
                            assert(self.body_among(i as int, c));
                        }
                    }
                    if self.body_among(i as int, c) {
                        let j = choose|j: int|
                            0 <= j < i && j < self.snakes@.len() && (
                            #[trigger] self.snakes@[j]).body@.contains(c);
                        assert(self.snakes@[j].body@.contains(c));
                    }
                    if self.snakes@[i as int].body@.contains(c) {
                        assert(self.body_among(i + 1, c));
                    }
                }
                assert forall|c: Coord|
                    #[trigger] board@.contains_key(c) == (self.food@.contains(c)
                        || self.body_among(i + 1, c)) by {
                    assert(before.contains_key(c) == (self.food@.contains(c) || self.body_among(
                        i as int,
                        c,
                    )));
                }
                assert forall|c: Coord| board@.contains_key(c) implies #[trigger] board@[c] == (
                Flags {
                    empty: false,
                    food: self.food@.contains(c),
                    ally: false,
                    snake: self.body_among(i + 1, c),
                    hazard: false,
                }) by {
                    if before.contains_key(c) {
                        assert(before[c].food == self.food@.contains(c));
                    }
                }
            }
            i = i + 1;
        }
        let ghost bodies = board@;
        add_coords_to_board(&mut board, &self.hazards, Flags::hazard_tile());
        proof {
            assert forall|c: Coord| self.body_among(self.snakes@.len() as int, c) == self.body_on(
                c,
            ) by {
                if self.body_on(c) {
                    let j = choose|j: int|
                        0 <= j < self.snakes@.len() && (#[trigger] self.snakes@[j]).body@.contains(
                            c,
                        );
                    assert(self.snakes@[j].body@.contains(c));
                }
            }
            assert forall|c: Coord| board@.contains_key(c) == self.index().contains_key(c) by {
                assert(bodies.contains_key(c) == (self.food@.contains(c) || self.body_among(
                    self.snakes@.len() as int,
                    c,
                )));
            }
            assert forall|c: Coord| board@.contains_key(c) implies #[trigger] board@[c]
                == self.index()[c] by {
                if bodies.contains_key(c) {
                    assert(bodies[c].food == self.food@.contains(c));
                }
            }
            assert(board@ =~= self.index());
        }
        board
    }
}

} // verus!
