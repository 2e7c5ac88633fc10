//! Plain data: coordinates, directions, tile flags, fractions, snakes,
//! the board snapshot and the per-turn tile index.

use vstd::prelude::*;
use vstd::std_specs::cmp::PartialEqSpecImpl;

verus! {

/// A tile position, relative to the board, origin at the bottom left.
#[derive(Debug, PartialEq, Eq, Copy, Clone, Hash, Structural)]
pub struct Coord {
    pub x: i16,
    pub y: i16,
}

impl Coord {
    /// Squared Euclidean distance between two positions.
    pub open spec fn dist2(self, c: Coord) -> int {
        (self.x - c.x) * (self.x - c.x) + (self.y - c.y) * (self.y - c.y)
    }

    /// Unit distance: the two positions share an edge.
    pub open spec fn adjacent(self, c: Coord) -> bool {
        self.dist2(c) == 1
    }

    /// The position shifted by `(dx, dy)`, where that still fits a coordinate.
    pub open spec fn shifted(self, dx: int, dy: int) -> Option<Coord> {
        if i16::MIN <= self.x + dx <= i16::MAX && i16::MIN <= self.y + dy <= i16::MAX {
            Some(Coord { x: (self.x + dx) as i16, y: (self.y + dy) as i16 })
        } else {
            None
        }
    }

    /// Squared Euclidean distance, exact.
    pub fn distance_squared(&self, c: &Coord) -> (d: u64)
        ensures
            d == self.dist2(*c),
    {
        let dx: i64 = self.x as i64 - c.x as i64;
        let dy: i64 = self.y as i64 - c.y as i64;
        assert(0 <= dx * dx <= 65535 * 65535) by (nonlinear_arith)
            requires
                -65535 <= dx <= 65535,
        ;
        assert(0 <= dy * dy <= 65535 * 65535) by (nonlinear_arith)
            requires
                -65535 <= dy <= 65535,
        ;
        let s: i64 = dx * dx + dy * dy;
        s as u64
    }
}


impl core::ops::Add<Coord> for Coord {
    type Output = Coord;

    fn add(self, c: Coord) -> (r: Coord) {
        Coord { x: c.x + self.x, y: c.y + self.y }
    }
}

impl vstd::std_specs::ops::AddSpecImpl<Coord> for Coord {
    open spec fn obeys_add_spec() -> bool {
        true
    }

    open spec fn add_req(self, c: Coord) -> bool {
        self.shifted(c.x as int, c.y as int).is_some()
    }

    open spec fn add_spec(self, c: Coord) -> Coord {
        Coord { x: (self.x + c.x) as i16, y: (self.y + c.y) as i16 }
    }
}

impl core::ops::Sub<Coord> for Coord {
    type Output = Coord;

    fn sub(self, c: Coord) -> (r: Coord) {
        Coord { x: self.x - c.x, y: self.y - c.y }
    }
}

impl vstd::std_specs::ops::SubSpecImpl<Coord> for Coord {
    open spec fn obeys_sub_spec() -> bool {
        true
    }

    open spec fn sub_req(self, c: Coord) -> bool {
        self.shifted(-(c.x as int), -(c.y as int)).is_some()
    }

    open spec fn sub_spec(self, c: Coord) -> Coord {
        Coord { x: (self.x - c.x) as i16, y: (self.y - c.y) as i16 }
    }
}

/// One of the four moves. The order of `Direction::all` is the order in
/// which neighbours are listed everywhere in this crate.
#[derive(Debug, PartialEq, Eq, Copy, Clone, Hash, Structural)]
pub enum Direction {
    Up,
    Right,
    Left,
    Down,
}

impl Direction {
    pub open spec fn dx(self) -> int {
        match self {
            Direction::Up => 0,
            Direction::Right => 1,
            Direction::Left => -1,
            Direction::Down => 0,
        }
    }

    pub open spec fn dy(self) -> int {
        match self {
            Direction::Up => 1,
            Direction::Right => 0,
            Direction::Left => 0,
            Direction::Down => -1,
        }
    }

    /// The unit vector of the move.
    pub open spec fn unit_spec(self) -> Coord {
        Coord { x: self.dx() as i16, y: self.dy() as i16 }
    }

    /// The four moves in listing order.
    pub open spec fn all_spec() -> Seq<Direction> {
        seq![Direction::Up, Direction::Right, Direction::Left, Direction::Down]
    }

    /// The word for the move.
    pub open spec fn name_spec(self) -> Seq<char> {
        match self {
            Direction::Up => "up"@,
            Direction::Right => "right"@,
            Direction::Left => "left"@,
            Direction::Down => "down"@,
        }
    }

    /// The move whose unit vector is `c`, if `c` is one.
    pub open spec fn of_unit_spec(c: Coord) -> Option<Direction> {
        if c == Direction::Up.unit_spec() {
            Some(Direction::Up)
        } else if c == Direction::Right.unit_spec() {
            Some(Direction::Right)
        } else if c == Direction::Left.unit_spec() {
            Some(Direction::Left)
        } else if c == Direction::Down.unit_spec() {
            Some(Direction::Down)
        } else {
            None
        }
    }

    pub fn all() -> (r: Vec<Direction>)
        ensures
            r@ == Direction::all_spec(),
    {
        let r = vec![Direction::Up, Direction::Right, Direction::Left, Direction::Down];
        assert(r@ =~= Direction::all_spec());
        r
    }

    pub fn unit(&self) -> (c: Coord)
        ensures
            c == self.unit_spec(),
    {
        match self {
            Direction::Up => Coord { x: 0, y: 1 },
            Direction::Right => Coord { x: 1, y: 0 },
            Direction::Left => Coord { x: -1, y: 0 },
            Direction::Down => Coord { x: 0, y: -1 },
        }
    }

    pub fn name(&self) -> (s: &'static str)
        ensures
            s@ == self.name_spec(),
    {
        match self {
            Direction::Up => "up",
            Direction::Right => "right",
            Direction::Left => "left",
            Direction::Down => "down",
        }
    }

    pub fn of_unit(c: &Coord) -> (r: Option<Direction>)
        ensures
            r == Direction::of_unit_spec(*c),
    {
        if c.x == 0 && c.y == 1 {
            Some(Direction::Up)
        } else if c.x == 1 && c.y == 0 {
            Some(Direction::Right)
        } else if c.x == -1 && c.y == 0 {
            Some(Direction::Left)
        } else if c.x == 0 && c.y == -1 {
            Some(Direction::Down)
        } else {
            None
        }
    }

    /// The neighbour of `tile` in this direction; `None` where it would
    /// leave the coordinate range.
    pub fn step(&self, tile: &Coord) -> (r: Option<Coord>)
        ensures
            r == tile.shifted(self.dx(), self.dy()),
    {
        let u = self.unit();
        let x: i32 = tile.x as i32 + u.x as i32;
        let y: i32 = tile.y as i32 + u.y as i32;
        if x < -32768 || x > 32767 || y < -32768 || y > 32767 {
            None
        } else {
            Some(Coord { x: x as i16, y: y as i16 })
        }
    }
}


/// What stands on a tile. Several marks can hold at once (food on a
/// hazard, two bodies on one tile); `union` joins them.
#[derive(Debug, PartialEq, Eq, Copy, Clone, Structural)]
pub struct Flags {
    pub empty: bool,
    pub food: bool,
    pub ally: bool,
    pub snake: bool,
    pub hazard: bool,
}

impl Flags {
    /// The marks of a tile that the index does not list.
    pub open spec fn unlisted() -> Flags {
        Flags { empty: true, food: false, ally: false, snake: false, hazard: false }
    }

    pub open spec fn only_food() -> Flags {
        Flags { empty: false, food: true, ally: false, snake: false, hazard: false }
    }

    pub open spec fn only_snake() -> Flags {
        Flags { empty: false, food: false, ally: false, snake: true, hazard: false }
    }

    pub open spec fn only_hazard() -> Flags {
        Flags { empty: false, food: false, ally: false, snake: false, hazard: true }
    }

    pub open spec fn union_spec(self, o: Flags) -> Flags {
        Flags {
            empty: self.empty || o.empty,
            food: self.food || o.food,
            ally: self.ally || o.ally,
            snake: self.snake || o.snake,
            hazard: self.hazard || o.hazard,
        }
    }

    /// Free to enter by default: no body stands on the tile.
    pub open spec fn is_free_spec(self) -> bool {
        !self.snake
    }

    pub fn empty_tile() -> (r: Flags)
        ensures
            r == Flags::unlisted(),
    {
        Flags { empty: true, food: false, ally: false, snake: false, hazard: false }
    }

    pub fn food_tile() -> (r: Flags)
        ensures
            r == Flags::only_food(),
    {
        Flags { empty: false, food: true, ally: false, snake: false, hazard: false }
    }

    pub fn snake_tile() -> (r: Flags)
        ensures
            r == Flags::only_snake(),
    {
        Flags { empty: false, food: false, ally: false, snake: true, hazard: false }
    }

    pub fn hazard_tile() -> (r: Flags)
        ensures
            r == Flags::only_hazard(),
    {
        Flags { empty: false, food: false, ally: false, snake: false, hazard: true }
    }

    pub fn union(&self, o: &Flags) -> (r: Flags)
        ensures
            r == self.union_spec(*o),
    {
        Flags {
            empty: self.empty || o.empty,
            food: self.food || o.food,
            ally: self.ally || o.ally,
            snake: self.snake || o.snake,
            hazard: self.hazard || o.hazard,
        }
    }

    pub fn is_free(&self) -> (r: bool)
        ensures
            r == self.is_free_spec(),
    {
        !self.snake
    }
}

/// A fraction `num / den`, compared exactly by cross-multiplication.
/// A threshold of one half is `Ratio { num: 1, den: 2 }`.
#[derive(Debug, PartialEq, Eq, Copy, Clone, Structural)]
pub struct Ratio {
    pub num: u32,
    pub den: u32,
}

impl Ratio {
    /// `self >= o`.
    pub open spec fn at_least_spec(self, o: Ratio) -> bool {
        self.num * o.den >= o.num * self.den
    }

    /// `self > o`.
    pub open spec fn above_spec(self, o: Ratio) -> bool {
        self.num * o.den > o.num * self.den
    }

    pub fn new(num: u32, den: u32) -> (r: Ratio)
        ensures
            r == (Ratio { num, den }),
    {
        Ratio { num, den }
    }

    pub fn at_least(&self, o: &Ratio) -> (r: bool)
        ensures
            r == self.at_least_spec(*o),
    {
        let a: u64 = Ratio::cross(self.num, o.den);
        let b: u64 = Ratio::cross(o.num, self.den);
        a >= b
    }

    pub fn above(&self, o: &Ratio) -> (r: bool)
        ensures
            r == self.above_spec(*o),
    {
        let a: u64 = Ratio::cross(self.num, o.den);
        let b: u64 = Ratio::cross(o.num, self.den);
        a > b
    }

    fn cross(a: u32, b: u32) -> (p: u64)
        ensures
            p == a * b,
    {
        assert(0 <= a * b <= 0xffff_ffff * 0xffff_ffff) by (nonlinear_arith)
            requires
                0 <= a <= 0xffff_ffff,
                0 <= b <= 0xffff_ffff,
        ;
        (a as u64) * (b as u64)
    }
}

/// One snake of the snapshot. `body` runs from the head to the tail.
#[derive(Clone, Debug)]
pub struct Battlesnake {
    pub id: String,
    pub name: String,
    pub health: u8,
    pub body: Vec<Coord>,
    pub head: Coord,
    pub length: u32,
    pub shout: Option<String>,
}

impl PartialEq for Battlesnake {
    fn eq(&self, other: &Self) -> (r: bool) {
        self.id == other.id
    }
}

impl PartialEqSpecImpl for Battlesnake {
    open spec fn obeys_eq_spec() -> bool {
        true
    }

    open spec fn eq_spec(&self, other: &Self) -> bool {
        self.id@ == other.id@
    }
}

impl Battlesnake {
    /// The snake's tail leaves its tile next turn: it has a tail, and it
    /// did not eat this turn.
    pub open spec fn vacates(&self, tile: Coord) -> bool {
        self.health < 100 && self.body@.len() > 0 && self.body@.last() == tile
    }

    pub fn tail_vacates(&self, tile: &Coord) -> (r: bool)
        ensures
            r == self.vacates(*tile),
    {
        let n = self.body.len();
        self.health < 100 && n > 0 && self.body[n - 1] == *tile
    }
}

/// The game's settings, as far as the decision reads them.
#[derive(Debug)]
pub struct Game {
    pub id: String,
    pub ruleset_name: String,
    pub timeout: u32,
}

/// The snapshot of one turn.
#[derive(Debug)]
pub struct Board {
    pub height: u8,
    pub width: u8,
    pub food: Vec<Coord>,
    pub snakes: Vec<Battlesnake>,
    pub hazards: Vec<Coord>,
}

impl Board {
    pub open spec fn in_bounds(&self, c: Coord) -> bool {
        0 <= c.x < self.width && 0 <= c.y < self.height
    }

    /// Number of tiles of the board.
    pub open spec fn area(&self) -> nat {
        (self.width * self.height) as nat
    }

    /// Some snake's body lies on `c`.
    pub open spec fn body_on(&self, c: Coord) -> bool {
        exists|i: int| 0 <= i < self.snakes@.len() && (#[trigger] self.snakes@[i]).body@.contains(c)
    }

    /// Every listed coordinate lies on the board.
    pub open spec fn wf(&self) -> bool {
        &&& forall|i: int| 0 <= i < self.food@.len() ==> self.in_bounds(#[trigger] self.food@[i])
        &&& forall|i: int|
            0 <= i < self.hazards@.len() ==> self.in_bounds(#[trigger] self.hazards@[i])
        &&& forall|i: int, j: int|
            0 <= i < self.snakes@.len() && 0 <= j < self.snakes@[i].body@.len()
                ==> self.in_bounds(#[trigger] self.snakes@[i].body@[j])
    }

    /// Whether every coordinate of `pts` lies on the board.
    pub open spec fn all_in_bounds(&self, pts: Seq<Coord>) -> bool {
        forall|i: int| 0 <= i < pts.len() ==> self.in_bounds(#[trigger] pts[i])
    }

    fn holds_all(&self, pts: &Vec<Coord>) -> (r: bool)
        ensures
            r == self.all_in_bounds(pts@),
    {
        let mut i: usize = 0;
        while i < pts.len()
            invariant
                0 <= i <= pts.len(),
                forall|j: int| 0 <= j < i ==> self.in_bounds(#[trigger] pts@[j]),
            decreases pts.len() - i,
        {
            if !self.contains(&pts[i]) {
                return false;
            }
            i = i + 1;
        }
        true
    }

    /// Whether every listed coordinate lies on the board.
    pub fn well_formed(&self) -> (r: bool)
        ensures
            r == self.wf(),
    {
        if !self.holds_all(&self.food) || !self.holds_all(&self.hazards) {
            return false;
        }
        let mut i: usize = 0;
        while i < self.snakes.len()
            invariant
                0 <= i <= self.snakes.len(),
                forall|k: int, j: int|
                    0 <= k < i && 0 <= j < self.snakes@[k].body@.len() ==> self.in_bounds(
                        #[trigger] self.snakes@[k].body@[j],
                    ),
            decreases self.snakes.len() - i,
        {
            if !self.holds_all(&self.snakes[i].body) {
                return false;
            }
            i = i + 1;
        }
        true
    }

    pub fn contains(&self, c: &Coord) -> (r: bool)
        ensures
            r == self.in_bounds(*c),
    {
        0 <= c.x && (c.x as i32) < (self.width as i32) && 0 <= c.y && (c.y as i32) < (
        self.height as i32)
    }
}

} // verus!
