//! Ranking of candidate moves: the order among equally connected tiles,
//! and the stable sort that applies it.

use crate::connect::{connectivity, percent_connected};
use crate::index::{flags_at, GameBoard};
use crate::logic::{adj_tiles_excluding, enterable, lemma_neighbors_where, lemma_unit_distance, neighbors_where};
use crate::types::{Battlesnake, Board, Coord, Flags, Ratio};
use vstd::prelude::*;

verus! {

/// The result of a comparison.
#[derive(Debug, PartialEq, Eq, Copy, Clone, Structural)]
pub enum Order {
    Less,
    Equal,
    Greater,
}

pub open spec fn order_of(a: int, b: int) -> Order {
    if a < b {
        Order::Less
    } else if a == b {
        Order::Equal
    } else {
        Order::Greater
    }
}

/// A tile with what it is ranked by: its connectivity first, then two
/// further numbers. A greater rank is a more favourable tile.
#[derive(Debug, PartialEq, Eq, Copy, Clone, Structural)]
pub struct Ranked {
    pub tile: Coord,
    pub conn: u32,
    pub major: i64,
    pub minor: i64,
}

impl Ranked {
    /// `self` ranks no higher than `o`.
    pub open spec fn le_spec(self, o: Ranked) -> bool {
        self.conn < o.conn || (self.conn == o.conn && (self.major < o.major || (self.major
            == o.major && self.minor <= o.minor)))
    }

    pub fn le(&self, o: &Ranked) -> (r: bool)
        ensures
            r == self.le_spec(*o),
    {
        self.conn < o.conn || (self.conn == o.conn && (self.major < o.major || (self.major
            == o.major && self.minor <= o.minor)))
    }
}

/// `s`, which is sorted, with `x` put behind the last element that ranks
/// no higher than `x`.
pub open spec fn inserted(s: Seq<Ranked>, x: Ranked) -> Seq<Ranked>
    decreases s.len(),
{
    if s.len() == 0 {
        seq![x]
    } else if s.last().le_spec(x) {
        s.push(x)
    } else {
        inserted(s.drop_last(), x).push(s.last())
    }
}

/// `s` in rising rank; elements of equal rank keep their order.
pub open spec fn sorted(s: Seq<Ranked>) -> Seq<Ranked>
    decreases s.len(),
{
    if s.len() == 0 {
        s
    } else {
        inserted(sorted(s.drop_last()), s.last())
    }
}

pub proof fn lemma_inserted(s: Seq<Ranked>, x: Ranked)
    ensures
        inserted(s, x).len() == s.len() + 1,
        forall|y: Ranked| #[trigger] inserted(s, x).contains(y) <==> s.contains(y) || y == x,
    decreases s.len(),
{
    let r = inserted(s, x);
    if s.len() == 0 {
        assert(r[0] == x);
    } else if s.last().le_spec(x) {
        assert forall|y: Ranked| #[trigger] r.contains(y) <==> s.contains(y) || y == x by {
            if s.contains(y) {
                let i = choose|i: int| 0 <= i < s.len() && s[i] == y;
                assert(r[i] == y);
            }
            if y == x {
                assert(r[s.len() as int] == y);
            }
        }
    } else {
        let pre = s.drop_last();
        lemma_inserted(pre, x);
        let q = inserted(pre, x);
        assert forall|y: Ranked| #[trigger] r.contains(y) <==> s.contains(y) || y == x by {
            if r.contains(y) {
                let i = choose|i: int| 0 <= i < r.len() && r[i] == y;
                if i < q.len() {
                    assert(q[i] == y);
                    assert(q.contains(y));
                    if pre.contains(y) {
                        let j = choose|j: int| 0 <= j < pre.len() && pre[j] == y;
                        assert(s[j] == y);
                    }
                } else {
                    assert(s[s.len() - 1] == y);
                }
            }
            if s.contains(y) {
                let j = choose|j: int| 0 <= j < s.len() && s[j] == y;
                if j < pre.len() {
                    assert(pre[j] == y);
                    assert(q.contains(y));
                    let i = choose|i: int| 0 <= i < q.len() && q[i] == y;
                    assert(r[i] == y);
                } else {
                    assert(r[q.len() as int] == y);
                }
            }
            if y == x {
                assert(q.contains(x));
                let i = choose|i: int| 0 <= i < q.len() && q[i] == x;
                assert(r[i] == x);
            }
        }
    }
}

/// Sorting keeps the elements.
pub proof fn lemma_sorted(s: Seq<Ranked>)
    ensures
        sorted(s).len() == s.len(),
        forall|y: Ranked| #[trigger] sorted(s).contains(y) <==> s.contains(y),
    decreases s.len(),
{
    if s.len() > 0 {
        let pre = s.drop_last();
        lemma_sorted(pre);
        lemma_inserted(sorted(pre), s.last());
        assert forall|y: Ranked| #[trigger] sorted(s).contains(y) <==> s.contains(y) by {
            if s.contains(y) {
                let j = choose|j: int| 0 <= j < s.len() && s[j] == y;
                if j < pre.len() {
                    assert(pre[j] == y);
                }
            }
            if pre.contains(y) {
                let j = choose|j: int| 0 <= j < pre.len() && pre[j] == y;
                assert(s[j] == y);
            }
            if y == s.last() {
                assert(s[s.len() - 1] == y);
            }
        }
    }
}

fn insert_ranked(out: &mut Vec<Ranked>, x: Ranked)
    ensures
        final(out)@ == inserted(old(out)@, x),
{
    let ghost s0 = out@;
    let mut j: usize = out.len();
    assert(s0.take(j as int) =~= s0);
    assert(inserted(s0, x) =~= inserted(s0.take(j as int), x) + s0.skip(j as int));
    while j > 0 && !out[j - 1].le(&x)
        invariant
            0 <= j <= out.len(),
            out@ == s0,
            inserted(s0, x) == inserted(s0.take(j as int), x) + s0.skip(j as int),
        decreases j,
    {
        proof {
            let t = s0.take(j as int);
            assert(t.last() == s0[j - 1]);
            assert(t.drop_last() =~= s0.take(j - 1));
            assert(inserted(t, x) == inserted(s0.take(j - 1), x).push(s0[j - 1]));
            assert(inserted(s0.take(j - 1), x).push(s0[j - 1]) + s0.skip(j as int) =~= inserted(
                s0.take(j - 1),
                x,
            ) + s0.skip(j - 1));
        }
        j = j - 1;
    }
    proof {
        let t = s0.take(j as int);
        if j > 0 {
            assert(t.last() == s0[j - 1]);
            assert(inserted(t, x) == t.push(x));
        } else {
            assert(inserted(t, x) == seq![x]);
        }
        assert(inserted(t, x) + s0.skip(j as int) =~= s0.insert(j as int, x));
    }
    out.insert(j, x);
}

/// Sorts by rising rank; elements of equal rank keep their order.
pub fn sort_ranked(v: &Vec<Ranked>) -> (r: Vec<Ranked>)
    ensures
        r@ == sorted(v@),
{
    let mut out: Vec<Ranked> = Vec::new();
    let mut i: usize = 0;
    assert(v@.take(0) =~= Seq::<Ranked>::empty());
    while i < v.len()
        invariant
            0 <= i <= v.len(),
            out@ == sorted(v@.take(i as int)),
        decreases v.len() - i,
    {
        proof {
            let t = v@.take(i + 1);
            assert(t.drop_last() =~= v@.take(i as int));
            assert(t.last() == v@[i as int]);
        }
        insert_ranked(&mut out, v[i]);
        i = i + 1;
    }
    assert(v@.take(v@.len() as int) =~= v@);
    out
}

/// The least squared distance from `tile` to a point of `pts`; zero
/// where there is none.
pub open spec fn nearest2(tile: Coord, pts: Seq<Coord>) -> int
    decreases pts.len(),
{
    if pts.len() == 0 {
        0
    } else if pts.len() == 1 {
        tile.dist2(pts[0])
    } else if nearest2(tile, pts.drop_last()) <= tile.dist2(pts.last()) {
        nearest2(tile, pts.drop_last())
    } else {
        tile.dist2(pts.last())
    }
}

/// `nearest2` is the distance to some point, and no point is nearer.
pub proof fn lemma_nearest2(tile: Coord, pts: Seq<Coord>)
    requires
        pts.len() > 0,
    ensures
        exists|i: int| 0 <= i < pts.len() && nearest2(tile, pts) == tile.dist2(#[trigger] pts[i]),
        forall|i: int| 0 <= i < pts.len() ==> nearest2(tile, pts) <= tile.dist2(#[trigger] pts[i]),
    decreases pts.len(),
{
    if pts.len() == 1 {
        assert(nearest2(tile, pts) == tile.dist2(pts[0]));
    } else {
        let pre = pts.drop_last();
        lemma_nearest2(tile, pre);
        let k = choose|i: int| 0 <= i < pre.len() && nearest2(tile, pre) == tile.dist2(#[trigger] pre[i]);
        assert(pre[k] == pts[k]);
        let n = pts.len() - 1;
        if nearest2(tile, pre) <= tile.dist2(pts.last()) {
            assert(nearest2(tile, pts) == tile.dist2(pts[k]));
        } else {
            assert(nearest2(tile, pts) == tile.dist2(pts[n]));
        }
        assert forall|i: int| 0 <= i < pts.len() implies nearest2(tile, pts) <= tile.dist2(
            #[trigger] pts[i],
        ) by {
            if i < n {
                assert(pre[i] == pts[i]);
            }
        }
    }
}

/// The squared distance from `tile` to the nearest food; `None` on a
/// board without food.
pub fn closest_food(tile: &Coord, board: &Board) -> (r: Option<u64>)
    ensures
        board.food@.len() == 0 ==> r is None,
        board.food@.len() > 0 ==> r == Some(nearest2(*tile, board.food@) as u64),
        board.food@.len() > 0 ==> 0 <= nearest2(*tile, board.food@) <= 2 * 65535 * 65535,
{
    if board.food.len() == 0 {
        return None;
    }
    let mut best: u64 = tile.distance_squared(&board.food[0]);
    let mut i: usize = 1;
    assert(board.food@.take(1).len() == 1);
    assert(board.food@.take(1)[0] == board.food@[0]);
    while i < board.food.len()
        invariant
            1 <= i <= board.food.len(),
            best == nearest2(*tile, board.food@.take(i as int)),
        decreases board.food.len() - i,
    {
        let d = tile.distance_squared(&board.food[i]);
        proof {
            let t = board.food@.take(i + 1);
            assert(t.drop_last() =~= board.food@.take(i as int));
            assert(t.last() == board.food@[i as int]);
        }
        if d < best {
            best = d;
        }
        i = i + 1;
    }
    proof {
        assert(board.food@.take(board.food@.len() as int) =~= board.food@);
        lemma_nearest2(*tile, board.food@);
        let k = choose|k: int|
            0 <= k < board.food@.len() && nearest2(*tile, board.food@) == tile.dist2(
                #[trigger] board.food@[k],
            );
        lemma_dist2_bound(*tile, board.food@[k]);
    }
    Some(best)
}

pub proof fn lemma_dist2_bound(a: Coord, b: Coord)
    ensures
        0 <= a.dist2(b) <= 2 * 65535 * 65535,
{
    let dx = a.x - b.x;
    let dy = a.y - b.y;
    assert(0 <= dx * dx <= 65535 * 65535) by (nonlinear_arith)
        requires
            -65535 <= dx <= 65535,
    ;
    assert(0 <= dy * dy <= 65535 * 65535) by (nonlinear_arith)
        requires
            -65535 <= dy <= 65535,
    ;
}

/// The middle tile of the board.
pub open spec fn center(board: &Board) -> Coord {
    Coord { x: (board.width / 2) as i16, y: (board.height / 2) as i16 }
}

/// The squared distance from `tile` to the middle of the board.
pub fn distance_to_center(tile: &Coord, board: &Board) -> (d: u64)
    ensures
        d == tile.dist2(center(board)),
{
    let c = Coord { x: (board.width / 2) as i16, y: (board.height / 2) as i16 };
    tile.distance_squared(&c)
}

/// Number of tiles next to `a` that `you` may occupy and that are not
/// planned.
pub open spec fn degree(
    a: Coord,
    board: &Board,
    index: Map<Coord, Flags>,
    you: &Battlesnake,
    planned: Seq<Coord>,
    avoid_heads: bool,
) -> int {
    neighbors_where(a, enterable(board, index, you, avoid_heads, planned)).len() as int
}

/// What a move is ordered by among equally connected moves. When
/// evading, on a board with food: the distance to the nearest food, so
/// that the farthest tile ranks highest. Else the number of open
/// neighbours, where `degree_order` asks for it, and then the nearness
/// to the middle of the board.
pub open spec fn move_rank(
    a: Coord,
    board: &Board,
    index: Map<Coord, Flags>,
    you: &Battlesnake,
    planned: Seq<Coord>,
    avoid_heads: bool,
    degree_order: bool,
    evasive: bool,
) -> (int, int) {
    if evasive && board.food@.len() > 0 {
        (nearest2(a, board.food@), 0)
    } else if degree_order {
        (degree(a, board, index, you, planned, avoid_heads), -a.dist2(center(board)))
    } else {
        (0, -a.dist2(center(board)))
    }
}

/// The order of two ranks, the first number before the second.
pub open spec fn rank_order(x: (int, int), y: (int, int)) -> Order {
    if x.0 != y.0 {
        order_of(x.0, y.0)
    } else {
        order_of(x.1, y.1)
    }
}

/// Computes the rank of a move.
pub fn rank_move(
    a: &Coord,
    board: &Board,
    game_board: &GameBoard,
    you: &Battlesnake,
    planned: &Vec<Coord>,
    avoid_heads: bool,
    degree_order: bool,
    evasive: bool,
) -> (r: (i64, i64))
    ensures
        (r.0 as int, r.1 as int) == move_rank(
            *a,
            board,
            game_board@,
            you,
            planned@,
            avoid_heads,
            degree_order,
            evasive,
        ),
        0 <= r.0 <= 2 * 65535 * 65535,
        -2 * 65535 * 65535 <= r.1 <= 0,
{
    proof {
        lemma_dist2_bound(*a, center(board));
    }
    if evasive && board.food.len() > 0 {
        let d = closest_food(a, board).unwrap();
        (d as i64, 0)
    } else if degree_order {
        let adj = adj_tiles_excluding(a, board, game_board, you, avoid_heads, planned);
        proof {
            crate::logic::lemma_neighbors_where(
                *a,
                enterable(board, game_board@, you, avoid_heads, planned@),
            );
        }
        (adj.len() as i64, -(distance_to_center(a, board) as i64))
    } else {
        (0, -(distance_to_center(a, board) as i64))
    }
}

/// Orders two equally connected moves, the less favourable first.
/// Without a choice, heads are avoided, the number of open neighbours
/// counts, and nothing is evaded.
pub fn compare_moves(
    a: &Coord,
    b: &Coord,
    board: &Board,
    game_board: &GameBoard,
    you: &Battlesnake,
    current_planned_moves: &Vec<Coord>,
    avoid_snake_heads_option: Option<bool>,
    degree_order_option: Option<bool>,
    evasive_action_option: Option<bool>,
) -> (r: Order)
    ensures
        r == rank_order(
            move_rank(
                *a,
                board,
                game_board@,
                you,
                current_planned_moves@,
                avoid_snake_heads_option.unwrap_or(true),
                degree_order_option.unwrap_or(true),
                evasive_action_option.unwrap_or(false),
            ),
            move_rank(
                *b,
                board,
                game_board@,
                you,
                current_planned_moves@,
                avoid_snake_heads_option.unwrap_or(true),
                degree_order_option.unwrap_or(true),
                evasive_action_option.unwrap_or(false),
            ),
        ),
{
    let avoid = match avoid_snake_heads_option {
        Some(x) => x,
        None => true,
    };
    let degree_order = match degree_order_option {
        Some(x) => x,
        None => true,
    };
    let evasive = match evasive_action_option {
        Some(x) => x,
        None => false,
    };
    let ra = rank_move(a, board, game_board, you, current_planned_moves, avoid, degree_order, evasive);
    let rb = rank_move(b, board, game_board, you, current_planned_moves, avoid, degree_order, evasive);
    if ra.0 < rb.0 {
        Order::Less
    } else if ra.0 > rb.0 {
        Order::Greater
    } else if ra.1 < rb.1 {
        Order::Less
    } else if ra.1 > rb.1 {
        Order::Greater
    } else {
        Order::Equal
    }
}


/// Whether the tile at `(ux, uy)` from `tile` may part two branches: the
/// offset is zero, or a body stands there.
pub open spec fn diverge_at(tile: Coord, ux: int, uy: int, index: Map<Coord, Flags>) -> bool {
    (ux == 0 && uy == 0) || match tile.shifted(ux, uy) {
        Some(v) => !flags_at(index, v).is_free_spec(),
        None => false,
    }
}

fn diverge_by(tile: &Coord, ux: i32, uy: i32, game_board: &GameBoard) -> (r: bool)
    requires
        -200000 <= ux <= 200000,
        -200000 <= uy <= 200000,
    ensures
        r == diverge_at(*tile, ux as int, uy as int, game_board@),
{
    if ux == 0 && uy == 0 {
        return true;
    }
    let x: i32 = tile.x as i32 + ux;
    let y: i32 = tile.y as i32 + uy;
    if x < -32768 || x > 32767 || y < -32768 || y > 32767 {
        return false;
    }
    let v = Coord { x: x as i16, y: y as i16 };
    !game_board.get(&v).is_free()
}

/// Whether two moves from `tile`, given as unit vectors, may lead into
/// regions that are not joined: they are opposite, or a body stands on
/// the tile diagonally between them.
pub fn coords_diverge(tile: &Coord, unit_coords: (&Coord, &Coord), game_board: &GameBoard) -> (r:
    bool)
    ensures
        r == diverge_at(
            *tile,
            unit_coords.0.x + unit_coords.1.x,
            unit_coords.0.y + unit_coords.1.y,
            game_board@,
        ),
{
    let (u1, u2) = unit_coords;
    diverge_by(tile, u1.x as i32 + u2.x as i32, u1.y as i32 + u2.y as i32, game_board)
}

/// A tile with its rank and the given connectivity.
pub open spec fn ranked_of(
    t: Coord,
    conn: u32,
    board: &Board,
    index: Map<Coord, Flags>,
    you: &Battlesnake,
    planned: Seq<Coord>,
    avoid_heads: bool,
    degree_order: bool,
    evasive: bool,
) -> Ranked {
    let r = move_rank(t, board, index, you, planned, avoid_heads, degree_order, evasive);
    Ranked { tile: t, conn, major: r.0 as i64, minor: r.1 as i64 }
}

/// The tiles with their ranks, all of one connectivity.
pub open spec fn plain_ranked(
    tiles: Seq<Coord>,
    board: &Board,
    index: Map<Coord, Flags>,
    you: &Battlesnake,
    planned: Seq<Coord>,
    avoid_heads: bool,
    degree_order: bool,
    evasive: bool,
) -> Seq<Ranked> {
    Seq::new(
        tiles.len(),
        |i: int|
            ranked_of(tiles[i], 0, board, index, you, planned, avoid_heads, degree_order, evasive),
    )
}

pub open spec fn tiles_of(s: Seq<Ranked>) -> Seq<Coord> {
    Seq::new(s.len(), |i: int| s[i].tile)
}

/// The legal moves from `tile`, the least favourable first.
pub open spec fn ordered_moves(
    tile: Coord,
    board: &Board,
    index: Map<Coord, Flags>,
    you: &Battlesnake,
    planned: Seq<Coord>,
    avoid_heads: bool,
    degree_order: bool,
    evasive: bool,
) -> Seq<Coord> {
    tiles_of(
        sorted(
            plain_ranked(
                neighbors_where(tile, enterable(board, index, you, avoid_heads, planned)),
                board,
                index,
                you,
                planned,
                avoid_heads,
                degree_order,
                evasive,
            ),
        ),
    )
}

/// A branch qualifies: it is joined to enough of the free tiles, and
/// has enough open neighbours.
pub open spec fn qualifies(
    t: Coord,
    board: &Board,
    index: Map<Coord, Flags>,
    you: &Battlesnake,
    planned: Seq<Coord>,
    threshold: Ratio,
    degree_threshold: u8,
) -> bool {
    connectivity(t, board, index, you, planned).at_least_spec(threshold) && degree(
        t,
        board,
        index,
        you,
        planned,
        true,
    ) >= degree_threshold
}

/// The branch with its connectivity and rank, if it qualifies.
pub open spec fn branch_entry(
    t: Coord,
    board: &Board,
    index: Map<Coord, Flags>,
    you: &Battlesnake,
    planned: Seq<Coord>,
    threshold: Ratio,
    degree_threshold: u8,
    avoid_heads: bool,
    degree_order: bool,
    evasive: bool,
) -> Seq<Ranked> {
    if qualifies(t, board, index, you, planned, threshold, degree_threshold) {
        seq![
            ranked_of(
                t,
                connectivity(t, board, index, you, planned).num,
                board,
                index,
                you,
                planned,
                avoid_heads,
                degree_order,
                evasive,
            ),
        ]
    } else {
        seq![]
    }
}

/// Of two branches those that qualify, the less connected first, and
/// among equally connected ones the less favourable first.
pub open spec fn favourable(
    t0: Coord,
    t1: Coord,
    board: &Board,
    index: Map<Coord, Flags>,
    you: &Battlesnake,
    planned: Seq<Coord>,
    threshold: Ratio,
    degree_threshold: u8,
    avoid_heads: bool,
    degree_order: bool,
    evasive: bool,
) -> Seq<Ranked> {
    sorted(
        branch_entry(
            t0,
            board,
            index,
            you,
            planned,
            threshold,
            degree_threshold,
            avoid_heads,
            degree_order,
            evasive,
        ) + branch_entry(
            t1,
            board,
            index,
            you,
            planned,
            threshold,
            degree_threshold,
            avoid_heads,
            degree_order,
            evasive,
        ),
    )
}

/// The elements of `s` that `t` does not hold.
pub open spec fn without(s: Seq<Ranked>, t: Seq<Ranked>) -> Seq<Ranked>
    decreases s.len(),
{
    if s.len() == 0 {
        s
    } else if t.contains(s.last()) {
        without(s.drop_last(), t)
    } else {
        without(s.drop_last(), t).push(s.last())
    }
}

/// The sideways moves among three: those that are not the forward tile.
pub open spec fn side_moves(moves: Seq<Coord>, forward: Option<Coord>) -> Seq<Coord>
    decreases moves.len(),
{
    if moves.len() == 0 {
        moves
    } else if Some(moves.last()) == forward {
        side_moves(moves.drop_last(), forward)
    } else {
        side_moves(moves.drop_last(), forward).push(moves.last())
    }
}

/// The ranking of the moves from `tile`.
///
/// The legal moves are put in order, the least favourable first. Two
/// moves that may diverge are replaced by those of them that qualify.
/// Of three moves one is forward: the sum of the three unit moves. If
/// it may diverge from a side move, each side is judged together with
/// the forward move, and what qualifies is put in order again.
pub open spec fn ranked_candidates(
    tile: Coord,
    board: &Board,
    index: Map<Coord, Flags>,
    you: &Battlesnake,
    threshold: Ratio,
    degree_threshold: u8,
    degree_order: bool,
    evasive: bool,
    avoid_heads: bool,
    planned: Seq<Coord>,
) -> Seq<Coord> {
    let moves = ordered_moves(tile, board, index, you, planned, avoid_heads, degree_order, evasive);
    if moves.len() == 2 {
        if diverge_at(
            tile,
            moves[0].x + moves[1].x - 2 * tile.x,
            moves[0].y + moves[1].y - 2 * tile.y,
            index,
        ) {
            tiles_of(
                favourable(
                    moves[0],
                    moves[1],
                    board,
                    index,
                    you,
                    planned,
                    threshold,
                    degree_threshold,
                    avoid_heads,
                    degree_order,
                    evasive,
                ),
            )
        } else {
            moves
        }
    } else if moves.len() == 3 {
        let fx = moves[0].x + moves[1].x + moves[2].x - 3 * tile.x;
        let fy = moves[0].y + moves[1].y + moves[2].y - 3 * tile.y;
        let forward = tile.shifted(fx, fy);
        let sides = side_moves(moves, forward);
        if sides.len() != 2 || forward is None {
            seq![]
        } else if !(diverge_at(tile, fx + sides[0].x - tile.x, fy + sides[0].y - tile.y, index)
            || diverge_at(tile, fx + sides[1].x - tile.x, fy + sides[1].y - tile.y, index)) {
            moves
        } else {
            let first = favourable(
                forward.unwrap(),
                sides[0],
                board,
                index,
                you,
                planned,
                threshold,
                degree_threshold,
                avoid_heads,
                degree_order,
                evasive,
            );
            let second = favourable(
                forward.unwrap(),
                sides[1],
                board,
                index,
                you,
                planned,
                threshold,
                degree_threshold,
                avoid_heads,
                degree_order,
                evasive,
            );
            tiles_of(sorted(first + without(second, first)))
        }
    } else {
        moves
    }
}

/// The tiles of a ranked list.
pub fn to_tiles(v: &Vec<Ranked>) -> (r: Vec<Coord>)
    ensures
        r@ == tiles_of(v@),
{
    let mut r: Vec<Coord> = Vec::new();
    let mut i: usize = 0;
    while i < v.len()
        invariant
            0 <= i <= v.len(),
            r@.len() == i,
            forall|j: int| 0 <= j < i ==> r@[j] == v@[j].tile,
        decreases v.len() - i,
    {
        r.push(v[i].tile);
        i = i + 1;
    }
    assert(r@ =~= tiles_of(v@));
    r
}

fn holds_ranked(v: &Vec<Ranked>, x: &Ranked) -> (r: bool)
    ensures
        r == v@.contains(*x),
{
    let mut i: usize = 0;
    while i < v.len()
        invariant
            0 <= i <= v.len(),
            forall|j: int| 0 <= j < i ==> v@[j] != *x,
        decreases v.len() - i,
    {
        if v[i] == *x {
            return true;
        }
        i = i + 1;
    }
    false
}

/// Ranks the legal moves from `tile` and puts them in order.
fn order_moves(
    tile: &Coord,
    board: &Board,
    game_board: &GameBoard,
    you: &Battlesnake,
    planned: &Vec<Coord>,
    avoid_heads: bool,
    degree_order: bool,
    evasive: bool,
) -> (r: Vec<Coord>)
    ensures
        r@ == ordered_moves(
            *tile,
            board,
            game_board@,
            you,
            planned@,
            avoid_heads,
            degree_order,
            evasive,
        ),
{
    let adj = adj_tiles_excluding(tile, board, game_board, you, avoid_heads, planned);
    let mut ranked: Vec<Ranked> = Vec::new();
    let mut i: usize = 0;
    while i < adj.len()
        invariant
            0 <= i <= adj.len(),
            ranked@.len() == i,
            forall|j: int|
                0 <= j < i ==> ranked@[j] == ranked_of(
                    adj@[j],
                    0,
                    board,
                    game_board@,
                    you,
                    planned@,
                    avoid_heads,
                    degree_order,
                    evasive,
                ),
        decreases adj.len() - i,
    {
        let r = rank_move(&adj[i], board, game_board, you, planned, avoid_heads, degree_order, evasive);
        ranked.push(Ranked { tile: adj[i], conn: 0, major: r.0, minor: r.1 });
        i = i + 1;
    }
    assert(ranked@ =~= plain_ranked(
        adj@,
        board,
        game_board@,
        you,
        planned@,
        avoid_heads,
        degree_order,
        evasive,
    ));
    let done = sort_ranked(&ranked);
    to_tiles(&done)
}

fn push_branch(
    out: &mut Vec<Ranked>,
    t: &Coord,
    board: &Board,
    game_board: &GameBoard,
    you: &Battlesnake,
    planned: &Vec<Coord>,
    threshold: &Ratio,
    degree_threshold: u8,
    avoid_heads: bool,
    degree_order: bool,
    evasive: bool,
)
    requires
        board.wf(),
    ensures
        final(out)@ == old(out)@ + branch_entry(
            *t,
            board,
            game_board@,
            you,
            planned@,
            *threshold,
            degree_threshold,
            avoid_heads,
            degree_order,
            evasive,
        ),
{
    let conn = percent_connected(t, board, game_board, you, planned);
    let ghost before = out@;
    if conn.at_least(threshold) {
        let adj = adj_tiles_excluding(t, board, game_board, you, true, planned);
        proof {
            lemma_neighbors_where(*t, enterable(board, game_board@, you, true, planned@));
        }
        if adj.len() as u8 >= degree_threshold {
            let r = rank_move(t, board, game_board, you, planned, avoid_heads, degree_order, evasive);
            out.push(Ranked { tile: *t, conn: conn.num, major: r.0, minor: r.1 });
            assert(out@ =~= before + seq![out@[before.len() as int]]);
            return ;
        }
    }
    assert(out@ =~= before + Seq::<Ranked>::empty());
}

/// Of two branches that may not be joined, those that are joined to at
/// least `threshold` of the free tiles and have at least
/// `degree_threshold` open neighbours, the less connected first.
pub fn favourable_divergent_coords(
    tiles: (&Coord, &Coord),
    board: &Board,
    game_board: &GameBoard,
    you: &Battlesnake,
    exclude_tiles: &Vec<Coord>,
    degree_threshold: u8,
    threshold: Ratio,
    avoid_snake_heads_option: Option<bool>,
    apply_degree: Option<bool>,
    evasive_action_option: Option<bool>,
) -> (r: Vec<Ranked>)
    requires
        board.wf(),
    ensures
        r@ == favourable(
            *tiles.0,
            *tiles.1,
            board,
            game_board@,
            you,
            exclude_tiles@,
            threshold,
            degree_threshold,
            avoid_snake_heads_option.unwrap_or(true),
            apply_degree.unwrap_or(true),
            evasive_action_option.unwrap_or(false),
        ),
{
    let avoid = match avoid_snake_heads_option {
        Some(x) => x,
        None => true,
    };
    let degree_order = match apply_degree {
        Some(x) => x,
        None => true,
    };
    let evasive = match evasive_action_option {
        Some(x) => x,
        None => false,
    };
    let mut found: Vec<Ranked> = Vec::new();
    push_branch(
        &mut found,
        tiles.0,
        board,
        game_board,
        you,
        exclude_tiles,
        &threshold,
        degree_threshold,
        avoid,
        degree_order,
        evasive,
    );
    push_branch(
        &mut found,
        tiles.1,
        board,
        game_board,
        you,
        exclude_tiles,
        &threshold,
        degree_threshold,
        avoid,
        degree_order,
        evasive,
    );
    assert(found@ =~= branch_entry(
        *tiles.0,
        board,
        game_board@,
        you,
        exclude_tiles@,
        threshold,
        degree_threshold,
        avoid,
        degree_order,
        evasive,
    ) + branch_entry(
        *tiles.1,
        board,
        game_board@,
        you,
        exclude_tiles@,
        threshold,
        degree_threshold,
        avoid,
        degree_order,
        evasive,
    ));
    sort_ranked(&found)
}

fn sides_of(moves: &Vec<Coord>, forward: Option<Coord>) -> (r: Vec<Coord>)
    ensures
        r@ == side_moves(moves@, forward),
{
    let mut r: Vec<Coord> = Vec::new();
    let mut i: usize = 0;
    assert(moves@.take(0) =~= Seq::<Coord>::empty());
    while i < moves.len()
        invariant
            0 <= i <= moves.len(),
            r@ == side_moves(moves@.take(i as int), forward),
        decreases moves.len() - i,
    {
        proof {
            let t = moves@.take(i + 1);
            assert(t.drop_last() =~= moves@.take(i as int));
            assert(t.last() == moves@[i as int]);
        }
        let same = match forward {
            Some(f) => f == moves[i],
            None => false,
        };
        if !same {
            r.push(moves[i]);
        }
        i = i + 1;
    }
    assert(moves@.take(moves@.len() as int) =~= moves@);
    r
}

fn drop_known(second: &Vec<Ranked>, first: &Vec<Ranked>) -> (r: Vec<Ranked>)
    ensures
        r@ == without(second@, first@),
{
    let mut r: Vec<Ranked> = Vec::new();
    let mut i: usize = 0;
    assert(second@.take(0) =~= Seq::<Ranked>::empty());
    while i < second.len()
        invariant
            0 <= i <= second.len(),
            r@ == without(second@.take(i as int), first@),
        decreases second.len() - i,
    {
        proof {
            let t = second@.take(i + 1);
            assert(t.drop_last() =~= second@.take(i as int));
            assert(t.last() == second@[i as int]);
        }
        if !holds_ranked(first, &second[i]) {
            r.push(second[i]);
        }
        i = i + 1;
    }
    assert(second@.take(second@.len() as int) =~= second@);
    r
}

/// The moves from `tile` that are safe and well enough connected, the
/// most favourable last. Without a choice, heads are avoided, the
/// number of open neighbours counts, nothing is evaded and nothing is
/// planned.
pub fn get_adj_tiles_connected(
    tile: &Coord,
    board: &Board,
    game_board: &GameBoard,
    you: &Battlesnake,
    threshold: Ratio,
    degree_threshold: u8,
    apply_degree: Option<bool>,
    evasive_action_option: Option<bool>,
    avoid_snake_heads_option: Option<bool>,
    current_planned_moves_option: Option<Vec<Coord>>,
) -> (r: Vec<Coord>)
    requires
        board.wf(),
    ensures
        r@ == ranked_candidates(
            *tile,
            board,
            game_board@,
            you,
            threshold,
            degree_threshold,
            apply_degree.unwrap_or(true),
            evasive_action_option.unwrap_or(false),
            avoid_snake_heads_option.unwrap_or(true),
            crate::logic::planned_of(current_planned_moves_option),
        ),
{
    let avoid = match avoid_snake_heads_option {
        Some(x) => x,
        None => true,
    };
    let degree_order = match apply_degree {
        Some(x) => x,
        None => true,
    };
    let evasive = match evasive_action_option {
        Some(x) => x,
        None => false,
    };
    let current_planned_moves: Vec<Coord> = match current_planned_moves_option {
        Some(v) => v,
        None => Vec::new(),
    };
    adj_tiles_connected(
        tile,
        board,
        game_board,
        you,
        &threshold,
        degree_threshold,
        degree_order,
        evasive,
        avoid,
        &current_planned_moves,
    )
}

/// `get_adj_tiles_connected` with every choice made and the planned
/// moves borrowed.
pub fn adj_tiles_connected(
    tile: &Coord,
    board: &Board,
    game_board: &GameBoard,
    you: &Battlesnake,
    threshold: &Ratio,
    degree_threshold: u8,
    degree_order: bool,
    evasive: bool,
    avoid: bool,
    planned: &Vec<Coord>,
) -> (r: Vec<Coord>)
    requires
        board.wf(),
    ensures
        r@ == ranked_candidates(
            *tile,
            board,
            game_board@,
            you,
            *threshold,
            degree_threshold,
            degree_order,
            evasive,
            avoid,
            planned@,
        ),
{
    let moves = order_moves(tile, board, game_board, you, planned, avoid, degree_order, evasive);
    let tx: i32 = tile.x as i32;
    let ty: i32 = tile.y as i32;
    if moves.len() == 2 {
        let ux: i32 = moves[0].x as i32 + moves[1].x as i32 - 2 * tx;
        let uy: i32 = moves[0].y as i32 + moves[1].y as i32 - 2 * ty;
        if diverge_by(tile, ux, uy, game_board) {
            let found = favourable_divergent_coords(
                (&moves[0], &moves[1]),
                board,
                game_board,
                you,
                planned,
                degree_threshold,
                *threshold,
                Some(avoid),
                Some(degree_order),
                Some(evasive),
            );
            return to_tiles(&found);
        } else {
            return moves;
        }
    } else if moves.len() == 3 {
        let fx: i32 = moves[0].x as i32 + moves[1].x as i32 + moves[2].x as i32 - 3 * tx;
        let fy: i32 = moves[0].y as i32 + moves[1].y as i32 + moves[2].y as i32 - 3 * ty;
        let px: i32 = tx + fx;
        let py: i32 = ty + fy;
        let forward: Option<Coord> = if px < -32768 || px > 32767 || py < -32768 || py > 32767 {
            None
        } else {
            Some(Coord { x: px as i16, y: py as i16 })
        };
        let sides = sides_of(&moves, forward);
        if sides.len() != 2 || forward.is_none() {
            return Vec::new();
        }
        let forward_vec = forward.unwrap();
        let d0 = diverge_by(
            tile,
            fx + sides[0].x as i32 - tx,
            fy + sides[0].y as i32 - ty,
            game_board,
        );
        let d1 = diverge_by(
            tile,
            fx + sides[1].x as i32 - tx,
            fy + sides[1].y as i32 - ty,
            game_board,
        );
        if !(d0 || d1) {
            return moves;
        }
        let first = favourable_divergent_coords(
            (&forward_vec, &sides[0]),
            board,
            game_board,
            you,
            planned,
            degree_threshold,
            *threshold,
            Some(avoid),
            Some(degree_order),
            Some(evasive),
        );
        let second = favourable_divergent_coords(
            (&forward_vec, &sides[1]),
            board,
            game_board,
            you,
            planned,
            degree_threshold,
            *threshold,
            Some(avoid),
            Some(degree_order),
            Some(evasive),
        );
        let mut rest = drop_known(&second, &first);
        let mut merged = first;
        let ghost a = merged@;
        let ghost b = rest@;
        merged.append(&mut rest);
        assert(merged@ =~= a + b);
        let done = sort_ranked(&merged);
        return to_tiles(&done);
    }
    moves
}


/// The ranking with its fallback: where it is not strict and no move
/// qualifies, all moves, ranked with nothing asked of them.
pub open spec fn ranked_or_all(
    tile: Coord,
    board: &Board,
    index: Map<Coord, Flags>,
    you: &Battlesnake,
    threshold: Ratio,
    degree_threshold: u8,
    strict: bool,
    degree_order: bool,
    evasive: bool,
    avoid_heads: bool,
    planned: Seq<Coord>,
) -> Seq<Coord> {
    let first = ranked_candidates(
        tile,
        board,
        index,
        you,
        threshold,
        degree_threshold,
        degree_order,
        evasive,
        avoid_heads,
        planned,
    );
    if strict || first.len() > 0 {
        first
    } else {
        ranked_candidates(
            tile,
            board,
            index,
            you,
            Ratio { num: 0, den: 1 },
            0,
            degree_order,
            evasive,
            avoid_heads,
            planned,
        )
    }
}

/// Ranks the moves from `tile`. Strictly, only the moves that qualify
/// are returned, and none where none does; else, where none qualifies,
/// all moves are returned in their ranking.
pub fn rank_candidates(
    tile: &Coord,
    board: &Board,
    game_board: &GameBoard,
    you: &Battlesnake,
    threshold: &Ratio,
    degree_threshold: u8,
    strict: bool,
    degree_order: bool,
    evasive: bool,
    avoid: bool,
    planned: &Vec<Coord>,
) -> (r: Vec<Coord>)
    requires
        board.wf(),
    ensures
        r@ == ranked_or_all(
            *tile,
            board,
            game_board@,
            you,
            *threshold,
            degree_threshold,
            strict,
            degree_order,
            evasive,
            avoid,
            planned@,
        ),
{
    let first = adj_tiles_connected(
        tile,
        board,
        game_board,
        you,
        threshold,
        degree_threshold,
        degree_order,
        evasive,
        avoid,
        planned,
    );
    if strict || first.len() > 0 {
        first
    } else {
        let zero = Ratio::new(0, 1);
        adj_tiles_connected(
            tile,
            board,
            game_board,
            you,
            &zero,
            0,
            degree_order,
            evasive,
            avoid,
            planned,
        )
    }
}

proof fn lemma_without(s: Seq<Ranked>, t: Seq<Ranked>)
    ensures
        forall|y: Ranked| #[trigger] without(s, t).contains(y) ==> s.contains(y),
    decreases s.len(),
{
    if s.len() > 0 {
        let pre = s.drop_last();
        lemma_without(pre, t);
        let w = without(s, t);
        assert forall|y: Ranked| #[trigger] w.contains(y) implies s.contains(y) by {
            let i = choose|i: int| 0 <= i < w.len() && w[i] == y;
            if t.contains(s.last()) || i < without(pre, t).len() {
                assert(without(pre, t)[i] == y);
                assert(without(pre, t).contains(y));
                let j = choose|j: int| 0 <= j < pre.len() && pre[j] == y;
                assert(s[j] == y);
            } else {
                assert(s[s.len() - 1] == y);
            }
        }
    }
}

proof fn lemma_side_moves(moves: Seq<Coord>, forward: Option<Coord>)
    ensures
        forall|c: Coord| #[trigger] side_moves(moves, forward).contains(c) ==> moves.contains(c),
    decreases moves.len(),
{
    if moves.len() > 0 {
        let pre = moves.drop_last();
        lemma_side_moves(pre, forward);
        let w = side_moves(moves, forward);
        assert forall|c: Coord| #[trigger] w.contains(c) implies moves.contains(c) by {
            let i = choose|i: int| 0 <= i < w.len() && w[i] == c;
            if Some(moves.last()) == forward || i < side_moves(pre, forward).len() {
                assert(side_moves(pre, forward)[i] == c);
                assert(side_moves(pre, forward).contains(c));
                let j = choose|j: int| 0 <= j < pre.len() && pre[j] == c;
                assert(moves[j] == c);
            } else {
                assert(moves[moves.len() - 1] == c);
            }
        }
    }
}

/// The ordered moves are the legal moves.
pub proof fn lemma_ordered_moves(
    tile: Coord,
    board: &Board,
    index: Map<Coord, Flags>,
    you: &Battlesnake,
    planned: Seq<Coord>,
    avoid_heads: bool,
    degree_order: bool,
    evasive: bool,
)
    ensures
        ordered_moves(tile, board, index, you, planned, avoid_heads, degree_order, evasive).len()
            == neighbors_where(tile, enterable(board, index, you, avoid_heads, planned)).len(),
        forall|c: Coord| #[trigger]
            ordered_moves(
                tile,
                board,
                index,
                you,
                planned,
                avoid_heads,
                degree_order,
                evasive,
            ).contains(c) <==> neighbors_where(
                tile,
                enterable(board, index, you, avoid_heads, planned),
            ).contains(c),
{
    let nb = neighbors_where(tile, enterable(board, index, you, avoid_heads, planned));
    let pr = plain_ranked(nb, board, index, you, planned, avoid_heads, degree_order, evasive);
    let om = ordered_moves(tile, board, index, you, planned, avoid_heads, degree_order, evasive);
    lemma_sorted(pr);
    assert forall|c: Coord| #[trigger] om.contains(c) <==> nb.contains(c) by {
        if om.contains(c) {
            let i = choose|i: int| 0 <= i < om.len() && om[i] == c;
            assert(sorted(pr).contains(sorted(pr)[i]));
            let j = choose|j: int| 0 <= j < pr.len() && pr[j] == sorted(pr)[i];
            assert(nb[j] == c);
        }
        if nb.contains(c) {
            let j = choose|j: int| 0 <= j < nb.len() && nb[j] == c;
            assert(pr.contains(pr[j]));
            assert(sorted(pr).contains(pr[j]));
            let i = choose|i: int| 0 <= i < sorted(pr).len() && sorted(pr)[i] == pr[j];
            assert(om[i] == c);
        }
    }
}

proof fn lemma_favourable_tiles(
    t0: Coord,
    t1: Coord,
    board: &Board,
    index: Map<Coord, Flags>,
    you: &Battlesnake,
    planned: Seq<Coord>,
    threshold: Ratio,
    degree_threshold: u8,
    avoid_heads: bool,
    degree_order: bool,
    evasive: bool,
)
    ensures
        forall|y: Ranked| #[trigger]
            favourable(
                t0,
                t1,
                board,
                index,
                you,
                planned,
                threshold,
                degree_threshold,
                avoid_heads,
                degree_order,
                evasive,
            ).contains(y) ==> y.tile == t0 || y.tile == t1,
{
    let e0 = branch_entry(
        t0,
        board,
        index,
        you,
        planned,
        threshold,
        degree_threshold,
        avoid_heads,
        degree_order,
        evasive,
    );
    let e1 = branch_entry(
        t1,
        board,
        index,
        you,
        planned,
        threshold,
        degree_threshold,
        avoid_heads,
        degree_order,
        evasive,
    );
    lemma_sorted(e0 + e1);
    assert forall|y: Ranked| #[trigger] (e0 + e1).contains(y) implies y.tile == t0 || y.tile
        == t1 by {
        let i = choose|i: int| 0 <= i < (e0 + e1).len() && (e0 + e1)[i] == y;
        if i < e0.len() {
            assert(e0[i] == y);
        } else {
            assert(e1[i - e0.len()] == y);
        }
    }
}

/// Every ranked candidate is a legal move: next to the tile, enterable,
/// and not planned.
pub proof fn lemma_candidates_are_moves(
    tile: Coord,
    board: &Board,
    index: Map<Coord, Flags>,
    you: &Battlesnake,
    threshold: Ratio,
    degree_threshold: u8,
    degree_order: bool,
    evasive: bool,
    avoid_heads: bool,
    planned: Seq<Coord>,
)
    ensures
        forall|c: Coord| #[trigger]
            ranked_candidates(
                tile,
                board,
                index,
                you,
                threshold,
                degree_threshold,
                degree_order,
                evasive,
                avoid_heads,
                planned,
            ).contains(c) ==> tile.adjacent(c) && crate::logic::can_enter(
                c,
                board,
                index,
                you,
                avoid_heads,
            ) && !planned.contains(c),
{
    let ok = enterable(board, index, you, avoid_heads, planned);
    let nb = neighbors_where(tile, ok);
    let moves = ordered_moves(tile, board, index, you, planned, avoid_heads, degree_order, evasive);
    let rc = ranked_candidates(
        tile,
        board,
        index,
        you,
        threshold,
        degree_threshold,
        degree_order,
        evasive,
        avoid_heads,
        planned,
    );
    lemma_neighbors_where(tile, ok);
    lemma_ordered_moves(tile, board, index, you, planned, avoid_heads, degree_order, evasive);
    assert forall|c: Coord| #[trigger] rc.contains(c) implies moves.contains(c) by {
        let i = choose|i: int| 0 <= i < rc.len() && rc[i] == c;
        if moves.len() == 2 {
            if rc != moves {
                let fav = favourable(
                    moves[0],
                    moves[1],
                    board,
                    index,
                    you,
                    planned,
                    threshold,
                    degree_threshold,
                    avoid_heads,
                    degree_order,
                    evasive,
                );
                lemma_favourable_tiles(
                    moves[0],
                    moves[1],
                    board,
                    index,
                    you,
                    planned,
                    threshold,
                    degree_threshold,
                    avoid_heads,
                    degree_order,
                    evasive,
                );
                assert(fav.contains(fav[i]));
                assert(moves.contains(moves[0]) && moves.contains(moves[1]));
            }
        } else if moves.len() == 3 {
            if rc != moves {
                let fx = moves[0].x + moves[1].x + moves[2].x - 3 * tile.x;
                let fy = moves[0].y + moves[1].y + moves[2].y - 3 * tile.y;
                let forward = tile.shifted(fx, fy);
                let sides = side_moves(moves, forward);
                let f = forward.unwrap();
                let first = favourable(
                    f,
                    sides[0],
                    board,
                    index,
                    you,
                    planned,
                    threshold,
                    degree_threshold,
                    avoid_heads,
                    degree_order,
                    evasive,
                );
                let second = favourable(
                    f,
                    sides[1],
                    board,
                    index,
                    you,
                    planned,
                    threshold,
                    degree_threshold,
                    avoid_heads,
                    degree_order,
                    evasive,
                );
                lemma_favourable_tiles(
                    f,
                    sides[0],
                    board,
                    index,
                    you,
                    planned,
                    threshold,
                    degree_threshold,
                    avoid_heads,
                    degree_order,
                    evasive,
                );
                lemma_favourable_tiles(
                    f,
                    sides[1],
                    board,
                    index,
                    you,
                    planned,
                    threshold,
                    degree_threshold,
                    avoid_heads,
                    degree_order,
                    evasive,
                );
                lemma_side_moves(moves, forward);
                lemma_without(second, first);
                let merged = first + without(second, first);
                lemma_sorted(merged);
                let y = sorted(merged)[i];
                assert(sorted(merged).contains(y));
                assert(merged.contains(y));
                let j = choose|j: int| 0 <= j < merged.len() && merged[j] == y;
                if j < first.len() {
                    assert(first[j] == y);
                    assert(first.contains(y));
                } else {
                    assert(without(second, first)[j - first.len()] == y);
                    assert(without(second, first).contains(y));
                    assert(second.contains(y));
                }
                assert(y.tile == f || y.tile == sides[0] || y.tile == sides[1]);
                assert(sides.contains(sides[0]) && sides.contains(sides[1]));
                lemma_three_distinct(
                    tile,
                    board,
                    index,
                    you,
                    planned,
                    avoid_heads,
                    degree_order,
                    evasive,
                );
                lemma_three_moves(tile, moves);
            }
        }
    }
}

/// With no threshold to meet, some candidate is ranked wherever there is
/// a legal move.
pub proof fn lemma_candidates_nonempty(
    tile: Coord,
    board: &Board,
    index: Map<Coord, Flags>,
    you: &Battlesnake,
    degree_order: bool,
    evasive: bool,
    avoid_heads: bool,
    planned: Seq<Coord>,
)
    requires
        neighbors_where(tile, enterable(board, index, you, avoid_heads, planned)).len() > 0,
    ensures
        ranked_candidates(
            tile,
            board,
            index,
            you,
            Ratio { num: 0, den: 1 },
            0,
            degree_order,
            evasive,
            avoid_heads,
            planned,
        ).len() > 0,
{
    let zero = Ratio { num: 0, den: 1 };
    let ok = enterable(board, index, you, avoid_heads, planned);
    let nb = neighbors_where(tile, ok);
    let moves = ordered_moves(tile, board, index, you, planned, avoid_heads, degree_order, evasive);
    lemma_neighbors_where(tile, ok);
    lemma_ordered_moves(tile, board, index, you, planned, avoid_heads, degree_order, evasive);
    if moves.len() == 2 {
        lemma_favourable_full(
            moves[0],
            moves[1],
            board,
            index,
            you,
            planned,
            avoid_heads,
            degree_order,
            evasive,
        );
    } else if moves.len() == 3 {
        lemma_three_distinct(tile, board, index, you, planned, avoid_heads, degree_order, evasive);
        lemma_three_moves(tile, moves);
        let fx = moves[0].x + moves[1].x + moves[2].x - 3 * tile.x;
        let fy = moves[0].y + moves[1].y + moves[2].y - 3 * tile.y;
        let forward = tile.shifted(fx, fy);
        let sides = side_moves(moves, forward);
        lemma_favourable_full(
            forward.unwrap(),
            sides[0],
            board,
            index,
            you,
            planned,
            avoid_heads,
            degree_order,
            evasive,
        );
        let first = favourable(
            forward.unwrap(),
            sides[0],
            board,
            index,
            you,
            planned,
            zero,
            0,
            avoid_heads,
            degree_order,
            evasive,
        );
        let second = favourable(
            forward.unwrap(),
            sides[1],
            board,
            index,
            you,
            planned,
            zero,
            0,
            avoid_heads,
            degree_order,
            evasive,
        );
        lemma_sorted(first + without(second, first));
    }
}

/// Three ordered moves are three different tiles next to the tile.
proof fn lemma_three_distinct(
    tile: Coord,
    board: &Board,
    index: Map<Coord, Flags>,
    you: &Battlesnake,
    planned: Seq<Coord>,
    avoid_heads: bool,
    degree_order: bool,
    evasive: bool,
)
    requires
        ordered_moves(tile, board, index, you, planned, avoid_heads, degree_order, evasive).len()
            == 3,
    ensures
        ({
            let moves = ordered_moves(
                tile,
                board,
                index,
                you,
                planned,
                avoid_heads,
                degree_order,
                evasive,
            );
            &&& tile.adjacent(moves[0]) && tile.adjacent(moves[1]) && tile.adjacent(moves[2])
            &&& moves[0] != moves[1] && moves[0] != moves[2] && moves[1] != moves[2]
        }),
{
    let ok = enterable(board, index, you, avoid_heads, planned);
    let nb = neighbors_where(tile, ok);
    let moves = ordered_moves(tile, board, index, you, planned, avoid_heads, degree_order, evasive);
    lemma_neighbors_where(tile, ok);
    lemma_ordered_moves(tile, board, index, you, planned, avoid_heads, degree_order, evasive);
    assert(moves.contains(moves[0]) && moves.contains(moves[1]) && moves.contains(moves[2]));
    assert(nb.len() == 3);
    assert(nb.contains(nb[0]) && nb.contains(nb[1]) && nb.contains(nb[2]));
    assert(moves.contains(nb[0]) && moves.contains(nb[1]) && moves.contains(nb[2]));
    let a = choose|a: int| 0 <= a < 3 && moves[a] == nb[0];
    let b = choose|b: int| 0 <= b < 3 && moves[b] == nb[1];
    let d = choose|d: int| 0 <= d < 3 && moves[d] == nb[2];
    assert(nb[0] != nb[1] && nb[0] != nb[2] && nb[1] != nb[2]);
}

/// Of three different tiles next to `tile`, the one reached by the sum
/// of the three unit moves is one of the three, and the other two are
/// the side moves.
proof fn lemma_three_moves(tile: Coord, moves: Seq<Coord>)
    requires
        moves.len() == 3,
        tile.adjacent(moves[0]) && tile.adjacent(moves[1]) && tile.adjacent(moves[2]),
        moves[0] != moves[1] && moves[0] != moves[2] && moves[1] != moves[2],
    ensures
        ({
            let forward = tile.shifted(
                moves[0].x + moves[1].x + moves[2].x - 3 * tile.x,
                moves[0].y + moves[1].y + moves[2].y - 3 * tile.y,
            );
            &&& forward is Some
            &&& moves.contains(forward.unwrap())
            &&& side_moves(moves, forward).len() == 2
        }),
{
    lemma_unit_distance(tile, moves[0]);
    lemma_unit_distance(tile, moves[1]);
    lemma_unit_distance(tile, moves[2]);
    let fx = moves[0].x + moves[1].x + moves[2].x - 3 * tile.x;
    let fy = moves[0].y + moves[1].y + moves[2].y - 3 * tile.y;
    let forward = tile.shifted(fx, fy);
    assert(forward == Some(moves[0]) || forward == Some(moves[1]) || forward == Some(moves[2]));
    let m2 = moves.drop_last();
    let m1 = m2.drop_last();
    let m0 = m1.drop_last();
    assert(m2.len() == 2 && m1.len() == 1 && m0.len() == 0);
    assert(m2.last() == moves[1] && m1.last() == moves[0] && moves.last() == moves[2]);
    assert(side_moves(m0, forward).len() == 0);
    assert(side_moves(m1, forward).len() == (if forward == Some(moves[0]) { 0int } else { 1int }));
    assert(side_moves(m2, forward).len() == side_moves(m1, forward).len() + (if forward == Some(
        moves[1],
    ) { 0int } else { 1int }));
    assert(side_moves(moves, forward).len() == side_moves(m2, forward).len() + (if forward
        == Some(moves[2]) { 0int } else { 1int }));
}

/// With no threshold to meet, both branches qualify.
proof fn lemma_favourable_full(
    t0: Coord,
    t1: Coord,
    board: &Board,
    index: Map<Coord, Flags>,
    you: &Battlesnake,
    planned: Seq<Coord>,
    avoid_heads: bool,
    degree_order: bool,
    evasive: bool,
)
    ensures
        favourable(
            t0,
            t1,
            board,
            index,
            you,
            planned,
            Ratio { num: 0, den: 1 },
            0,
            avoid_heads,
            degree_order,
            evasive,
        ).len() == 2,
{
    let zero = Ratio { num: 0, den: 1 };
    let e0 = branch_entry(t0, board, index, you, planned, zero, 0, avoid_heads, degree_order, evasive);
    let e1 = branch_entry(t1, board, index, you, planned, zero, 0, avoid_heads, degree_order, evasive);
    assert(qualifies(t0, board, index, you, planned, zero, 0));
    assert(qualifies(t1, board, index, you, planned, zero, 0));
    lemma_sorted(e0 + e1);
}


/// The sort of the moves follows `compare_moves`: among equally
/// connected tiles, one ranks no higher than another exactly where it
/// does not compare greater.
pub proof fn lemma_rank_follows_compare(
    a: Coord,
    b: Coord,
    conn: u32,
    board: &Board,
    index: Map<Coord, Flags>,
    you: &Battlesnake,
    planned: Seq<Coord>,
    avoid_heads: bool,
    degree_order: bool,
    evasive: bool,
)
    ensures
        ranked_of(a, conn, board, index, you, planned, avoid_heads, degree_order, evasive).le_spec(
            ranked_of(b, conn, board, index, you, planned, avoid_heads, degree_order, evasive),
        ) <==> rank_order(
            move_rank(a, board, index, you, planned, avoid_heads, degree_order, evasive),
            move_rank(b, board, index, you, planned, avoid_heads, degree_order, evasive),
        ) != Order::Greater,
{
    lemma_dist2_bound(a, center(board));
    lemma_dist2_bound(b, center(board));
    lemma_neighbors_where(a, enterable(board, index, you, avoid_heads, planned));
    lemma_neighbors_where(b, enterable(board, index, you, avoid_heads, planned));
    if board.food@.len() > 0 {
        lemma_nearest2(a, board.food@);
        lemma_nearest2(b, board.food@);
        let i = choose|i: int|
            0 <= i < board.food@.len() && nearest2(a, board.food@) == a.dist2(
                #[trigger] board.food@[i],
            );
        let j = choose|j: int|
            0 <= j < board.food@.len() && nearest2(b, board.food@) == b.dist2(
                #[trigger] board.food@[j],
            );
        lemma_dist2_bound(a, board.food@[i]);
        lemma_dist2_bound(b, board.food@[j]);
    }
}


proof fn lemma_without_len(s: Seq<Ranked>, t: Seq<Ranked>)
    ensures
        without(s, t).len() <= s.len(),
    decreases s.len(),
{
    if s.len() > 0 {
        lemma_without_len(s.drop_last(), t);
    }
}

/// No more than four candidates are ranked.
pub proof fn lemma_candidates_len(
    tile: Coord,
    board: &Board,
    index: Map<Coord, Flags>,
    you: &Battlesnake,
    threshold: Ratio,
    degree_threshold: u8,
    degree_order: bool,
    evasive: bool,
    avoid_heads: bool,
    planned: Seq<Coord>,
)
    ensures
        ranked_candidates(
            tile,
            board,
            index,
            you,
            threshold,
            degree_threshold,
            degree_order,
            evasive,
            avoid_heads,
            planned,
        ).len() <= 4,
{
    let ok = enterable(board, index, you, avoid_heads, planned);
    let moves = ordered_moves(tile, board, index, you, planned, avoid_heads, degree_order, evasive);
    lemma_neighbors_where(tile, ok);
    lemma_ordered_moves(tile, board, index, you, planned, avoid_heads, degree_order, evasive);
    if moves.len() == 2 {
        lemma_favourable_len(
            moves[0],
            moves[1],
            board,
            index,
            you,
            planned,
            threshold,
            degree_threshold,
            avoid_heads,
            degree_order,
            evasive,
        );
    } else if moves.len() == 3 {
        let fx = moves[0].x + moves[1].x + moves[2].x - 3 * tile.x;
        let fy = moves[0].y + moves[1].y + moves[2].y - 3 * tile.y;
        let forward = tile.shifted(fx, fy);
        let sides = side_moves(moves, forward);
        if sides.len() == 2 && forward is Some {
            let first = favourable(
                forward.unwrap(),
                sides[0],
                board,
                index,
                you,
                planned,
                threshold,
                degree_threshold,
                avoid_heads,
                degree_order,
                evasive,
            );
            let second = favourable(
                forward.unwrap(),
                sides[1],
                board,
                index,
                you,
                planned,
                threshold,
                degree_threshold,
                avoid_heads,
                degree_order,
                evasive,
            );
            lemma_favourable_len(
                forward.unwrap(),
                sides[0],
                board,
                index,
                you,
                planned,
                threshold,
                degree_threshold,
                avoid_heads,
                degree_order,
                evasive,
            );
            lemma_favourable_len(
                forward.unwrap(),
                sides[1],
                board,
                index,
                you,
                planned,
                threshold,
                degree_threshold,
                avoid_heads,
                degree_order,
                evasive,
            );
            lemma_without_len(second, first);
            lemma_sorted(first + without(second, first));
        }
    }
}

proof fn lemma_favourable_len(
    t0: Coord,
    t1: Coord,
    board: &Board,
    index: Map<Coord, Flags>,
    you: &Battlesnake,
    planned: Seq<Coord>,
    threshold: Ratio,
    degree_threshold: u8,
    avoid_heads: bool,
    degree_order: bool,
    evasive: bool,
)
    ensures
        favourable(
            t0,
            t1,
            board,
            index,
            you,
            planned,
            threshold,
            degree_threshold,
            avoid_heads,
            degree_order,
            evasive,
        ).len() <= 2,
{
    let e0 = branch_entry(
        t0,
        board,
        index,
        you,
        planned,
        threshold,
        degree_threshold,
        avoid_heads,
        degree_order,
        evasive,
    );
    let e1 = branch_entry(
        t1,
        board,
        index,
        you,
        planned,
        threshold,
        degree_threshold,
        avoid_heads,
        degree_order,
        evasive,
    );
    lemma_sorted(e0 + e1);
}


/// A sequence as long as one without repeats, and with the same
/// members, has no repeats either.
proof fn lemma_distinct_by_members(a: Seq<Coord>, b: Seq<Coord>)
    requires
        a.no_duplicates(),
        a.len() == b.len(),
        forall|c: Coord| a.contains(c) <==> b.contains(c),
    ensures
        b.no_duplicates(),
{
    assert(a.to_set() =~= b.to_set());
    a.unique_seq_to_set();
    b.lemma_no_dup_set_cardinality();
}

/// Sorting keeps the tiles.
proof fn lemma_tiles_sorted(x: Seq<Ranked>)
    ensures
        tiles_of(sorted(x)).len() == tiles_of(x).len(),
        forall|c: Coord| tiles_of(sorted(x)).contains(c) <==> tiles_of(x).contains(c),
{
    lemma_sorted(x);
    let a = tiles_of(x);
    let b = tiles_of(sorted(x));
    assert forall|c: Coord| b.contains(c) <==> a.contains(c) by {
        if b.contains(c) {
            let i = choose|i: int| 0 <= i < b.len() && b[i] == c;
            assert(sorted(x).contains(sorted(x)[i]));
            let j = choose|j: int| 0 <= j < x.len() && x[j] == sorted(x)[i];
            assert(a[j] == c);
        }
        if a.contains(c) {
            let j = choose|j: int| 0 <= j < a.len() && a[j] == c;
            assert(x.contains(x[j]));
            assert(sorted(x).contains(x[j]));
            let i = choose|i: int| 0 <= i < sorted(x).len() && sorted(x)[i] == x[j];
            assert(b[i] == c);
        }
    }
}

/// Sorting entries with different tiles gives different tiles.
proof fn lemma_sorted_distinct(x: Seq<Ranked>)
    requires
        tiles_of(x).no_duplicates(),
    ensures
        tiles_of(sorted(x)).no_duplicates(),
{
    lemma_tiles_sorted(x);
    lemma_distinct_by_members(tiles_of(x), tiles_of(sorted(x)));
}

/// What `without` keeps: the elements of the first that the second does
/// not hold, none twice where the first has none twice.
proof fn lemma_without_members(s: Seq<Ranked>, t: Seq<Ranked>)
    ensures
        forall|y: Ranked| #[trigger] without(s, t).contains(y) ==> s.contains(y) && !t.contains(y),
        s.no_duplicates() ==> without(s, t).no_duplicates(),
    decreases s.len(),
{
    if s.len() > 0 {
        let pre = s.drop_last();
        lemma_without_members(pre, t);
        let w = without(s, t);
        let wp = without(pre, t);
        assert forall|y: Ranked| #[trigger] w.contains(y) implies s.contains(y) && !t.contains(
            y,
        ) by {
            let i = choose|i: int| 0 <= i < w.len() && w[i] == y;
            if t.contains(s.last()) || i < wp.len() {
                assert(wp[i] == y);
                assert(wp.contains(y));
                let j = choose|j: int| 0 <= j < pre.len() && pre[j] == y;
                assert(s[j] == y);
            } else {
                assert(s[s.len() - 1] == y);
            }
        }
        if s.no_duplicates() {
            assert(pre.no_duplicates());
            if !t.contains(s.last()) {
                assert forall|i: int, j: int|
                    0 <= i < w.len() && 0 <= j < w.len() && i != j implies w[i] != w[j] by {
                    if i < wp.len() && j < wp.len() {
                    } else {
                        let lo = if i < j {
                            i
                        } else {
                            j
                        };
                        assert(wp[lo] == w[lo]);
                        assert(wp.contains(w[lo]));
                        let n = choose|n: int| 0 <= n < pre.len() && pre[n] == w[lo];
                        assert(s[n] == w[lo]);
                    }
                }
            }
        }
    }
}

/// The side moves are moves other than the forward tile, none twice
/// where no move occurs twice.
proof fn lemma_side_moves_distinct(moves: Seq<Coord>, forward: Option<Coord>)
    requires
        moves.no_duplicates(),
    ensures
        side_moves(moves, forward).no_duplicates(),
        forall|c: Coord| #[trigger]
            side_moves(moves, forward).contains(c) ==> moves.contains(c) && Some(c) != forward,
    decreases moves.len(),
{
    if moves.len() > 0 {
        let pre = moves.drop_last();
        assert(pre.no_duplicates());
        lemma_side_moves_distinct(pre, forward);
        let w = side_moves(moves, forward);
        let wp = side_moves(pre, forward);
        assert forall|c: Coord| #[trigger] w.contains(c) implies moves.contains(c) && Some(c)
            != forward by {
            let i = choose|i: int| 0 <= i < w.len() && w[i] == c;
            if Some(moves.last()) == forward || i < wp.len() {
                assert(wp[i] == c);
                assert(wp.contains(c));
                let j = choose|j: int| 0 <= j < pre.len() && pre[j] == c;
                assert(moves[j] == c);
            } else {
                assert(moves[moves.len() - 1] == c);
            }
        }
        if Some(moves.last()) != forward {
            assert forall|i: int, j: int|
                0 <= i < w.len() && 0 <= j < w.len() && i != j implies w[i] != w[j] by {
                if i < wp.len() && j < wp.len() {
                } else {
                    let lo = if i < j {
                        i
                    } else {
                        j
                    };
                    assert(wp[lo] == w[lo]);
                    assert(wp.contains(w[lo]));
                    let n = choose|n: int| 0 <= n < pre.len() && pre[n] == w[lo];
                    assert(moves[n] == w[lo]);
                }
            }
        }
    }
}

/// The entries of two branches: each branch that qualifies, with its
/// connectivity and rank, and nothing else; no tile twice where the
/// branches differ.
proof fn lemma_favourable_members(
    t0: Coord,
    t1: Coord,
    board: &Board,
    index: Map<Coord, Flags>,
    you: &Battlesnake,
    planned: Seq<Coord>,
    threshold: Ratio,
    degree_threshold: u8,
    avoid_heads: bool,
    degree_order: bool,
    evasive: bool,
)
    ensures
        forall|y: Ranked| #[trigger]
            favourable(
                t0,
                t1,
                board,
                index,
                you,
                planned,
                threshold,
                degree_threshold,
                avoid_heads,
                degree_order,
                evasive,
            ).contains(y) <==> branch_entry(
                t0,
                board,
                index,
                you,
                planned,
                threshold,
                degree_threshold,
                avoid_heads,
                degree_order,
                evasive,
            ).contains(y) || branch_entry(
                t1,
                board,
                index,
                you,
                planned,
                threshold,
                degree_threshold,
                avoid_heads,
                degree_order,
                evasive,
            ).contains(y),
        t0 != t1 ==> tiles_of(
            favourable(
                t0,
                t1,
                board,
                index,
                you,
                planned,
                threshold,
                degree_threshold,
                avoid_heads,
                degree_order,
                evasive,
            ),
        ).no_duplicates(),
{
    let e0 = branch_entry(
        t0,
        board,
        index,
        you,
        planned,
        threshold,
        degree_threshold,
        avoid_heads,
        degree_order,
        evasive,
    );
    let e1 = branch_entry(
        t1,
        board,
        index,
        you,
        planned,
        threshold,
        degree_threshold,
        avoid_heads,
        degree_order,
        evasive,
    );
    let both = e0 + e1;
    lemma_sorted(both);
    assert forall|y: Ranked| #[trigger] both.contains(y) <==> e0.contains(y) || e1.contains(y) by {
        if both.contains(y) {
            let i = choose|i: int| 0 <= i < both.len() && both[i] == y;
            if i < e0.len() {
                assert(e0[i] == y);
            } else {
                assert(e1[i - e0.len()] == y);
            }
        }
        if e0.contains(y) {
            let i = choose|i: int| 0 <= i < e0.len() && e0[i] == y;
            assert(both[i] == y);
        }
        if e1.contains(y) {
            let i = choose|i: int| 0 <= i < e1.len() && e1[i] == y;
            assert(both[e0.len() + i] == y);
        }
    }
    if t0 != t1 {
        assert forall|i: int, j: int|
            0 <= i < both.len() && 0 <= j < both.len() && i != j implies tiles_of(both)[i]
            != tiles_of(both)[j] by {
            assert(both[i].tile == t0 || both[i].tile == t1);
            assert(both[j].tile == t0 || both[j].tile == t1);
            if i < e0.len() {
                assert(both[i] == e0[i]);
                assert(both[j] == e1[j - e0.len()]);
            } else {
                assert(both[i] == e1[i - e0.len()]);
                assert(both[j] == e0[j]);
            }
        }
        lemma_sorted_distinct(both);
    }
}

/// No tile is ranked twice.
pub proof fn lemma_candidates_distinct(
    tile: Coord,
    board: &Board,
    index: Map<Coord, Flags>,
    you: &Battlesnake,
    threshold: Ratio,
    degree_threshold: u8,
    degree_order: bool,
    evasive: bool,
    avoid_heads: bool,
    planned: Seq<Coord>,
)
    ensures
        ranked_candidates(
            tile,
            board,
            index,
            you,
            threshold,
            degree_threshold,
            degree_order,
            evasive,
            avoid_heads,
            planned,
        ).no_duplicates(),
{
    let ok = enterable(board, index, you, avoid_heads, planned);
    let nb = neighbors_where(tile, ok);
    let moves = ordered_moves(tile, board, index, you, planned, avoid_heads, degree_order, evasive);
    lemma_neighbors_where(tile, ok);
    lemma_ordered_moves(tile, board, index, you, planned, avoid_heads, degree_order, evasive);
    lemma_distinct_by_members(nb, moves);
    if moves.len() == 2 {
        lemma_favourable_members(
            moves[0],
            moves[1],
            board,
            index,
            you,
            planned,
            threshold,
            degree_threshold,
            avoid_heads,
            degree_order,
            evasive,
        );
    } else if moves.len() == 3 {
        let fx = moves[0].x + moves[1].x + moves[2].x - 3 * tile.x;
        let fy = moves[0].y + moves[1].y + moves[2].y - 3 * tile.y;
        let forward = tile.shifted(fx, fy);
        let sides = side_moves(moves, forward);
        if sides.len() == 2 && forward is Some {
            lemma_side_moves_distinct(moves, forward);
            assert(sides.contains(sides[0]) && sides.contains(sides[1]));
            lemma_merged_distinct(
                forward.unwrap(),
                sides[0],
                sides[1],
                board,
                index,
                you,
                planned,
                threshold,
                degree_threshold,
                avoid_heads,
                degree_order,
                evasive,
            );
            assert(sides.contains(sides[0]) && sides.contains(sides[1]));
        }
    }
}

/// The ranking of a forward branch with each of two side branches,
/// merged, holds no tile twice.
proof fn lemma_merged_distinct(
    f: Coord,
    s0: Coord,
    s1: Coord,
    board: &Board,
    index: Map<Coord, Flags>,
    you: &Battlesnake,
    planned: Seq<Coord>,
    threshold: Ratio,
    degree_threshold: u8,
    avoid_heads: bool,
    degree_order: bool,
    evasive: bool,
)
    requires
        f != s0,
        f != s1,
        s0 != s1,
    ensures
        tiles_of(
            sorted(
                favourable(
                    f,
                    s0,
                    board,
                    index,
                    you,
                    planned,
                    threshold,
                    degree_threshold,
                    avoid_heads,
                    degree_order,
                    evasive,
                ) + without(
                    favourable(
                        f,
                        s1,
                        board,
                        index,
                        you,
                        planned,
                        threshold,
                        degree_threshold,
                        avoid_heads,
                        degree_order,
                        evasive,
                    ),
                    favourable(
                        f,
                        s0,
                        board,
                        index,
                        you,
                        planned,
                        threshold,
                        degree_threshold,
                        avoid_heads,
                        degree_order,
                        evasive,
                    ),
                ),
            ),
        ).no_duplicates(),
{
    let first = favourable(
        f,
        s0,
        board,
        index,
        you,
        planned,
        threshold,
        degree_threshold,
        avoid_heads,
        degree_order,
        evasive,
    );
    let second = favourable(
        f,
        s1,
        board,
        index,
        you,
        planned,
        threshold,
        degree_threshold,
        avoid_heads,
        degree_order,
        evasive,
    );
    let ef = branch_entry(
        f,
        board,
        index,
        you,
        planned,
        threshold,
        degree_threshold,
        avoid_heads,
        degree_order,
        evasive,
    );
    let rest = without(second, first);
    let merged = first + rest;
    lemma_favourable_members(
        f,
        s0,
        board,
        index,
        you,
        planned,
        threshold,
        degree_threshold,
        avoid_heads,
        degree_order,
        evasive,
    );
    lemma_favourable_members(
        f,
        s1,
        board,
        index,
        you,
        planned,
        threshold,
        degree_threshold,
        avoid_heads,
        degree_order,
        evasive,
    );
    lemma_favourable_tiles(
        f,
        s0,
        board,
        index,
        you,
        planned,
        threshold,
        degree_threshold,
        avoid_heads,
        degree_order,
        evasive,
    );
    lemma_favourable_tiles(
        f,
        s1,
        board,
        index,
        you,
        planned,
        threshold,
        degree_threshold,
        avoid_heads,
        degree_order,
        evasive,
    );
    lemma_without_members(second, first);
    assert forall|i: int| 0 <= i < rest.len() implies (#[trigger] rest[i]).tile == s1 by {
        let y = rest[i];
        assert(rest.contains(y));
        assert(second.contains(y) && !first.contains(y));
        if y.tile != s1 {
            assert(ef.contains(y) || branch_entry(
                s1,
                board,
                index,
                you,
                planned,
                threshold,
                degree_threshold,
                avoid_heads,
                degree_order,
                evasive,
            ).contains(y));
            assert(ef.contains(y));
            assert(first.contains(y));
        }
    }
    assert(second.no_duplicates()) by {
        assert forall|i: int, j: int|
            0 <= i < second.len() && 0 <= j < second.len() && i != j implies second[i]
            != second[j] by {
            assert(tiles_of(second)[i] != tiles_of(second)[j]);
        }
    }
    assert forall|i: int, j: int|
        0 <= i < merged.len() && 0 <= j < merged.len() && i != j implies tiles_of(merged)[i]
        != tiles_of(merged)[j] by {
        if i < first.len() && j < first.len() {
            assert(tiles_of(first)[i] != tiles_of(first)[j]);
        } else if i >= first.len() && j >= first.len() {
            assert(rest[i - first.len()] != rest[j - first.len()]);
            assert(rest[i - first.len()].tile == s1 && rest[j - first.len()].tile == s1);
            assert(rest.contains(rest[i - first.len()]) && rest.contains(rest[j - first.len()]));
            let bs = branch_entry(
                s1,
                board,
                index,
                you,
                planned,
                threshold,
                degree_threshold,
                avoid_heads,
                degree_order,
                evasive,
            );
            assert(bs.contains(rest[i - first.len()]) && bs.contains(rest[j - first.len()]));
        } else {
            let a = if i < first.len() {
                i
            } else {
                j
            };
            let b = if i < first.len() {
                j
            } else {
                i
            };
            assert(first.contains(first[a]));
            assert(merged[a] == first[a] && merged[b] == rest[b - first.len()]);
        }
    }
    lemma_sorted_distinct(merged);
}

} // verus!
