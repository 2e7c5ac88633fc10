//! The parent map of a search and the path that backtracking reads from
//! it.

use crate::index::{key_of, tile_key};
use crate::reach::{coords_of, lemma_coords_of};
use crate::types::Coord;
use std::collections::HashMap;
use vstd::prelude::*;
use vstd::set_lib::lemma_subset_equality;

verus! {

broadcast use vstd::std_specs::hash::group_hash_axioms;

/// The tiles met by going from `tile` to its parent, and on, for at
/// most `fuel` steps; the first tile without a parent is left out.
pub open spec fn ascent(tree: Map<u32, Coord>, tile: Coord, fuel: nat) -> Seq<Coord>
    decreases fuel,
{
    if fuel == 0 || !tree.contains_key(key_of(tile)) {
        seq![]
    } else {
        seq![tile] + ascent(tree, tree[key_of(tile)], (fuel - 1) as nat)
    }
}

/// The path to `tile` that the parent map holds: from the child of the
/// root down to `tile`. No path is longer than the map has entries.
pub open spec fn trail(tree: Map<u32, Coord>, tile: Coord) -> Seq<Coord> {
    ascent(tree, tile, tree.dom().len()).reverse()
}

/// The parent map of a search from `root`: the root has no parent, each
/// parent is next to its child, and is the root or a tile of lower rank
/// that has a parent itself.
pub open spec fn rooted(tree: Map<u32, Coord>, root: Coord, rank: spec_fn(Coord) -> int) -> bool {
    &&& tree.dom().finite()
    &&& !tree.contains_key(key_of(root))
    &&& forall|c: Coord| #[trigger]
        tree.contains_key(key_of(c)) ==> tree[key_of(c)].adjacent(c) && (tree[key_of(c)] == root
            || (tree.contains_key(key_of(tree[key_of(c)])) && rank(tree[key_of(c)]) < rank(c)))
}

/// The tile that follows the ascent: where it stopped.
pub open spec fn ascent_end(tree: Map<u32, Coord>, tile: Coord, fuel: nat) -> Coord
    decreases fuel,
{
    if fuel == 0 || !tree.contains_key(key_of(tile)) {
        tile
    } else {
        ascent_end(tree, tree[key_of(tile)], (fuel - 1) as nat)
    }
}

proof fn lemma_ascent(tree: Map<u32, Coord>, root: Coord, rank: spec_fn(Coord) -> int, tile: Coord, fuel: nat)
    requires
        rooted(tree, root, rank),
    ensures
        ascent(tree, tile, fuel).len() <= fuel,
        ascent(tree, tile, fuel).len() > 0 ==> ascent(tree, tile, fuel)[0] == tile,
        (ascent(tree, tile, fuel).len() > 0) == (fuel > 0 && tree.contains_key(key_of(tile))),
        forall|i: int|
            0 <= i < ascent(tree, tile, fuel).len() ==> tree.contains_key(
                key_of(#[trigger] ascent(tree, tile, fuel)[i]),
            ) && rank(ascent(tree, tile, fuel)[i]) <= rank(tile),
        forall|i: int|
            1 <= i < ascent(tree, tile, fuel).len() ==> (#[trigger] ascent(
                tree,
                tile,
                fuel,
            )[i]).adjacent(ascent(tree, tile, fuel)[i - 1]),
        ascent(tree, tile, fuel).no_duplicates(),
        forall|i: int|
            1 <= i < ascent(tree, tile, fuel).len() ==> #[trigger] ascent(tree, tile, fuel)[i]
                == tree[key_of(ascent(tree, tile, fuel)[i - 1])],
        ascent(tree, tile, fuel).len() > 0 ==> tree[key_of(ascent(tree, tile, fuel).last())]
            == ascent_end(tree, tile, fuel) && ascent_end(tree, tile, fuel).adjacent(
            ascent(tree, tile, fuel).last(),
        ),
        ascent(tree, tile, fuel).len() < fuel ==> !tree.contains_key(
            key_of(ascent_end(tree, tile, fuel)),
        ),
        ascent(tree, tile, fuel).len() > 0 && ascent_end(tree, tile, fuel) != root ==> rank(
            ascent_end(tree, tile, fuel),
        ) < rank(ascent(tree, tile, fuel).last()),
        ascent_end(tree, tile, fuel) == tile || ascent_end(tree, tile, fuel) == root
            || tree.contains_key(key_of(ascent_end(tree, tile, fuel))),
        forall|i: int|
            0 <= i < ascent(tree, tile, fuel).len() && ascent(tree, tile, fuel).len() > 0 ==> rank(
                ascent(tree, tile, fuel).last(),
            ) <= rank(#[trigger] ascent(tree, tile, fuel)[i]),
    decreases fuel,
{
    let a = ascent(tree, tile, fuel);
    if fuel == 0 || !tree.contains_key(key_of(tile)) {
    } else {
        let p = tree[key_of(tile)];
        let f = (fuel - 1) as nat;
        lemma_ascent(tree, root, rank, p, f);
        let b = ascent(tree, p, f);
        assert(a == seq![tile] + b);
        assert(a[0] == tile);
        assert forall|i: int| 1 <= i < a.len() implies a[i] == b[i - 1] by {}
        if b.len() > 0 {
            assert(a.last() == b.last());
            assert(p != root);
        } else {
            assert(a.last() == tile);
        }
        assert forall|i: int| 0 <= i < a.len() implies tree.contains_key(key_of(#[trigger] a[i]))
            && rank(a[i]) <= rank(tile) by {
            if i > 0 {
                assert(a[i] == b[i - 1]);
            }
        }
        assert forall|i: int| 1 <= i < a.len() implies #[trigger] a[i] == tree[key_of(
            a[i - 1],
        )] by {
            if i == 1 {
                assert(a[1] == b[0]);
            } else {
                assert(a[i] == b[i - 1] && a[i - 1] == b[i - 2]);
            }
        }
        assert forall|i: int| 1 <= i < a.len() implies (#[trigger] a[i]).adjacent(a[i - 1]) by {
            if i == 1 {
                assert(a[1] == b[0]);
            } else {
                assert(a[i] == b[i - 1] && a[i - 1] == b[i - 2]);
            }
        }
        assert forall|i: int, j: int| 0 <= i < a.len() && 0 <= j < a.len() && i != j implies a[i]
            != a[j] by {
            if i > 0 && j > 0 {
                assert(a[i] == b[i - 1] && a[j] == b[j - 1]);
            } else if i == 0 {
                assert(a[j] == b[j - 1]);
                assert(rank(b[j - 1]) <= rank(p));
            } else {
                assert(a[i] == b[i - 1]);
                assert(rank(b[i - 1]) <= rank(p));
            }
        }
        assert forall|i: int| 0 <= i < a.len() && a.len() > 0 implies rank(a.last()) <= rank(
            #[trigger] a[i],
        ) by {
            if b.len() > 0 {
                if i > 0 {
                    assert(a[i] == b[i - 1]);
                } else {
                    assert(rank(b.last()) <= rank(b[0]));
                }
            }
        }
    }
}

/// In the parent map of a search the path to a tile runs over tiles
/// that are next to each other, starts next to the root and ends at the
/// tile; it is empty exactly where the tile has no parent.
pub proof fn lemma_trail(tree: Map<u32, Coord>, root: Coord, rank: spec_fn(Coord) -> int, tile: Coord)
    requires
        rooted(tree, root, rank),
    ensures
        forall|i: int|
            1 <= i < trail(tree, tile).len() ==> trail(tree, tile)[i - 1].adjacent(
                #[trigger] trail(tree, tile)[i],
            ),
        trail(tree, tile).len() > 0 ==> root.adjacent(trail(tree, tile)[0]) && trail(
            tree,
            tile,
        ).last() == tile,
        (trail(tree, tile).len() > 0) == tree.contains_key(key_of(tile)),
        forall|i: int|
            0 <= i < trail(tree, tile).len() ==> tree.contains_key(
                key_of(#[trigger] trail(tree, tile)[i]),
            ),
        forall|i: int|
            1 <= i < trail(tree, tile).len() ==> trail(tree, tile)[i - 1] == tree[key_of(
                #[trigger] trail(tree, tile)[i],
            )],
        trail(tree, tile).len() > 0 ==> tree[key_of(trail(tree, tile)[0])] == root,
{
    let fuel = tree.dom().len();
    let a = ascent(tree, tile, fuel);
    let t = trail(tree, tile);
    lemma_ascent(tree, root, rank, tile, fuel);
    assert(t.len() == a.len());
    assert forall|i: int| 0 <= i < t.len() implies t[i] == a[a.len() - 1 - i] by {}
    if tree.contains_key(key_of(tile)) {
        assert(fuel > 0) by {
            if fuel == 0 {
                assert(tree.dom() =~= Set::<u32>::empty());
            }
        }
    }
    if a.len() > 0 {
        let e = ascent_end(tree, tile, fuel);
        if e != root {
            // the ascent used all its fuel: it holds every tile of the map
            assert(a.len() == fuel);
            lemma_coords_of(tree.dom());
            a.unique_seq_to_set();
            assert forall|c: Coord| a.to_set().contains(c) implies coords_of(tree.dom()).contains(
                c,
            ) by {
                let i = choose|i: int| 0 <= i < a.len() && a[i] == c;
                assert(tree.contains_key(key_of(a[i])));
            }
            lemma_subset_equality(a.to_set(), coords_of(tree.dom()));
            assert(tree.contains_key(key_of(e)));
            assert(coords_of(tree.dom()).contains(e));
            assert(a.to_set().contains(e));
            let i = choose|i: int| 0 <= i < a.len() && a[i] == e;
            assert(rank(a.last()) <= rank(a[i]));
            assert(false);
        }
        assert(t[0] == a[a.len() - 1]);
        assert(t.last() == a[0]);
    }
    assert forall|i: int| 1 <= i < t.len() implies t[i - 1].adjacent(#[trigger] t[i]) by {
        let j = a.len() - i;
        assert(t[i] == a[j - 1] && t[i - 1] == a[j]);
        assert(a[j].adjacent(a[j - 1]));
    }
    assert forall|i: int| 0 <= i < t.len() implies tree.contains_key(key_of(#[trigger] t[i])) by {
        assert(t[i] == a[a.len() - 1 - i]);
    }
    assert forall|i: int| 1 <= i < t.len() implies t[i - 1] == tree[key_of(#[trigger] t[i])] by {
        let j = a.len() - i;
        assert(t[i] == a[j - 1] && t[i - 1] == a[j]);
        assert(a[j] == tree[key_of(a[j - 1])]);
    }
}

/// `chain` lists the tiles from `tile` up to the child of `root`: each
/// has a parent, which is the next of the chain, and the last one's
/// parent is `root`, which has none.
pub open spec fn is_chain(tree: Map<u32, Coord>, chain: Seq<Coord>, tile: Coord, root: Coord) -> bool {
    &&& chain.len() > 0 ==> chain[0] == tile
    &&& forall|i: int| 0 <= i < chain.len() ==> tree.contains_key(key_of(#[trigger] chain[i]))
    &&& forall|i: int| 1 <= i < chain.len() ==> #[trigger] chain[i] == tree[key_of(chain[i - 1])]
    &&& root == (if chain.len() == 0 {
        tile
    } else {
        tree[key_of(chain.last())]
    })
    &&& !tree.contains_key(key_of(root))
}

proof fn lemma_chain_shift(
    tree: Map<u32, Coord>,
    chain: Seq<Coord>,
    tile: Coord,
    root: Coord,
    i: int,
    j: int,
    m: int,
)
    requires
        is_chain(tree, chain, tile, root),
        0 <= i < j,
        0 <= m,
        j + m < chain.len(),
        chain[i] == chain[j],
    ensures
        chain[i + m] == chain[j + m],
    decreases m,
{
    if m > 0 {
        lemma_chain_shift(tree, chain, tile, root, i, j, m - 1);
        assert(chain[i + m] == tree[key_of(chain[i + m - 1])]);
        assert(chain[j + m] == tree[key_of(chain[j + m - 1])]);
    }
}

proof fn lemma_chain_distinct(tree: Map<u32, Coord>, chain: Seq<Coord>, tile: Coord, root: Coord)
    requires
        is_chain(tree, chain, tile, root),
    ensures
        chain.no_duplicates(),
{
    assert forall|i: int, j: int| 0 <= i < chain.len() && 0 <= j < chain.len() && i != j implies chain[i]
        != chain[j] by {
        let lo = if i < j {
            i
        } else {
            j
        };
        let hi = if i < j {
            j
        } else {
            i
        };
        if chain[lo] == chain[hi] {
            let m = chain.len() - 1 - hi;
            lemma_chain_shift(tree, chain, tile, root, lo, hi, m);
            assert(chain[lo + m] == chain.last());
            assert(chain[lo + m + 1] == tree[key_of(chain[lo + m])]);
            assert(tree.contains_key(key_of(chain[lo + m + 1])));
            assert(false);
        }
    }
}

proof fn lemma_ascent_is_chain(
    tree: Map<u32, Coord>,
    chain: Seq<Coord>,
    tile: Coord,
    root: Coord,
    fuel: nat,
)
    requires
        is_chain(tree, chain, tile, root),
        fuel >= chain.len(),
    ensures
        ascent(tree, tile, fuel) == chain,
    decreases chain.len(),
{
    if chain.len() == 0 {
        assert(ascent(tree, tile, fuel) =~= chain);
    } else {
        let next = tree[key_of(tile)];
        let rest = chain.subrange(1, chain.len() as int);
        assert(tree.contains_key(key_of(chain[0])));
        assert forall|i: int| 0 <= i < rest.len() implies tree.contains_key(
            key_of(#[trigger] rest[i]),
        ) by {
            assert(rest[i] == chain[i + 1]);
        }
        assert forall|i: int| 1 <= i < rest.len() implies #[trigger] rest[i] == tree[key_of(
            rest[i - 1],
        )] by {
            assert(rest[i] == chain[i + 1] && rest[i - 1] == chain[i]);
        }
        if rest.len() > 0 {
            assert(rest[0] == chain[1]);
            assert(rest.last() == chain.last());
        }
        lemma_ascent_is_chain(tree, rest, next, root, (fuel - 1) as nat);
        assert(ascent(tree, tile, fuel) =~= chain);
    }
}

/// Where following the parents from `tile` comes, over the tiles of
/// `chain`, to a root without a parent, backtracking gives the chain
/// turned round: as many tiles as steps, from the child of the root to
/// `tile`, and never the root.
pub proof fn lemma_backtrack_chain(
    tree: Map<u32, Coord>,
    chain: Seq<Coord>,
    tile: Coord,
    root: Coord,
)
    requires
        tree.dom().finite(),
        is_chain(tree, chain, tile, root),
    ensures
        trail(tree, tile) == chain.reverse(),
        trail(tree, tile).len() == chain.len(),
        !trail(tree, tile).contains(root),
        trail(tree, tile).len() > 0 ==> trail(tree, tile).last() == tile && tree[key_of(
            trail(tree, tile)[0],
        )] == root,
        forall|i: int|
            1 <= i < trail(tree, tile).len() ==> trail(tree, tile)[i - 1] == tree[key_of(
                #[trigger] trail(tree, tile)[i],
            )],
{
    lemma_chain_distinct(tree, chain, tile, root);
    lemma_coords_of(tree.dom());
    chain.unique_seq_to_set();
    assert forall|c: Coord| chain.to_set().contains(c) implies coords_of(tree.dom()).contains(
        c,
    ) by {
        let i = choose|i: int| 0 <= i < chain.len() && chain[i] == c;
        assert(tree.contains_key(key_of(chain[i])));
    }
    vstd::set_lib::lemma_len_subset(chain.to_set(), coords_of(tree.dom()));
    lemma_ascent_is_chain(tree, chain, tile, root, tree.dom().len());
    let t = trail(tree, tile);
    assert(t =~= chain.reverse());
    if t.contains(root) {
        let i = choose|i: int| 0 <= i < t.len() && t[i] == root;
        assert(t[i] == chain[chain.len() - 1 - i]);
    }
    assert forall|i: int| 1 <= i < t.len() implies t[i - 1] == tree[key_of(#[trigger] t[i])] by {
        let j = chain.len() - i;
        assert(t[i] == chain[j - 1] && t[i - 1] == chain[j]);
    }
    if t.len() > 0 {
        assert(t[0] == chain[chain.len() - 1]);
        assert(t[t.len() - 1] == chain[0]);
    }
}

/// A path meets no tile twice.
pub proof fn lemma_trail_no_duplicates(
    tree: Map<u32, Coord>,
    root: Coord,
    rank: spec_fn(Coord) -> int,
    tile: Coord,
)
    requires
        rooted(tree, root, rank),
    ensures
        trail(tree, tile).no_duplicates(),
{
    let a = ascent(tree, tile, tree.dom().len());
    lemma_ascent(tree, root, rank, tile, tree.dom().len());
    let t = trail(tree, tile);
    assert forall|i: int, j: int| 0 <= i < t.len() && 0 <= j < t.len() && i != j implies t[i]
        != t[j] by {
        assert(t[i] == a[a.len() - 1 - i] && t[j] == a[a.len() - 1 - j]);
    }
}

pub proof fn lemma_adjacent_symmetric(a: Coord, b: Coord)
    ensures
        a.adjacent(b) == b.adjacent(a),
        a.dist2(b) == b.dist2(a),
{
    let dx = a.x - b.x;
    let dy = a.y - b.y;
    assert(dx * dx == (-dx) * (-dx)) by (nonlinear_arith);
    assert(dy * dy == (-dy) * (-dy)) by (nonlinear_arith);
}

/// The path from the child of the root to `tile`, read from the parent
/// map; empty where `tile` has no parent.
pub fn backtrack(tile: Coord, trace_tree: &HashMap<u32, Coord>) -> (path: Vec<Coord>)
    ensures
        path@ == trail(trace_tree@, tile),
{
    let ghost tree = trace_tree@;
    let ghost fuel0 = tree.dom().len();
    let mut up: Vec<Coord> = Vec::new();
    let mut current_tile = tile;
    let mut fuel: usize = trace_tree.len();
    let mut done = false;
    assert(up@ + ascent(tree, current_tile, fuel as nat) =~= ascent(tree, tile, fuel0));
    while fuel > 0 && !done
        invariant
            tree == trace_tree@,
            up@ + ascent(tree, current_tile, fuel as nat) == ascent(tree, tile, fuel0),
            done ==> !tree.contains_key(key_of(current_tile)),
        decreases fuel + (if done { 0int } else { 1int }),
    {
        let k = tile_key(&current_tile);
        match trace_tree.get(&k) {
            Some(parent) => {
                let ghost before = up@;
                let ghost rest = ascent(tree, *parent, (fuel - 1) as nat);
                up.push(current_tile);
                assert(up@ + rest =~= before + (seq![current_tile] + rest));
                current_tile = *parent;
                fuel = fuel - 1;
            },
            None => {
                done = true;
            },
        }
    }
    assert(up@ =~= ascent(tree, tile, fuel0)) by {
        assert(ascent(tree, current_tile, fuel as nat) =~= Seq::<Coord>::empty());
    }
    let mut path: Vec<Coord> = Vec::new();
    let mut i: usize = up.len();
    while i > 0
        invariant
            0 <= i <= up.len(),
            path@.len() == up.len() - i,
            forall|j: int| 0 <= j < path@.len() ==> path@[j] == up@[up.len() - 1 - j],
        decreases i,
    {
        i = i - 1;
        path.push(up[i]);
    }
    assert(path@ =~= up@.reverse());
    path
}

} // verus!
