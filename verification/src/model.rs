//! The mathematical model of the quadtree arena.
//!
//! A cache holds its nodes in an arena (a sequence of `Node` values); a node
//! names its children by arena indices smaller than its own. These spec
//! functions interpret an arena entry as a square grid of cells, count its
//! live cells, and state Conway's rule; the lemmas here are the facts about
//! that interpretation that the executable code relies on.

use crate::node::MAX_LEVEL;
use crate::node::Node;
use crate::node::NodeContent;
use vstd::arithmetic::power2::lemma2_to64;
use vstd::arithmetic::power2::lemma_pow2_adds;
use vstd::arithmetic::power2::lemma_pow2_pos;
use vstd::arithmetic::power2::lemma_pow2_unfold;
use vstd::arithmetic::power2::pow2;
use vstd::prelude::*;

verus! {

/// The handful of concrete powers of two the proofs keep reaching for.
pub proof fn lemma_small_pow2()
    ensures
        pow2(0) == 1,
        pow2(1) == 2,
        pow2(2) == 4,
        pow2(3) == 8,
        pow2(4) == 16,
{
    lemma2_to64();
}

/// Unfolds one level of the side length: a level-`l` square is two
/// level-`l - 1` squares wide.
pub proof fn lemma_side_unfold(l: nat)
    requires
        l >= 1,
    ensures
        side_of(l) == 2 * side_of((l - 1) as nat),
        side_of((l - 1) as nat) >= 1,
{
    lemma_pow2_unfold(l);
    lemma_pow2_pos((l - 1) as nat);
}

/// Side length of the square a level-`level` node covers.
pub open spec fn side_of(level: nat) -> int {
    pow2(level) as int
}

/// Side length of the square arena entry `i` covers.
pub open spec fn node_side(nodes: Seq<Node>, i: int) -> int {
    side_of(nodes[i].level as nat)
}

/// Well-formedness of one arena entry: a leaf sits at level 0 and counts
/// itself; an inner node names four strictly earlier entries, one level
/// below it, and carries the sum of their populations.
pub open spec fn node_wf(nodes: Seq<Node>, i: int) -> bool {
    &&& 0 <= i < nodes.len()
    &&& nodes[i].level <= MAX_LEVEL
    &&& match nodes[i].content {
        NodeContent::Leaf(alive) => {
            &&& nodes[i].level == 0
            &&& nodes[i].population == (if alive {
                1u64
            } else {
                0u64
            })
        },
        NodeContent::Inner { nw, ne, sw, se } => {
            &&& nodes[i].level >= 1
            &&& nw < i && ne < i && sw < i && se < i
            &&& nodes[nw as int].level + 1 == nodes[i].level
            &&& nodes[ne as int].level + 1 == nodes[i].level
            &&& nodes[sw as int].level + 1 == nodes[i].level
            &&& nodes[se as int].level + 1 == nodes[i].level
            &&& nodes[i].population as int == nodes[nw as int].population as int
                + nodes[ne as int].population as int + nodes[sw as int].population as int
                + nodes[se as int].population as int
        },
    }
}

/// Well-formedness of the whole arena: the two canonical leaves sit at
/// indices 0 and 1, every entry is well formed, every further entry is an
/// inner node, and no two entries have the same content. The last clause is
/// canonicalization: content equality of cached nodes is identity.
pub open spec fn arena_wf(nodes: Seq<Node>) -> bool {
    &&& nodes.len() >= 2
    &&& nodes[0] == (Node { level: 0, population: 0, content: NodeContent::Leaf(false) })
    &&& nodes[1] == (Node { level: 0, population: 1, content: NodeContent::Leaf(true) })
    &&& forall|i: int| 0 <= i < nodes.len() ==> #[trigger] node_wf(nodes, i)
    &&& forall|i: int| 2 <= i < nodes.len() ==> (#[trigger] nodes[i]).content is Inner
    &&& forall|i: int, j: int|
        #![trigger nodes[i], nodes[j]]
        0 <= i < nodes.len() && 0 <= j < nodes.len() && i != j ==> nodes[i].content
            != nodes[j].content
}

/// The cell at local coordinates `(x, y)` of arena entry `i`, with
/// `0 <= x, y < 2^level` counted from the corner of smallest coordinates;
/// anything outside that square is dead.
pub open spec fn node_cell(nodes: Seq<Node>, i: int, x: int, y: int) -> bool
    decreases i,
{
    if 0 <= i < nodes.len() && 0 <= x < node_side(nodes, i) && 0 <= y < node_side(nodes, i) {
        match nodes[i].content {
            NodeContent::Leaf(alive) => alive,
            NodeContent::Inner { nw, ne, sw, se } => {
                if nw < i && ne < i && sw < i && se < i {
                    let h = side_of((nodes[i].level - 1) as nat);
                    if x < h {
                        if y < h {
                            node_cell(nodes, nw as int, x, y)
                        } else {
                            node_cell(nodes, sw as int, x, y - h)
                        }
                    } else {
                        if y < h {
                            node_cell(nodes, ne as int, x - h, y)
                        } else {
                            node_cell(nodes, se as int, x - h, y - h)
                        }
                    }
                } else {
                    false
                }
            },
        }
    } else {
        false
    }
}

/// The four quadrants of an inner entry, as arena indices.
pub open spec fn quad_nw(nodes: Seq<Node>, i: int) -> int {
    match nodes[i].content {
        NodeContent::Inner { nw, .. } => nw as int,
        _ => 0,
    }
}

pub open spec fn quad_ne(nodes: Seq<Node>, i: int) -> int {
    match nodes[i].content {
        NodeContent::Inner { ne, .. } => ne as int,
        _ => 0,
    }
}

pub open spec fn quad_sw(nodes: Seq<Node>, i: int) -> int {
    match nodes[i].content {
        NodeContent::Inner { sw, .. } => sw as int,
        _ => 0,
    }
}

pub open spec fn quad_se(nodes: Seq<Node>, i: int) -> int {
    match nodes[i].content {
        NodeContent::Inner { se, .. } => se as int,
        _ => 0,
    }
}

/// A cell of an inner node is the corresponding cell of one of its four
/// quadrants, split at half the side in each axis.
pub proof fn lemma_cell_dispatch(nodes: Seq<Node>, i: int)
    requires
        arena_wf(nodes),
        0 <= i < nodes.len(),
        nodes[i].content is Inner,
    ensures
        forall|x: int, y: int|
            0 <= x < node_side(nodes, i) && 0 <= y < node_side(nodes, i)
                ==> #[trigger] node_cell(nodes, i, x, y) == (if x < side_of(
                (nodes[i].level - 1) as nat,
            ) {
                if y < side_of((nodes[i].level - 1) as nat) {
                    node_cell(nodes, quad_nw(nodes, i), x, y)
                } else {
                    node_cell(nodes, quad_sw(nodes, i), x, y - side_of((nodes[i].level - 1) as nat))
                }
            } else {
                if y < side_of((nodes[i].level - 1) as nat) {
                    node_cell(nodes, quad_ne(nodes, i), x - side_of((nodes[i].level - 1) as nat), y)
                } else {
                    node_cell(
                        nodes,
                        quad_se(nodes, i),
                        x - side_of((nodes[i].level - 1) as nat),
                        y - side_of((nodes[i].level - 1) as nat),
                    )
                }
            }),
{
    assert(node_wf(nodes, i));
    lemma_side_unfold(nodes[i].level as nat);
}

/// The cell as a number, for counting.
pub open spec fn cell_int(nodes: Seq<Node>, i: int, x: int, y: int) -> int {
    if node_cell(nodes, i, x, y) {
        1
    } else {
        0
    }
}

/// How many of the eight neighbours of `(x, y)` are alive.
pub open spec fn neighbor_count(nodes: Seq<Node>, i: int, x: int, y: int) -> int {
    cell_int(nodes, i, x - 1, y - 1) + cell_int(nodes, i, x, y - 1) + cell_int(
        nodes,
        i,
        x + 1,
        y - 1,
    ) + cell_int(nodes, i, x - 1, y) + cell_int(nodes, i, x + 1, y) + cell_int(
        nodes,
        i,
        x - 1,
        y + 1,
    ) + cell_int(nodes, i, x, y + 1) + cell_int(nodes, i, x + 1, y + 1)
}

/// Conway's rule: a live cell survives with two or three live neighbours, a
/// dead cell is born with exactly three.
pub open spec fn life_rule(alive: bool, neighbors: int) -> bool {
    if alive {
        neighbors == 2 || neighbors == 3
    } else {
        neighbors == 3
    }
}

/// The state of cell `(x, y)` of entry `i` one generation later.
pub open spec fn next_cell(nodes: Seq<Node>, i: int, x: int, y: int) -> bool {
    life_rule(node_cell(nodes, i, x, y), neighbor_count(nodes, i, x, y))
}

/// A cell of the 4x4 scratch grid used by the level-2 base case, stored
/// row-major; outside the grid everything reads dead.
pub open spec fn grid_cell(g: Seq<bool>, x: int, y: int) -> bool {
    if 0 <= x < 4 && 0 <= y < 4 && g.len() == 16 {
        g[y * 4 + x]
    } else {
        false
    }
}

pub open spec fn grid_cell_int(g: Seq<bool>, x: int, y: int) -> int {
    if grid_cell(g, x, y) {
        1
    } else {
        0
    }
}

/// Live neighbours of `(x, y)` within the scratch grid.
pub open spec fn grid_neighbors(g: Seq<bool>, x: int, y: int) -> int {
    grid_cell_int(g, x - 1, y - 1) + grid_cell_int(g, x, y - 1) + grid_cell_int(g, x + 1, y - 1)
        + grid_cell_int(g, x - 1, y) + grid_cell_int(g, x + 1, y) + grid_cell_int(g, x - 1, y + 1)
        + grid_cell_int(g, x, y + 1) + grid_cell_int(g, x + 1, y + 1)
}

/// On a scratch grid that mirrors the sixteen cells of a level-2 node,
/// Conway's rule over the grid is one generation of the node.
pub proof fn lemma_grid_next(g: Seq<bool>, nodes: Seq<Node>, i: int, x: int, y: int)
    requires
        forall|gx: int, gy: int|
            0 <= gx < 4 && 0 <= gy < 4 ==> #[trigger] grid_cell(g, gx, gy) == node_cell(
                nodes,
                i,
                gx,
                gy,
            ),
        1 <= x <= 2,
        1 <= y <= 2,
    ensures
        life_rule(grid_cell(g, x, y), grid_neighbors(g, x, y)) == next_cell(nodes, i, x, y),
{
    assert(grid_cell(g, x - 1, y - 1) == node_cell(nodes, i, x - 1, y - 1));
    assert(grid_cell(g, x, y - 1) == node_cell(nodes, i, x, y - 1));
    assert(grid_cell(g, x + 1, y - 1) == node_cell(nodes, i, x + 1, y - 1));
    assert(grid_cell(g, x - 1, y) == node_cell(nodes, i, x - 1, y));
    assert(grid_cell(g, x, y) == node_cell(nodes, i, x, y));
    assert(grid_cell(g, x + 1, y) == node_cell(nodes, i, x + 1, y));
    assert(grid_cell(g, x - 1, y + 1) == node_cell(nodes, i, x - 1, y + 1));
    assert(grid_cell(g, x, y + 1) == node_cell(nodes, i, x, y + 1));
    assert(grid_cell(g, x + 1, y + 1) == node_cell(nodes, i, x + 1, y + 1));
}

/// If a region's cells agree with a window of a larger node, shifted by
/// `(ox, oy)`, then one generation agrees too, on the region's interior.
pub proof fn lemma_next_cell_transfer(nodes: Seq<Node>, sub: int, par: int, ox: int, oy: int)
    requires
        forall|u: int, v: int|
            0 <= u < node_side(nodes, sub) && 0 <= v < node_side(nodes, sub)
                ==> #[trigger] node_cell(nodes, sub, u, v) == node_cell(nodes, par, u + ox, v + oy),
    ensures
        forall|x: int, y: int|
            1 <= x < node_side(nodes, sub) - 1 && 1 <= y < node_side(nodes, sub) - 1
                ==> #[trigger] next_cell(nodes, sub, x, y) == next_cell(nodes, par, x + ox, y + oy),
{
    assert forall|x: int, y: int|
        1 <= x < node_side(nodes, sub) - 1 && 1 <= y < node_side(nodes, sub) - 1 implies
        #[trigger] next_cell(nodes, sub, x, y) == next_cell(nodes, par, x + ox, y + oy) by {
        assert(node_cell(nodes, sub, x - 1, y - 1) == node_cell(nodes, par, x - 1 + ox, y - 1 + oy));
        assert(node_cell(nodes, sub, x, y - 1) == node_cell(nodes, par, x + ox, y - 1 + oy));
        assert(node_cell(nodes, sub, x + 1, y - 1) == node_cell(nodes, par, x + 1 + ox, y - 1 + oy));
        assert(node_cell(nodes, sub, x - 1, y) == node_cell(nodes, par, x - 1 + ox, y + oy));
        assert(node_cell(nodes, sub, x, y) == node_cell(nodes, par, x + ox, y + oy));
        assert(node_cell(nodes, sub, x + 1, y) == node_cell(nodes, par, x + 1 + ox, y + oy));
        assert(node_cell(nodes, sub, x - 1, y + 1) == node_cell(nodes, par, x - 1 + ox, y + 1 + oy));
        assert(node_cell(nodes, sub, x, y + 1) == node_cell(nodes, par, x + ox, y + 1 + oy));
        assert(node_cell(nodes, sub, x + 1, y + 1) == node_cell(nodes, par, x + 1 + ox, y + 1 + oy));
    };
}

/// One arena is a prefix of the other: entries already present are unchanged.
pub open spec fn extends(new: Seq<Node>, old: Seq<Node>) -> bool {
    old.len() <= new.len() && forall|i: int| 0 <= i < old.len() ==> #[trigger] new[i] == old[i]
}

pub proof fn lemma_extends_trans(c: Seq<Node>, b: Seq<Node>, a: Seq<Node>)
    requires
        extends(c, b),
        extends(b, a),
    ensures
        extends(c, a),
{
}

/// Growing the arena does not change the cells of an existing entry.
pub proof fn lemma_cell_extends(new: Seq<Node>, old: Seq<Node>, i: int)
    requires
        extends(new, old),
        arena_wf(old),
        0 <= i < old.len(),
    ensures
        forall|x: int, y: int| #[trigger] node_cell(new, i, x, y) == node_cell(old, i, x, y),
    decreases i,
{
    assert(node_wf(old, i));
    assert(new[i] == old[i]);
    match old[i].content {
        NodeContent::Leaf(_) => {
            assert forall|x: int, y: int|
                #[trigger] node_cell(new, i, x, y) == node_cell(old, i, x, y) by {};
        },
        NodeContent::Inner { nw, ne, sw, se } => {
            lemma_cell_extends(new, old, nw as int);
            lemma_cell_extends(new, old, ne as int);
            lemma_cell_extends(new, old, sw as int);
            lemma_cell_extends(new, old, se as int);
            assert forall|x: int, y: int|
                #[trigger] node_cell(new, i, x, y) == node_cell(old, i, x, y) by {
                let h = side_of((old[i].level - 1) as nat);
                if 0 <= x < node_side(old, i) && 0 <= y < node_side(old, i) {
                    if x < h {
                        if y < h {
                            assert(node_cell(new, nw as int, x, y) == node_cell(
                                old,
                                nw as int,
                                x,
                                y,
                            ));
                        } else {
                            assert(node_cell(new, sw as int, x, y - h) == node_cell(
                                old,
                                sw as int,
                                x,
                                y - h,
                            ));
                        }
                    } else {
                        if y < h {
                            assert(node_cell(new, ne as int, x - h, y) == node_cell(
                                old,
                                ne as int,
                                x - h,
                                y,
                            ));
                        } else {
                            assert(node_cell(new, se as int, x - h, y - h) == node_cell(
                                old,
                                se as int,
                                x - h,
                                y - h,
                            ));
                        }
                    }
                }
            };
        },
    }
}

/// Growing the arena does not change what one generation does to an
/// existing entry.
pub proof fn lemma_next_cell_extends(new: Seq<Node>, old: Seq<Node>, i: int)
    requires
        extends(new, old),
        arena_wf(old),
        0 <= i < old.len(),
    ensures
        forall|x: int, y: int| #[trigger] next_cell(new, i, x, y) == next_cell(old, i, x, y),
{
    lemma_cell_extends(new, old, i);
    assert forall|x: int, y: int|
        #[trigger] next_cell(new, i, x, y) == next_cell(old, i, x, y) by {
        assert(node_cell(new, i, x, y) == node_cell(old, i, x, y));
        assert(node_cell(new, i, x - 1, y - 1) == node_cell(old, i, x - 1, y - 1));
        assert(node_cell(new, i, x, y - 1) == node_cell(old, i, x, y - 1));
        assert(node_cell(new, i, x + 1, y - 1) == node_cell(old, i, x + 1, y - 1));
        assert(node_cell(new, i, x - 1, y) == node_cell(old, i, x - 1, y));
        assert(node_cell(new, i, x + 1, y) == node_cell(old, i, x + 1, y));
        assert(node_cell(new, i, x - 1, y + 1) == node_cell(old, i, x - 1, y + 1));
        assert(node_cell(new, i, x, y + 1) == node_cell(old, i, x, y + 1));
        assert(node_cell(new, i, x + 1, y + 1) == node_cell(old, i, x + 1, y + 1));
    };
}

/// What a memoized evolution result promises: `r` is one level below `i`,
/// and each of its cells is the one-generation image of the corresponding
/// cell of the centered half-size square of `i`.
pub open spec fn result_entry_ok(nodes: Seq<Node>, i: int, r: int) -> bool {
    &&& 0 <= i < nodes.len()
    &&& 0 <= r < nodes.len()
    &&& nodes[i].level >= 2
    &&& nodes[r].level + 1 == nodes[i].level
    &&& forall|x: int, y: int|
        0 <= x < side_of((nodes[i].level - 1) as nat) && 0 <= y < side_of(
            (nodes[i].level - 1) as nat,
        ) ==> #[trigger] node_cell(nodes, r, x, y) == next_cell(
            nodes,
            i,
            x + side_of((nodes[i].level - 2) as nat),
            y + side_of((nodes[i].level - 2) as nat),
        )
}

/// The memo table is sound: every recorded entry keeps [`result_entry_ok`].
pub open spec fn results_inv(nodes: Seq<Node>, res: Seq<Option<usize>>) -> bool {
    &&& res.len() == nodes.len()
    &&& forall|i: int|
        0 <= i < res.len() && (#[trigger] res[i]) is Some ==> result_entry_ok(
            nodes,
            i,
            res[i]->0 as int,
        )
}

/// Growing the arena, and padding the memo table with empty entries, keeps
/// the memo table sound.
pub proof fn lemma_results_extend(
    new: Seq<Node>,
    old: Seq<Node>,
    res: Seq<Option<usize>>,
    res2: Seq<Option<usize>>,
)
    requires
        arena_wf(old),
        extends(new, old),
        results_inv(old, res),
        res2.len() == new.len(),
        forall|i: int| 0 <= i < res.len() ==> #[trigger] res2[i] == res[i],
        forall|i: int| res.len() <= i < res2.len() ==> (#[trigger] res2[i]) is None,
    ensures
        results_inv(new, res2),
{
    assert forall|i: int| 0 <= i < res2.len() && (#[trigger] res2[i]) is Some implies
        result_entry_ok(new, i, res2[i]->0 as int) by {
        let r = res2[i]->0 as int;
        assert(res[i] == res2[i]);
        assert(result_entry_ok(old, i, r));
        lemma_cell_extends(new, old, r);
        lemma_next_cell_extends(new, old, i);
        assert(new[i] == old[i]);
        assert(new[r] == old[r]);
        let h = side_of((old[i].level - 1) as nat);
        let q = side_of((old[i].level - 2) as nat);
        assert forall|x: int, y: int| 0 <= x < h && 0 <= y < h implies #[trigger] node_cell(
            new,
            r,
            x,
            y,
        ) == next_cell(new, i, x + q, y + q) by {
            assert(node_cell(new, r, x, y) == node_cell(old, r, x, y));
            assert(next_cell(new, i, x + q, y + q) == next_cell(old, i, x + q, y + q));
            assert(node_cell(old, r, x, y) == next_cell(old, i, x + q, y + q));
        };
    };
}

/// A sound memo entry stays sound when the arena grows.
pub proof fn lemma_entry_ok_extends(new: Seq<Node>, old: Seq<Node>, i: int, r: int)
    requires
        arena_wf(old),
        extends(new, old),
        result_entry_ok(old, i, r),
    ensures
        result_entry_ok(new, i, r),
{
    lemma_cell_extends(new, old, r);
    lemma_next_cell_extends(new, old, i);
    let h = side_of((old[i].level - 1) as nat);
    let q = side_of((old[i].level - 2) as nat);
    assert(new[i] == old[i]);
    assert(new[r] == old[r]);
    assert forall|x: int, y: int| 0 <= x < h && 0 <= y < h implies #[trigger] node_cell(
        new,
        r,
        x,
        y,
    ) == next_cell(new, i, x + q, y + q) by {
        assert(node_cell(new, r, x, y) == node_cell(old, r, x, y));
        assert(next_cell(new, i, x + q, y + q) == next_cell(old, i, x + q, y + q));
        assert(node_cell(old, r, x, y) == next_cell(old, i, x + q, y + q));
    };
}

/// A node whose population is zero has no live cell.
pub proof fn lemma_empty_node_dead(nodes: Seq<Node>, i: int)
    requires
        arena_wf(nodes),
        0 <= i < nodes.len(),
        nodes[i].population == 0,
    ensures
        forall|x: int, y: int| !(#[trigger] node_cell(nodes, i, x, y)),
    decreases i,
{
    assert(node_wf(nodes, i));
    match nodes[i].content {
        NodeContent::Leaf(_) => {
            assert forall|x: int, y: int| !(#[trigger] node_cell(nodes, i, x, y)) by {};
        },
        NodeContent::Inner { nw, ne, sw, se } => {
            lemma_empty_node_dead(nodes, nw as int);
            lemma_empty_node_dead(nodes, ne as int);
            lemma_empty_node_dead(nodes, sw as int);
            lemma_empty_node_dead(nodes, se as int);
            assert forall|x: int, y: int| !(#[trigger] node_cell(nodes, i, x, y)) by {
                let h = side_of((nodes[i].level - 1) as nat);
                if 0 <= x < node_side(nodes, i) && 0 <= y < node_side(nodes, i) {
                    assert(!node_cell(nodes, nw as int, x, y));
                    assert(!node_cell(nodes, sw as int, x, y - h));
                    assert(!node_cell(nodes, ne as int, x - h, y));
                    assert(!node_cell(nodes, se as int, x - h, y - h));
                }
            };
        },
    }
}

/// A node's population is bounded by the area of its square.
pub proof fn lemma_population_bound(nodes: Seq<Node>, i: int)
    requires
        arena_wf(nodes),
        0 <= i < nodes.len(),
    ensures
        nodes[i].population as int <= pow2((2 * nodes[i].level) as nat),
    decreases i,
{
    assert(node_wf(nodes, i));
    match nodes[i].content {
        NodeContent::Leaf(_) => {
            lemma_pow2_pos(0);
        },
        NodeContent::Inner { nw, ne, sw, se } => {
            lemma_population_bound(nodes, nw as int);
            lemma_population_bound(nodes, ne as int);
            lemma_population_bound(nodes, sw as int);
            lemma_population_bound(nodes, se as int);
            let l = nodes[i].level as nat;
            lemma_pow2_adds(2, (2 * l - 2) as nat);
            lemma_small_pow2();
        },
    }
}

/// Canonicalization: two cached nodes of the same level with the same cells
/// are the same node. Together with its converse (trivial), structural
/// content and identity coincide for nodes the cache produced.
pub proof fn lemma_canonical_identity(nodes: Seq<Node>, i: int, j: int)
    requires
        arena_wf(nodes),
        0 <= i < nodes.len(),
        0 <= j < nodes.len(),
        nodes[i].level == nodes[j].level,
        forall|x: int, y: int| #[trigger] node_cell(nodes, i, x, y) == node_cell(nodes, j, x, y),
    ensures
        i == j,
    decreases nodes[i].level,
{
    assert(node_wf(nodes, i));
    assert(node_wf(nodes, j));
    if i != j {
        assert(nodes[i].content != nodes[j].content);
        match nodes[i].content {
            NodeContent::Leaf(a) => {
                match nodes[j].content {
                    NodeContent::Leaf(b) => {
                        lemma_small_pow2();
                        assert(node_cell(nodes, i, 0, 0) == a);
                        assert(node_cell(nodes, j, 0, 0) == b);
                        assert(false);
                    },
                    NodeContent::Inner { .. } => {
                        assert(false);
                    },
                }
            },
            NodeContent::Inner { .. } => {
                match nodes[j].content {
                    NodeContent::Leaf(_) => {
                        assert(false);
                    },
                    NodeContent::Inner { .. } => {
                        lemma_cell_dispatch(nodes, i);
                        lemma_cell_dispatch(nodes, j);
                        lemma_side_unfold(nodes[i].level as nat);
                        let h = side_of((nodes[i].level - 1) as nat);
                        assert forall|x: int, y: int|
                            #[trigger] node_cell(nodes, quad_nw(nodes, i), x, y) == node_cell(
                            nodes,
                            quad_nw(nodes, j),
                            x,
                            y,
                        ) by {
                            if 0 <= x < h && 0 <= y < h {
                                assert(node_cell(nodes, i, x, y) == node_cell(nodes, j, x, y));
                            }
                        };
                        assert forall|x: int, y: int|
                            #[trigger] node_cell(nodes, quad_ne(nodes, i), x, y) == node_cell(
                            nodes,
                            quad_ne(nodes, j),
                            x,
                            y,
                        ) by {
                            if 0 <= x < h && 0 <= y < h {
                                assert(node_cell(nodes, i, x + h, y) == node_cell(
                                    nodes,
                                    j,
                                    x + h,
                                    y,
                                ));
                            }
                        };
                        assert forall|x: int, y: int|
                            #[trigger] node_cell(nodes, quad_sw(nodes, i), x, y) == node_cell(
                            nodes,
                            quad_sw(nodes, j),
                            x,
                            y,
                        ) by {
                            if 0 <= x < h && 0 <= y < h {
                                assert(node_cell(nodes, i, x, y + h) == node_cell(
                                    nodes,
                                    j,
                                    x,
                                    y + h,
                                ));
                            }
                        };
                        assert forall|x: int, y: int|
                            #[trigger] node_cell(nodes, quad_se(nodes, i), x, y) == node_cell(
                            nodes,
                            quad_se(nodes, j),
                            x,
                            y,
                        ) by {
                            if 0 <= x < h && 0 <= y < h {
                                assert(node_cell(nodes, i, x + h, y + h) == node_cell(
                                    nodes,
                                    j,
                                    x + h,
                                    y + h,
                                ));
                            }
                        };
                        lemma_canonical_identity(nodes, quad_nw(nodes, i), quad_nw(nodes, j));
                        lemma_canonical_identity(nodes, quad_ne(nodes, i), quad_ne(nodes, j));
                        lemma_canonical_identity(nodes, quad_sw(nodes, i), quad_sw(nodes, j));
                        lemma_canonical_identity(nodes, quad_se(nodes, i), quad_se(nodes, j));
                        assert(nodes[i].content == nodes[j].content);
                        assert(false);
                    },
                }
            },
        }
    }
}

/// A node with a nonzero population holds at least one live cell: the
/// population count never overstates the content.
pub proof fn lemma_live_cell_exists(nodes: Seq<Node>, i: int)
    requires
        arena_wf(nodes),
        0 <= i < nodes.len(),
        nodes[i].population != 0,
    ensures
        exists|x: int, y: int| #[trigger] node_cell(nodes, i, x, y),
    decreases i,
{
    assert(node_wf(nodes, i));
    match nodes[i].content {
        NodeContent::Leaf(alive) => {
            lemma_small_pow2();
            assert(node_cell(nodes, i, 0, 0));
        },
        NodeContent::Inner { nw, ne, sw, se } => {
            lemma_side_unfold(nodes[i].level as nat);
            let h = side_of((nodes[i].level - 1) as nat);
            if nodes[nw as int].population != 0 {
                lemma_live_cell_exists(nodes, nw as int);
                let (x, y) = choose|x: int, y: int| #[trigger] node_cell(nodes, nw as int, x, y);
                assert(node_cell(nodes, i, x, y));
            } else if nodes[ne as int].population != 0 {
                lemma_live_cell_exists(nodes, ne as int);
                let (x, y) = choose|x: int, y: int| #[trigger] node_cell(nodes, ne as int, x, y);
                assert(node_cell(nodes, i, x + h, y));
            } else if nodes[sw as int].population != 0 {
                lemma_live_cell_exists(nodes, sw as int);
                let (x, y) = choose|x: int, y: int| #[trigger] node_cell(nodes, sw as int, x, y);
                assert(node_cell(nodes, i, x, y + h));
            } else {
                lemma_live_cell_exists(nodes, se as int);
                let (x, y) = choose|x: int, y: int| #[trigger] node_cell(nodes, se as int, x, y);
                assert(node_cell(nodes, i, x + h, y + h));
            }
        },
    }
}

} // verus!
