//! The universe: a centered root window over the plane, with reads, writes
//! and window expansion.
//!
//! The root node covers the square `[-2^(L-1), 2^(L-1))` in both axes, where
//! `L` is the root's level. Writes path-copy the quadtree and replace the
//! root; reads outside the window see dead cells; a write outside the window
//! first doubles the window until it fits, up to `MAX_LEVEL`.

use crate::cache::NodeCache;
use crate::model::arena_wf;
use crate::model::extends;
use crate::model::lemma_cell_dispatch;
use crate::model::lemma_cell_extends;
use crate::model::lemma_empty_node_dead;
use crate::model::lemma_extends_trans;
use crate::model::lemma_results_extend;
use crate::model::lemma_side_unfold;
use crate::model::lemma_small_pow2;
use crate::model::life_rule;
use crate::model::node_cell;
use crate::model::node_side;
use crate::model::node_wf;
use crate::model::quad_ne;
use crate::model::quad_nw;
use crate::model::quad_se;
use crate::model::quad_sw;
use crate::model::results_inv;
use crate::model::side_of;
use crate::node::pow2_i64;
use crate::node::Node;
use crate::node::NodeContent;
use crate::node::UniverseError;
use crate::node::MAX_LEVEL;
use vstd::arithmetic::power2::lemma2_to64;
use vstd::arithmetic::power2::lemma_pow2_strictly_increases;
use vstd::arithmetic::power2::pow2;
use vstd::prelude::*;

verus! {

/// Coordinates the universe can ever cover: the window at `MAX_LEVEL`.
pub open spec fn representable(x: int, y: int) -> bool {
    &&& -side_of((MAX_LEVEL - 1) as nat) <= x < side_of((MAX_LEVEL - 1) as nat)
    &&& -side_of((MAX_LEVEL - 1) as nat) <= y < side_of((MAX_LEVEL - 1) as nat)
}

/// Whether the centered window of a root at the given level contains the
/// coordinates.
pub open spec fn window_covers(level: nat, x: int, y: int) -> bool {
    &&& -side_of((level - 1) as nat) <= x < side_of((level - 1) as nat)
    &&& -side_of((level - 1) as nat) <= y < side_of((level - 1) as nat)
}

/// Whether the `k`-th `(x, y)` pair of a flat coordinate list names the
/// cell `(a, b)`.
pub open spec fn pair_names(cells: Seq<i64>, k: int, a: int, b: int) -> bool {
    0 <= k && 2 * k + 1 < cells.len() && cells[2 * k] == a && cells[2 * k + 1] == b
}

/// The Game of Life universe: current root, node cache, generation counter,
/// the level requested at creation (for `clear`), and the memo table of
/// one-generation results, indexed like the arena.
pub struct Universe {
    pub(crate) cache: NodeCache,
    pub(crate) root: usize,
    pub(crate) generation: u64,
    pub(crate) size_level: u8,
    pub(crate) results: Vec<Option<usize>>,
}

impl Universe {
    /// The cache's arena, for specifications.
    pub open(crate) spec fn arena(self) -> Seq<Node> {
        self.cache.arena()
    }

    /// Cache-side invariant: canonical arena and sound memo table.
    pub open(crate) spec fn cache_ok(self) -> bool {
        &&& self.cache.wf()
        &&& results_inv(self.arena(), self.results@)
    }

    /// The whole invariant every public operation preserves.
    pub open(crate) spec fn inv(self) -> bool {
        &&& self.cache_ok()
        &&& self.root < self.arena().len()
        &&& 3 <= self.arena()[self.root as int].level
        &&& self.arena()[self.root as int].level <= MAX_LEVEL
        &&& 3 <= self.size_level <= MAX_LEVEL
    }

    /// The root's level.
    pub open(crate) spec fn root_lvl(self) -> nat {
        self.arena()[self.root as int].level as nat
    }

    /// Half the root window's side: coordinates range over `[-half, half)`.
    pub open(crate) spec fn half(self) -> int {
        side_of((self.root_lvl() - 1) as nat)
    }

    /// The level `clear` resets to.
    pub open(crate) spec fn size_lvl(self) -> nat {
        self.size_level as nat
    }

    /// Generations advanced since creation.
    pub open(crate) spec fn gens(self) -> nat {
        self.generation as nat
    }

    /// Number of live cells.
    pub open(crate) spec fn pop(self) -> nat {
        self.arena()[self.root as int].population as nat
    }

    /// The state of cell `(x, y)` of the plane: dead outside the window.
    pub open(crate) spec fn cell_alive(self, x: int, y: int) -> bool {
        &&& -self.half() <= x < self.half()
        &&& -self.half() <= y < self.half()
        &&& node_cell(self.arena(), self.root as int, x + self.half(), y + self.half())
    }

    /// How many of the eight neighbours of `(x, y)` are alive.
    pub open spec fn live_neighbors(self, x: int, y: int) -> int {
        (if self.cell_alive(x - 1, y - 1) {
            1int
        } else {
            0int
        }) + (if self.cell_alive(x, y - 1) {
            1int
        } else {
            0int
        }) + (if self.cell_alive(x + 1, y - 1) {
            1int
        } else {
            0int
        }) + (if self.cell_alive(x - 1, y) {
            1int
        } else {
            0int
        }) + (if self.cell_alive(x + 1, y) {
            1int
        } else {
            0int
        }) + (if self.cell_alive(x - 1, y + 1) {
            1int
        } else {
            0int
        }) + (if self.cell_alive(x, y + 1) {
            1int
        } else {
            0int
        }) + (if self.cell_alive(x + 1, y + 1) {
            1int
        } else {
            0int
        })
    }

    /// The state of cell `(x, y)` one Conway generation later.
    pub open spec fn next_alive(self, x: int, y: int) -> bool {
        life_rule(self.cell_alive(x, y), self.live_neighbors(x, y))
    }

    /// Pads the memo table with empty entries up to the arena's length.
    fn pad_results(&mut self)
        requires
            old(self).results@.len() <= old(self).cache.arena().len(),
        ensures
            final(self).cache == old(self).cache,
            final(self).root == old(self).root,
            final(self).generation == old(self).generation,
            final(self).size_level == old(self).size_level,
            final(self).results@.len() == final(self).cache.arena().len(),
            forall|i: int|
                0 <= i < old(self).results@.len() ==> #[trigger] final(self).results@[i] == old(
                    self,
                ).results@[i],
            forall|i: int|
                old(self).results@.len() <= i < final(self).results@.len() ==> (#[trigger] final(self).results@[i]) is None,
    {
        let target = self.cache.node_count();
        while self.results.len() < target
            invariant
                self.cache == old(self).cache,
                self.root == old(self).root,
                self.generation == old(self).generation,
                self.size_level == old(self).size_level,
                target == self.cache.arena().len(),
                self.results@.len() <= target,
                forall|i: int|
                    0 <= i < old(self).results@.len() ==> #[trigger] self.results@[i] == old(
                        self,
                    ).results@[i],
                forall|i: int|
                    old(self).results@.len() <= i < self.results@.len() ==> (#[trigger] self
                        .results@[i]) is None,
                old(self).results@.len() <= self.results@.len(),
            decreases target - self.results@.len(),
        {
            self.results.push(None);
        }
    }

    /// Canonical inner node over the current cache, keeping the memo table
    /// padded and sound. The level precondition makes failure impossible.
    pub(crate) fn u_get_inner(&mut self, nw: usize, ne: usize, sw: usize, se: usize) -> (r: usize)
        requires
            old(self).cache_ok(),
            nw < old(self).arena().len(),
            ne < old(self).arena().len(),
            sw < old(self).arena().len(),
            se < old(self).arena().len(),
            old(self).arena()[nw as int].level == old(self).arena()[ne as int].level,
            old(self).arena()[nw as int].level == old(self).arena()[sw as int].level,
            old(self).arena()[nw as int].level == old(self).arena()[se as int].level,
            old(self).arena()[nw as int].level < MAX_LEVEL,
        ensures
            final(self).cache_ok(),
            extends(final(self).arena(), old(self).arena()),
            final(self).root == old(self).root,
            final(self).generation == old(self).generation,
            final(self).size_level == old(self).size_level,
            forall|i: int|
                0 <= i < old(self).results@.len() ==> #[trigger] final(self).results@[i] == old(
                    self,
                ).results@[i],
            r < final(self).arena().len(),
            final(self).arena()[r as int].content == (NodeContent::Inner { nw, ne, sw, se }),
            final(self).arena()[r as int].level == old(self).arena()[nw as int].level + 1,
            final(self).arena()[r as int].population as int == old(
                self,
            ).arena()[nw as int].population as int + old(self).arena()[ne as int].population as int
                + old(self).arena()[sw as int].population as int + old(
                self,
            ).arena()[se as int].population as int,
    {
        let ghost a0 = self.arena();
        let ghost res0 = self.results@;
        let r = match self.cache.get_inner(nw, ne, sw, se) {
            Ok(i) => i,
            Err(_) => vstd::pervasive::unreached(),
        };
        self.pad_results();
        proof {
            lemma_results_extend(self.arena(), a0, res0, self.results@);
        }
        r
    }

    /// Canonical all-dead node, keeping the memo table padded and sound.
    pub(crate) fn u_get_empty(&mut self, level: u8) -> (r: usize)
        requires
            old(self).cache_ok(),
            level <= MAX_LEVEL,
        ensures
            final(self).cache_ok(),
            extends(final(self).arena(), old(self).arena()),
            final(self).root == old(self).root,
            final(self).generation == old(self).generation,
            final(self).size_level == old(self).size_level,
            forall|i: int|
                0 <= i < old(self).results@.len() ==> #[trigger] final(self).results@[i] == old(
                    self,
                ).results@[i],
            r < final(self).arena().len(),
            final(self).arena()[r as int].level == level,
            final(self).arena()[r as int].population == 0,
    {
        let ghost a0 = self.arena();
        let ghost res0 = self.results@;
        let r = self.cache.get_empty(level);
        self.pad_results();
        proof {
            lemma_results_extend(self.arena(), a0, res0, self.results@);
        }
        r
    }

    /// A fresh, all-dead universe whose root level is `size_level` clamped
    /// into `[3, MAX_LEVEL]`.
    pub fn new(size_level: usize) -> (r: Universe)
        ensures
            r.inv(),
            r.gens() == 0,
            r.pop() == 0,
            forall|x: int, y: int| !(#[trigger] r.cell_alive(x, y)),
            r.root_lvl() == (if size_level < 3 {
                3nat
            } else if size_level > MAX_LEVEL as nat {
                MAX_LEVEL as nat
            } else {
                size_level as nat
            }),
            r.size_lvl() == r.root_lvl(),
    {
        let level: u8 = if size_level < 3 {
            3
        } else if size_level > MAX_LEVEL as usize {
            MAX_LEVEL
        } else {
            size_level as u8
        };
        let mut cache = NodeCache::new();
        let root = cache.get_empty(level);
        let mut results: Vec<Option<usize>> = Vec::new();
        let mut u = Universe { cache, root, generation: 0, size_level: level, results };
        u.pad_results();
        proof {
            lemma_empty_node_dead(u.arena(), u.root as int);
        }
        u
    }

    /// The root's current level.
    pub fn root_level(&self) -> (r: u8)
        requires
            self.inv(),
        ensures
            r == self.root_lvl(),
    {
        self.cache.node(self.root).level
    }

    /// How many canonical nodes the cache holds.
    pub fn node_count(&self) -> (r: usize)
        ensures
            r == self.arena().len(),
    {
        self.cache.node_count()
    }

    /// Generations advanced since creation.
    pub fn generation(&self) -> (r: u64)
        ensures
            r == self.gens(),
    {
        self.generation
    }

    /// Number of live cells, kept on the root node.
    pub fn population(&self) -> (r: u64)
        requires
            self.inv(),
        ensures
            r == self.pop(),
    {
        self.cache.node(self.root).population
    }

    /// The cell of `node`'s square at world coordinates `(x, y)`, where the
    /// square's corner of smallest coordinates sits at `(node_x, node_y)`.
    fn get_cell_recursive(&self, node: usize, x: i64, y: i64, node_x: i64, node_y: i64) -> (r:
        bool)
        requires
            self.cache.wf(),
            node < self.arena().len(),
            -(pow2(30) as int) <= node_x as int,
            node_x as int + node_side(self.arena(), node as int) <= pow2(30),
            -(pow2(30) as int) <= node_y as int,
            node_y as int + node_side(self.arena(), node as int) <= pow2(30),
            node_x <= x,
            x < node_x as int + node_side(self.arena(), node as int),
            node_y <= y,
            y < node_y as int + node_side(self.arena(), node as int),
        ensures
            r == node_cell(self.arena(), node as int, x - node_x, y - node_y),
        decreases self.arena()[node as int].level,
    {
        proof {
            assert(node_wf(self.arena(), node as int));
            lemma2_to64();
        }
        let n = self.cache.node(node);
        match n.content {
            NodeContent::Leaf(alive) => {
                proof {
                    lemma_small_pow2();
                }
                alive
            },
            NodeContent::Inner { nw, ne, sw, se } => {
                proof {
                    lemma_side_unfold(n.level as nat);
                    if ((n.level - 1) as nat) < 30 {
                        lemma_pow2_strictly_increases((n.level - 1) as nat, 30);
                    }
                }
                let half = pow2_i64(n.level - 1);
                let mid_x = node_x + half;
                let mid_y = node_y + half;
                if x < mid_x {
                    if y < mid_y {
                        self.get_cell_recursive(nw, x, y, node_x, node_y)
                    } else {
                        self.get_cell_recursive(sw, x, y, node_x, mid_y)
                    }
                } else {
                    if y < mid_y {
                        self.get_cell_recursive(ne, x, y, mid_x, node_y)
                    } else {
                        self.get_cell_recursive(se, x, y, mid_x, mid_y)
                    }
                }
            },
        }
    }

    /// Path-copies `node`'s square so that the cell at world coordinates
    /// `(x, y)` becomes `alive`, returning the canonical root of the copy.
    /// Every other cell keeps its value.
    fn set_cell_recursive(
        &mut self,
        node: usize,
        x: i64,
        y: i64,
        alive: bool,
        node_x: i64,
        node_y: i64,
    ) -> (r: usize)
        requires
            old(self).cache_ok(),
            node < old(self).arena().len(),
            -(pow2(30) as int) <= node_x as int,
            node_x as int + node_side(old(self).arena(), node as int) <= pow2(30),
            -(pow2(30) as int) <= node_y as int,
            node_y as int + node_side(old(self).arena(), node as int) <= pow2(30),
            node_x <= x,
            (x as int) < node_x as int + node_side(old(self).arena(), node as int),
            node_y <= y,
            (y as int) < node_y as int + node_side(old(self).arena(), node as int),
        ensures
            final(self).cache_ok(),
            extends(final(self).arena(), old(self).arena()),
            final(self).root == old(self).root,
            final(self).generation == old(self).generation,
            final(self).size_level == old(self).size_level,
            forall|i: int|
                0 <= i < old(self).results@.len() ==> #[trigger] final(self).results@[i] == old(
                    self,
                ).results@[i],
            r < final(self).arena().len(),
            final(self).arena()[r as int].level == old(self).arena()[node as int].level,
            forall|u: int, v: int|
                0 <= u < node_side(old(self).arena(), node as int) && 0 <= v < node_side(
                    old(self).arena(),
                    node as int,
                ) ==> #[trigger] node_cell(final(self).arena(), r as int, u, v) == (if node_x + u
                    == x && node_y + v == y {
                    alive
                } else {
                    node_cell(old(self).arena(), node as int, u, v)
                }),
        decreases old(self).arena()[node as int].level,
    {
        let ghost a0 = self.arena();
        proof {
            assert(node_wf(a0, node as int));
            lemma_small_pow2();
            lemma2_to64();
        }
        let n = self.cache.node(node);
        match n.content {
            NodeContent::Leaf(_) => {
                let r = self.cache.get_leaf(alive);
                proof {
                    assert forall|u: int, v: int|
                        0 <= u < node_side(a0, node as int) && 0 <= v < node_side(
                            a0,
                            node as int,
                        ) implies #[trigger] node_cell(self.arena(), r as int, u, v) == (if node_x
                        + u == x && node_y + v == y {
                        alive
                    } else {
                        node_cell(a0, node as int, u, v)
                    }) by {
                        assert(u == 0 && v == 0);
                        assert(node_x + u == x && node_y + v == y);
                    };
                }
                r
            },
            NodeContent::Inner { nw, ne, sw, se } => {
                proof {
                    lemma_side_unfold(n.level as nat);
                    if ((n.level - 1) as nat) < 30 {
                        lemma_pow2_strictly_increases((n.level - 1) as nat, 30);
                    }
                }
                let half = pow2_i64(n.level - 1);
                let mid_x = node_x + half;
                let mid_y = node_y + half;
                let ghost h = side_of((n.level - 1) as nat);
                if x < mid_x && y < mid_y {
                    let child = self.set_cell_recursive(nw, x, y, alive, node_x, node_y);
                    let ghost a1 = self.arena();
                    let r = self.u_get_inner(child, ne, sw, se);
                    proof {
                        self.lemma_rebuilt_quadrant(a0, a1, node as int, r, child, 0, 0, x, y, alive, node_x, node_y);
                    }
                    r
                } else if x >= mid_x && y < mid_y {
                    let child = self.set_cell_recursive(ne, x, y, alive, mid_x, node_y);
                    let ghost a1 = self.arena();
                    let r = self.u_get_inner(nw, child, sw, se);
                    proof {
                        self.lemma_rebuilt_quadrant(a0, a1, node as int, r, child, 1, 0, x, y, alive, node_x, node_y);
                    }
                    r
                } else if x < mid_x {
                    let child = self.set_cell_recursive(sw, x, y, alive, node_x, mid_y);
                    let ghost a1 = self.arena();
                    let r = self.u_get_inner(nw, ne, child, se);
                    proof {
                        self.lemma_rebuilt_quadrant(a0, a1, node as int, r, child, 0, 1, x, y, alive, node_x, node_y);
                    }
                    r
                } else {
                    let child = self.set_cell_recursive(se, x, y, alive, mid_x, mid_y);
                    let ghost a1 = self.arena();
                    let r = self.u_get_inner(nw, ne, sw, child);
                    proof {
                        self.lemma_rebuilt_quadrant(a0, a1, node as int, r, child, 1, 1, x, y, alive, node_x, node_y);
                    }
                    r
                }
            },
        }
    }

    /// After one quadrant of `node` was rebuilt (by `set_cell_recursive`) and
    /// the three siblings kept, the reassembled node differs from `node` in
    /// exactly the written cell. `(qx, qy)` names the rebuilt quadrant.
    proof fn lemma_rebuilt_quadrant(
        &self,
        a0: Seq<Node>,
        a1: Seq<Node>,
        node: int,
        r: usize,
        child: usize,
        qx: int,
        qy: int,
        x: i64,
        y: i64,
        alive: bool,
        node_x: i64,
        node_y: i64,
    )
        requires
            arena_wf(a0),
            arena_wf(a1),
            self.cache.wf(),
            extends(a1, a0),
            extends(self.arena(), a1),
            0 <= node < a0.len(),
            a0[node].content is Inner,
            0 <= qx <= 1 && 0 <= qy <= 1,
            child < a1.len(),
            r < self.arena().len(),
            // the reassembly: `child` in place of quadrant `(qx, qy)`
            self.arena()[r as int].content == (NodeContent::Inner {
                nw: if qx == 0 && qy == 0 {
                    child
                } else {
                    quad_nw(a0, node) as usize
                },
                ne: if qx == 1 && qy == 0 {
                    child
                } else {
                    quad_ne(a0, node) as usize
                },
                sw: if qx == 0 && qy == 1 {
                    child
                } else {
                    quad_sw(a0, node) as usize
                },
                se: if qx == 1 && qy == 1 {
                    child
                } else {
                    quad_se(a0, node) as usize
                },
            }),
            self.arena()[r as int].level == a0[node].level,
            // where the written cell lies: inside quadrant `(qx, qy)`
            node_x as int + qx * side_of((a0[node].level - 1) as nat) <= x as int,
            (x as int) < node_x as int + (qx + 1) * side_of((a0[node].level - 1) as nat),
            node_y as int + qy * side_of((a0[node].level - 1) as nat) <= y as int,
            (y as int) < node_y as int + (qy + 1) * side_of((a0[node].level - 1) as nat),
            // what the recursion guaranteed about `child`
            forall|u: int, v: int|
                0 <= u < side_of((a0[node].level - 1) as nat) && 0 <= v < side_of(
                    (a0[node].level - 1) as nat,
                ) ==> #[trigger] node_cell(a1, child as int, u, v) == (if node_x + qx * side_of(
                    (a0[node].level - 1) as nat,
                ) + u == x && node_y + qy * side_of((a0[node].level - 1) as nat) + v == y {
                    alive
                } else {
                    node_cell(
                        a0,
                        (if qx == 0 && qy == 0 {
                            quad_nw(a0, node)
                        } else if qx == 1 && qy == 0 {
                            quad_ne(a0, node)
                        } else if qx == 0 && qy == 1 {
                            quad_sw(a0, node)
                        } else {
                            quad_se(a0, node)
                        }),
                        u,
                        v,
                    )
                }),
        ensures
            forall|u: int, v: int|
                0 <= u < node_side(a0, node) && 0 <= v < node_side(a0, node)
                    ==> #[trigger] node_cell(self.arena(), r as int, u, v) == (if node_x + u == x
                    && node_y + v == y {
                    alive
                } else {
                    node_cell(a0, node, u, v)
                }),
    {
        let a2 = self.arena();
        let lvl = a0[node].level;
        let h = side_of((lvl - 1) as nat);
        assert(node_wf(a0, node));
        lemma_side_unfold(lvl as nat);
        lemma_extends_trans(a2, a1, a0);
        lemma_cell_extends(a2, a1, child as int);
        lemma_cell_extends(a2, a0, quad_nw(a0, node));
        lemma_cell_extends(a2, a0, quad_ne(a0, node));
        lemma_cell_extends(a2, a0, quad_sw(a0, node));
        lemma_cell_extends(a2, a0, quad_se(a0, node));
        lemma_cell_dispatch(a2, r as int);
        lemma_cell_dispatch(a0, node);
        assert(node_wf(a2, r as int));
        assert forall|u: int, v: int|
            0 <= u < node_side(a0, node) && 0 <= v < node_side(a0, node) implies #[trigger] node_cell(
            a2,
            r as int,
            u,
            v,
        ) == (if node_x + u == x && node_y + v == y {
            alive
        } else {
            node_cell(a0, node, u, v)
        }) by {
            let iu = if u < h {
                0int
            } else {
                1int
            };
            let iv = if v < h {
                0int
            } else {
                1int
            };
            let lu = u - iu * h;
            let lv = v - iv * h;
            if iu == qx && iv == qy {
                assert(node_cell(a2, r as int, u, v) == node_cell(a2, child as int, lu, lv));
                assert(node_cell(a2, child as int, lu, lv) == node_cell(a1, child as int, lu, lv));
                assert(node_cell(a1, child as int, lu, lv) == (if node_x + qx * h + lu == x
                    && node_y + qy * h + lv == y {
                    alive
                } else {
                    node_cell(
                        a0,
                        (if qx == 0 && qy == 0 {
                            quad_nw(a0, node)
                        } else if qx == 1 && qy == 0 {
                            quad_ne(a0, node)
                        } else if qx == 0 && qy == 1 {
                            quad_sw(a0, node)
                        } else {
                            quad_se(a0, node)
                        }),
                        lu,
                        lv,
                    )
                }));
            } else {
                // a sibling quadrant: unchanged, and it cannot contain (x, y)
                assert(node_x + u != x || node_y + v != y);
            }
        };
    }

    /// Wraps an inner node one level up, placing it at the center of an
    /// otherwise empty square twice its side. Cells are preserved under the
    /// shift by half the node's side; everything around them is dead.
    pub(crate) fn embed_center(&mut self, n: usize) -> (r: usize)
        requires
            old(self).cache_ok(),
            n < old(self).arena().len(),
            old(self).arena()[n as int].content is Inner,
            old(self).arena()[n as int].level < MAX_LEVEL,
        ensures
            final(self).cache_ok(),
            extends(final(self).arena(), old(self).arena()),
            final(self).root == old(self).root,
            final(self).generation == old(self).generation,
            final(self).size_level == old(self).size_level,
            forall|i: int|
                0 <= i < old(self).results@.len() ==> #[trigger] final(self).results@[i] == old(
                    self,
                ).results@[i],
            r < final(self).arena().len(),
            final(self).arena()[r as int].level == old(self).arena()[n as int].level + 1,
            final(self).arena()[r as int].population == old(self).arena()[n as int].population,
            forall|x: int, y: int|
                #[trigger] node_cell(final(self).arena(), r as int, x, y) == (side_of(
                    (old(self).arena()[n as int].level - 1) as nat,
                ) <= x < 3 * side_of((old(self).arena()[n as int].level - 1) as nat) && side_of(
                    (old(self).arena()[n as int].level - 1) as nat,
                ) <= y < 3 * side_of((old(self).arena()[n as int].level - 1) as nat) && node_cell(
                    old(self).arena(),
                    n as int,
                    x - side_of((old(self).arena()[n as int].level - 1) as nat),
                    y - side_of((old(self).arena()[n as int].level - 1) as nat),
                )),
    {
        let ghost a0 = self.arena();
        let ghost lvl = a0[n as int].level;
        let ghost h = side_of((lvl - 1) as nat);
        proof {
            assert(node_wf(a0, n as int));
            lemma_side_unfold(lvl as nat);
            lemma_side_unfold((lvl + 1) as nat);
        }
        let nd = self.cache.node(n);
        let (ca, cb, cc, cd) = match nd.content {
            NodeContent::Inner { nw, ne, sw, se } => (nw, ne, sw, se),
            NodeContent::Leaf(_) => vstd::pervasive::unreached(),
        };
        let e = self.u_get_empty(nd.level - 1);
        let ghost a1 = self.arena();
        proof {
            assert(a1[ca as int] == a0[ca as int]);
            assert(a1[cb as int] == a0[cb as int]);
            assert(a1[cc as int] == a0[cc as int]);
            assert(a1[cd as int] == a0[cd as int]);
        }
        let q_nw = self.u_get_inner(e, e, e, ca);
        let ghost a2 = self.arena();
        proof {
            lemma_extends_trans(a2, a1, a0);
            assert(a2[e as int] == a1[e as int]);
            assert(a2[cb as int] == a0[cb as int]);
        }
        let q_ne = self.u_get_inner(e, e, cb, e);
        let ghost a3 = self.arena();
        proof {
            lemma_extends_trans(a3, a2, a1);
            lemma_extends_trans(a3, a2, a0);
            assert(a3[e as int] == a1[e as int]);
            assert(a3[cc as int] == a0[cc as int]);
        }
        let q_sw = self.u_get_inner(e, cc, e, e);
        let ghost a4 = self.arena();
        proof {
            lemma_extends_trans(a4, a3, a1);
            lemma_extends_trans(a4, a3, a0);
            assert(a4[e as int] == a1[e as int]);
            assert(a4[cd as int] == a0[cd as int]);
        }
        let q_se = self.u_get_inner(cd, e, e, e);
        let ghost a5 = self.arena();
        proof {
            lemma_extends_trans(a5, a4, a2);
            lemma_extends_trans(a5, a4, a3);
            lemma_extends_trans(a5, a4, a1);
            lemma_extends_trans(a5, a4, a0);
            assert(a5[q_nw as int] == a2[q_nw as int]);
            assert(a5[q_ne as int] == a3[q_ne as int]);
            assert(a5[q_sw as int] == a4[q_sw as int]);
        }
        let r = self.u_get_inner(q_nw, q_ne, q_sw, q_se);
        proof {
            let af = self.arena();
            lemma_extends_trans(af, a5, a4);
            lemma_extends_trans(af, a5, a3);
            lemma_extends_trans(af, a5, a2);
            lemma_extends_trans(af, a5, a1);
            lemma_extends_trans(af, a5, a0);
            assert(af[r as int].content == (NodeContent::Inner {
                nw: q_nw,
                ne: q_ne,
                sw: q_sw,
                se: q_se,
            }));
            assert(af[q_nw as int] == a2[q_nw as int]);
            assert(af[q_ne as int] == a3[q_ne as int]);
            assert(af[q_sw as int] == a4[q_sw as int]);
            assert(af[q_se as int] == a5[q_se as int]);
            assert(af[e as int] == a1[e as int]);
            assert(af[ca as int] == a0[ca as int]);
            assert(af[cb as int] == a0[cb as int]);
            assert(af[cc as int] == a0[cc as int]);
            assert(af[cd as int] == a0[cd as int]);
            lemma_cell_extends(af, a0, ca as int);
            lemma_cell_extends(af, a0, cb as int);
            lemma_cell_extends(af, a0, cc as int);
            lemma_cell_extends(af, a0, cd as int);
            lemma_empty_node_dead(af, e as int);
            lemma_cell_dispatch(af, r as int);
            lemma_cell_dispatch(af, q_nw as int);
            lemma_cell_dispatch(af, q_ne as int);
            lemma_cell_dispatch(af, q_sw as int);
            lemma_cell_dispatch(af, q_se as int);
            lemma_cell_dispatch(a0, n as int);
            assert forall|x: int, y: int|
                #[trigger] node_cell(af, r as int, x, y) == (h <= x < 3 * h && h <= y < 3 * h
                    && node_cell(a0, n as int, x - h, y - h)) by {
                if 0 <= x < 4 * h && 0 <= y < 4 * h {
                    assert(node_side(af, r as int) == 4 * h);
                    if x < 2 * h {
                        if y < 2 * h {
                            assert(node_cell(af, r as int, x, y) == node_cell(
                                af,
                                q_nw as int,
                                x,
                                y,
                            ));
                        } else {
                            assert(node_cell(af, r as int, x, y) == node_cell(
                                af,
                                q_sw as int,
                                x,
                                y - 2 * h,
                            ));
                        }
                    } else {
                        if y < 2 * h {
                            assert(node_cell(af, r as int, x, y) == node_cell(
                                af,
                                q_ne as int,
                                x - 2 * h,
                                y,
                            ));
                        } else {
                            assert(node_cell(af, r as int, x, y) == node_cell(
                                af,
                                q_se as int,
                                x - 2 * h,
                                y - 2 * h,
                            ));
                        }
                    }
                }
            };
        }
        r
    }

    /// Doubles the window: the root is re-embedded at the center of a root
    /// one level higher, so every cell of the plane keeps its state.
    pub(crate) fn expand(&mut self)
        requires
            old(self).inv(),
            old(self).root_lvl() < MAX_LEVEL,
        ensures
            final(self).inv(),
            final(self).root_lvl() == old(self).root_lvl() + 1,
            final(self).gens() == old(self).gens(),
            final(self).size_lvl() == old(self).size_lvl(),
            final(self).pop() == old(self).pop(),
            forall|x: int, y: int|
                #[trigger] final(self).cell_alive(x, y) == old(self).cell_alive(x, y),
    {
        let ghost a0 = self.arena();
        let ghost h = old(self).half();
        proof {
            assert(node_wf(a0, self.root as int));
        }
        let r = self.embed_center(self.root);
        self.root = r;
        proof {
            lemma_side_unfold((self.root_lvl() - 1) as nat);
            assert(self.half() == 2 * h);
            assert forall|x: int, y: int|
                #[trigger] self.cell_alive(x, y) == old(self).cell_alive(x, y) by {
                assert(node_cell(self.arena(), r as int, x + 2 * h, y + 2 * h) == (h <= x + 2 * h
                    < 3 * h && h <= y + 2 * h < 3 * h && node_cell(
                    a0,
                    old(self).root as int,
                    x + 2 * h - h,
                    y + 2 * h - h,
                )));
            };
        }
    }

    /// Sets the cell at `(x, y)`, expanding the window as needed. Fails with
    /// `NotRepresentable`, changing nothing, exactly when `(x, y)` lies
    /// outside the largest supported window; otherwise exactly that cell
    /// takes the value `alive` and every other cell keeps its state.
    pub fn set_cell(&mut self, x: i64, y: i64, alive: bool) -> (r: Result<(), UniverseError>)
        requires
            old(self).inv(),
        ensures
            final(self).inv(),
            final(self).gens() == old(self).gens(),
            final(self).size_lvl() == old(self).size_lvl(),
            r is Ok <==> representable(x as int, y as int),
            r is Err ==> *final(self) == *old(self) && r == Err::<(), UniverseError>(
                UniverseError::NotRepresentable,
            ),
            r is Ok ==> forall|a: int, b: int|
                #[trigger] final(self).cell_alive(a, b) == (if a == x as int && b == y as int {
                    alive
                } else {
                    old(self).cell_alive(a, b)
                }),
            r is Ok ==> final(self).root_lvl() >= old(self).root_lvl(),
            r is Ok ==> window_covers(final(self).root_lvl(), x as int, y as int),
            r is Ok ==> (final(self).root_lvl() == old(self).root_lvl() || !window_covers(
                (final(self).root_lvl() - 1) as nat,
                x as int,
                y as int,
            )),
    {
        proof {
            lemma2_to64();
        }
        let bound = pow2_i64(30);
        if x < -bound || x >= bound || y < -bound || y >= bound {
            proof {
                if self.root_lvl() < MAX_LEVEL as nat {
                    lemma_pow2_strictly_increases((self.root_lvl() - 1) as nat, 30);
                }
            }
            return Err(UniverseError::NotRepresentable);
        }
        loop
            invariant
                self.inv(),
                self.gens() == old(self).gens(),
                self.size_lvl() == old(self).size_lvl(),
                self.root_lvl() >= old(self).root_lvl(),
                representable(x as int, y as int),
                forall|a: int, b: int|
                    #[trigger] self.cell_alive(a, b) == old(self).cell_alive(a, b),
                self.root_lvl() == old(self).root_lvl() || !window_covers(
                    (self.root_lvl() - 1) as nat,
                    x as int,
                    y as int,
                ),
            ensures
                self.inv(),
                self.gens() == old(self).gens(),
                self.size_lvl() == old(self).size_lvl(),
                self.root_lvl() >= old(self).root_lvl(),
                forall|a: int, b: int|
                    #[trigger] self.cell_alive(a, b) == old(self).cell_alive(a, b),
                self.root_lvl() == old(self).root_lvl() || !window_covers(
                    (self.root_lvl() - 1) as nat,
                    x as int,
                    y as int,
                ),
                window_covers(self.root_lvl(), x as int, y as int),
            decreases MAX_LEVEL - self.root_lvl(),
        {
            let level = self.root_level();
            proof {
                if ((self.root_lvl() - 1) as nat) < 30 {
                    lemma_pow2_strictly_increases((self.root_lvl() - 1) as nat, 30);
                }
            }
            let half = pow2_i64(level - 1);
            if x >= -half && x < half && y >= -half && y < half {
                break ;
            }
            proof {
                assert(self.root_lvl() < MAX_LEVEL as nat);
            }
            self.expand();
        }
        let ghost mid = *self;
        let level = self.root_level();
        proof {
            if ((self.root_lvl() - 1) as nat) < 30 {
                lemma_pow2_strictly_increases((self.root_lvl() - 1) as nat, 30);
            }
            lemma_side_unfold(self.root_lvl());
            assert(node_side(self.arena(), self.root as int) == 2 * self.half());
        }
        let half = pow2_i64(level - 1);
        let new_root = self.set_cell_recursive(self.root, x, y, alive, -half, -half);
        self.root = new_root;
        proof {
            assert forall|a: int, b: int|
                #[trigger] self.cell_alive(a, b) == (if a == x as int && b == y as int {
                    alive
                } else {
                    mid.cell_alive(a, b)
                }) by {
                if -mid.half() <= a < mid.half() && -mid.half() <= b < mid.half() {
                    assert(node_cell(self.arena(), new_root as int, a + mid.half(), b + mid.half())
                        == (if -half + (a + mid.half()) == x && -half + (b + mid.half()) == y {
                        alive
                    } else {
                        node_cell(mid.arena(), mid.root as int, a + mid.half(), b + mid.half())
                    }));
                }
            };
        }
        Ok(())
    }

    /// Replaces the universe with a fresh all-dead one at the creation
    /// level, generation zero.
    pub fn clear(&mut self)
        requires
            old(self).inv(),
        ensures
            final(self).inv(),
            final(self).gens() == 0,
            final(self).pop() == 0,
            forall|x: int, y: int| !(#[trigger] final(self).cell_alive(x, y)),
            final(self).root_lvl() == old(self).size_lvl(),
            final(self).size_lvl() == old(self).size_lvl(),
    {
        let fresh = Universe::new(self.size_level as usize);
        *self = fresh;
    }

    /// Sets alive every cell named by consecutive `(x, y)` pairs of the flat
    /// list; a trailing unpaired value is ignored, and so is any pair outside
    /// the representable plane.
    pub fn set_cells(&mut self, cells: &Vec<i64>)
        requires
            old(self).inv(),
        ensures
            final(self).inv(),
            final(self).gens() == old(self).gens(),
            final(self).size_lvl() == old(self).size_lvl(),
            forall|a: int, b: int|
                #[trigger] final(self).cell_alive(a, b) == (old(self).cell_alive(a, b) || (
                representable(a, b) && exists|k: int| #[trigger] pair_names(cells@, k, a, b))),
    {
        let mut i: usize = 0;
        while i + 1 < cells.len()
            invariant
                self.inv(),
                self.gens() == old(self).gens(),
                self.size_lvl() == old(self).size_lvl(),
                i % 2 == 0,
                i <= cells@.len() + 1,
                forall|a: int, b: int|
                    #[trigger] self.cell_alive(a, b) == (old(self).cell_alive(a, b) || (
                    representable(a, b) && exists|k: int|
                        #[trigger] pair_names(cells@, k, a, b) && 2 * k + 1 < i)),
            decreases cells@.len() - i,
        {
            let x = cells[i];
            let y = cells[i + 1];
            let ghost mid = *self;
            let outcome = self.set_cell(x, y, true);
            proof {
                assert forall|a: int, b: int|
                    #[trigger] self.cell_alive(a, b) == (old(self).cell_alive(a, b) || (
                    representable(a, b) && exists|k: int|
                        #[trigger] pair_names(cells@, k, a, b) && 2 * k + 1 < i + 2)) by {
                    let kw = i as int / 2;
                    assert(2 * kw == i);
                    if self.cell_alive(a, b) {
                        if outcome is Ok && a == x as int && b == y as int {
                            assert(pair_names(cells@, kw, a, b) && 2 * kw + 1 < i + 2);
                        } else {
                            assert(mid.cell_alive(a, b));
                        }
                    } else {
                        assert(!mid.cell_alive(a, b));
                        if representable(a, b) && exists|k: int|
                            #[trigger] pair_names(cells@, k, a, b) && 2 * k + 1 < i + 2 {
                            let k = choose|k: int|
                                #[trigger] pair_names(cells@, k, a, b) && 2 * k + 1 < i + 2;
                            assert(2 * k + 1 < i || k == kw);
                        }
                    }
                };
            }
            i = i + 2;
        }
        proof {
            assert forall|a: int, b: int|
                #[trigger] self.cell_alive(a, b) == (old(self).cell_alive(a, b) || (representable(
                    a,
                    b,
                ) && exists|k: int| #[trigger] pair_names(cells@, k, a, b))) by {
                if exists|k: int| #[trigger] pair_names(cells@, k, a, b) {
                    let k = choose|k: int| #[trigger] pair_names(cells@, k, a, b);
                    assert(2 * k + 1 != i);
                    assert(2 * k + 1 < i);
                    assert(pair_names(cells@, k, a, b) && 2 * k + 1 < i);
                }
            };
        }
    }

    /// The state of the cell at `(x, y)`: dead outside the window. Never
    /// expands the window.
    pub fn get_cell(&self, x: i64, y: i64) -> (r: bool)
        requires
            self.inv(),
        ensures
            r == self.cell_alive(x as int, y as int),
    {
        proof {
            lemma2_to64();
            if self.root_lvl() - 1 < 30 {
                lemma_pow2_strictly_increases((self.root_lvl() - 1) as nat, 30);
            }
            lemma_side_unfold(self.root_lvl());
        }
        let level = self.cache.node(self.root).level;
        let half = pow2_i64(level - 1);
        if x < -half || x >= half || y < -half || y >= half {
            return false;
        }
        self.get_cell_recursive(self.root, x, y, -half, -half)
    }
}

} // verus!
