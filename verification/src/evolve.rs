//! Single-generation evolution on the quadtree.
//!
//! `next_generation_single` returns the "one generation forward, centered
//! half-size square" of a node: at level 2 by reading the sixteen cells and
//! applying Conway's rule to the inner four, at higher levels by the
//! classical nine-region recursion. Results are memoized by node identity,
//! which canonicalization makes sound. `step` wraps this with the window
//! bookkeeping that keeps the single-step result exact everywhere.

use crate::model::extends;
use crate::model::grid_cell;
use crate::model::grid_neighbors;
use crate::model::lemma_cell_dispatch;
use crate::model::lemma_cell_extends;
use crate::model::lemma_empty_node_dead;
use crate::model::lemma_extends_trans;
use crate::model::lemma_next_cell_extends;
use crate::model::lemma_next_cell_transfer;
use crate::model::lemma_side_unfold;
use crate::model::lemma_small_pow2;
use crate::model::next_cell;
use crate::model::node_cell;
use crate::model::node_side;
use crate::model::node_wf;
use crate::model::quad_ne;
use crate::model::quad_nw;
use crate::model::quad_se;
use crate::model::quad_sw;
use crate::model::result_entry_ok;
use crate::model::side_of;
use crate::node::NodeContent;
use crate::node::UniverseError;
use crate::node::MAX_LEVEL;
use crate::universe::Universe;
use vstd::prelude::*;

verus! {

impl Universe {
    /// The four quadrant indices of an inner node.
    pub(crate) fn quads(&self, i: usize) -> (q: (usize, usize, usize, usize))
        requires
            self.cache.wf(),
            i < self.arena().len(),
            self.arena()[i as int].content is Inner,
        ensures
            q.0 == quad_nw(self.arena(), i as int),
            q.1 == quad_ne(self.arena(), i as int),
            q.2 == quad_sw(self.arena(), i as int),
            q.3 == quad_se(self.arena(), i as int),
            q.0 < i && q.1 < i && q.2 < i && q.3 < i,
            self.arena()[q.0 as int].level + 1 == self.arena()[i as int].level,
            self.arena()[q.1 as int].level + 1 == self.arena()[i as int].level,
            self.arena()[q.2 as int].level + 1 == self.arena()[i as int].level,
            self.arena()[q.3 as int].level + 1 == self.arena()[i as int].level,
    {
        proof {
            assert(node_wf(self.arena(), i as int));
        }
        match self.cache.node(i).content {
            NodeContent::Inner { nw, ne, sw, se } => (nw, ne, sw, se),
            NodeContent::Leaf(_) => vstd::pervasive::unreached(),
        }
    }

    /// Live-neighbour count of cell `(x, y)` of the 4x4 scratch grid, for
    /// the four inner positions, whose eight neighbours all lie on the grid.
    fn count_neighbors_array(cells: &Vec<bool>, x: usize, y: usize) -> (r: u8)
        requires
            cells@.len() == 16,
            1 <= x <= 2,
            1 <= y <= 2,
        ensures
            r as int == grid_neighbors(cells@, x as int, y as int),
    {
        let mut count: u8 = 0;
        if cells[(y - 1) * 4 + (x - 1)] {
            count = count + 1;
        }
        if cells[(y - 1) * 4 + x] {
            count = count + 1;
        }
        if cells[(y - 1) * 4 + (x + 1)] {
            count = count + 1;
        }
        if cells[y * 4 + (x - 1)] {
            count = count + 1;
        }
        if cells[y * 4 + (x + 1)] {
            count = count + 1;
        }
        if cells[(y + 1) * 4 + (x - 1)] {
            count = count + 1;
        }
        if cells[(y + 1) * 4 + x] {
            count = count + 1;
        }
        if cells[(y + 1) * 4 + (x + 1)] {
            count = count + 1;
        }
        count
    }

    /// Copies the cells of a node of level at most 1 into the 4x4 scratch
    /// grid at the given offset, leaving the rest of the grid unchanged.
    fn extract_2x2(&self, node: usize, cells: &mut Vec<bool>, offset_x: usize, offset_y: usize)
        requires
            self.cache.wf(),
            node < self.arena().len(),
            self.arena()[node as int].level <= 1,
            old(cells)@.len() == 16,
            offset_x as int + node_side(self.arena(), node as int) <= 4,
            offset_y as int + node_side(self.arena(), node as int) <= 4,
        ensures
            final(cells)@.len() == 16,
            forall|gx: int, gy: int|
                0 <= gx < 4 && 0 <= gy < 4 ==> #[trigger] grid_cell(final(cells)@, gx, gy) == (if
                    offset_x <= gx < offset_x as int + node_side(self.arena(), node as int)
                    && offset_y <= gy < offset_y as int + node_side(self.arena(), node as int) {
                    node_cell(self.arena(), node as int, gx - offset_x, gy - offset_y)
                } else {
                    grid_cell(old(cells)@, gx, gy)
                }),
        decreases self.arena()[node as int].level,
    {
        proof {
            assert(node_wf(self.arena(), node as int));
            lemma_small_pow2();
        }
        let n = self.cache.node(node);
        match n.content {
            NodeContent::Leaf(_) => {
                cells.set(offset_y * 4 + offset_x, n.is_alive());
            },
            NodeContent::Inner { nw, ne, sw, se } => {
                let ghost g0 = cells@;
                self.extract_2x2(nw, cells, offset_x, offset_y);
                self.extract_2x2(ne, cells, offset_x + 1, offset_y);
                self.extract_2x2(sw, cells, offset_x, offset_y + 1);
                self.extract_2x2(se, cells, offset_x + 1, offset_y + 1);
                proof {
                    lemma_cell_dispatch(self.arena(), node as int);
                    assert forall|gx: int, gy: int| 0 <= gx < 4 && 0 <= gy < 4 implies
                        #[trigger] grid_cell(cells@, gx, gy) == (if offset_x <= gx < offset_x as int
                        + node_side(self.arena(), node as int) && offset_y <= gy < offset_y as int
                        + node_side(self.arena(), node as int) {
                        node_cell(self.arena(), node as int, gx - offset_x, gy - offset_y)
                    } else {
                        grid_cell(g0, gx, gy)
                    }) by {};
                }
            },
        }
    }

    /// The sixteen cells of a level-2 node, read into the 4x4 scratch grid.
    fn read_level2_grid(&self, node: usize) -> (cells: Vec<bool>)
        requires
            self.cache.wf(),
            node < self.arena().len(),
            self.arena()[node as int].level == 2,
        ensures
            cells@.len() == 16,
            forall|gx: int, gy: int|
                0 <= gx < 4 && 0 <= gy < 4 ==> #[trigger] grid_cell(cells@, gx, gy) == node_cell(
                    self.arena(),
                    node as int,
                    gx,
                    gy,
                ),
    {
        proof {
            assert(node_wf(self.arena(), node as int));
            lemma_small_pow2();
        }
        let (nw, ne, sw, se) = self.quads(node);
        let mut cells: Vec<bool> = Vec::new();
        let mut k: usize = 0;
        while k < 16
            invariant
                cells@.len() == k,
                k <= 16,
            decreases 16 - k,
        {
            cells.push(false);
            k = k + 1;
        }
        self.extract_2x2(nw, &mut cells, 0, 0);
        self.extract_2x2(ne, &mut cells, 2, 0);
        self.extract_2x2(sw, &mut cells, 0, 2);
        self.extract_2x2(se, &mut cells, 2, 2);
        proof {
            lemma_cell_dispatch(self.arena(), node as int);
            lemma_small_pow2();
            assert forall|gx: int, gy: int| 0 <= gx < 4 && 0 <= gy < 4 implies #[trigger] grid_cell(
                cells@,
                gx,
                gy,
            ) == node_cell(self.arena(), node as int, gx, gy) by {};
        }
        cells
    }

    /// One Conway generation of a level-2 (4x4) node: the resulting centered
    /// 2x2 square, as a canonical level-1 node.
    fn compute_level2(&mut self, node: usize) -> (r: usize)
        requires
            old(self).cache_ok(),
            node < old(self).arena().len(),
            old(self).arena()[node as int].level == 2,
        ensures
            final(self).cache_ok(),
            extends(final(self).arena(), old(self).arena()),
            final(self).root == old(self).root,
            final(self).generation == old(self).generation,
            final(self).size_level == old(self).size_level,
            forall|i: int|
                0 <= i < old(self).results@.len() ==> #[trigger] final(self).results@[i] == old(self).results@[i],
            r < final(self).arena().len(),
            final(self).arena()[r as int].level == 1,
            forall|x: int, y: int|
                0 <= x < 2 && 0 <= y < 2 ==> #[trigger] node_cell(
                    final(self).arena(),
                    r as int,
                    x,
                    y,
                ) == next_cell(old(self).arena(), node as int, x + 1, y + 1),
    {
        let ghost a0 = self.arena();
        let cells = self.read_level2_grid(node);
        let c11 = cells[5];
        let n11 = Universe::count_neighbors_array(&cells, 1, 1);
        let b11 = if c11 {
            n11 == 2 || n11 == 3
        } else {
            n11 == 3
        };
        let c21 = cells[6];
        let n21 = Universe::count_neighbors_array(&cells, 2, 1);
        let b21 = if c21 {
            n21 == 2 || n21 == 3
        } else {
            n21 == 3
        };
        let c12 = cells[9];
        let n12 = Universe::count_neighbors_array(&cells, 1, 2);
        let b12 = if c12 {
            n12 == 2 || n12 == 3
        } else {
            n12 == 3
        };
        let c22 = cells[10];
        let n22 = Universe::count_neighbors_array(&cells, 2, 2);
        let b22 = if c22 {
            n22 == 2 || n22 == 3
        } else {
            n22 == 3
        };
        proof {
            crate::model::lemma_grid_next(cells@, a0, node as int, 1, 1);
            crate::model::lemma_grid_next(cells@, a0, node as int, 2, 1);
            crate::model::lemma_grid_next(cells@, a0, node as int, 1, 2);
            crate::model::lemma_grid_next(cells@, a0, node as int, 2, 2);
            assert(c11 == grid_cell(cells@, 1, 1));
            assert(c21 == grid_cell(cells@, 2, 1));
            assert(c12 == grid_cell(cells@, 1, 2));
            assert(c22 == grid_cell(cells@, 2, 2));
            assert(b11 == next_cell(a0, node as int, 1, 1));
            assert(b21 == next_cell(a0, node as int, 2, 1));
            assert(b12 == next_cell(a0, node as int, 1, 2));
            assert(b22 == next_cell(a0, node as int, 2, 2));
        }
        let l_nw = self.cache.get_leaf(b11);
        let l_ne = self.cache.get_leaf(b21);
        let l_sw = self.cache.get_leaf(b12);
        let l_se = self.cache.get_leaf(b22);
        let r = self.u_get_inner(l_nw, l_ne, l_sw, l_se);
        proof {
            let af = self.arena();
            lemma_small_pow2();
            assert forall|x: int, y: int| 0 <= x < 2 && 0 <= y < 2 implies #[trigger] node_cell(
                af,
                r as int,
                x,
                y,
            ) == next_cell(a0, node as int, x + 1, y + 1) by {
                if x == 0 && y == 0 {
                    assert(node_cell(af, r as int, x, y) == node_cell(af, l_nw as int, 0, 0));
                } else if x == 1 && y == 0 {
                    assert(node_cell(af, r as int, x, y) == node_cell(af, l_ne as int, 0, 0));
                } else if x == 0 && y == 1 {
                    assert(node_cell(af, r as int, x, y) == node_cell(af, l_sw as int, 0, 0));
                } else {
                    assert(node_cell(af, r as int, x, y) == node_cell(af, l_se as int, 0, 0));
                }
            };
        }
        r
    }

    /// The level-`l` node standing between two horizontal neighbours `l` and
    /// `r`: its left half is the right half of `left`, its right half the
    /// left half of `right`.
    fn center_subnode_horizontal(&mut self, left: usize, right: usize) -> (res: usize)
        requires
            old(self).cache_ok(),
            left < old(self).arena().len(),
            right < old(self).arena().len(),
            old(self).arena()[left as int].content is Inner,
            old(self).arena()[right as int].content is Inner,
            old(self).arena()[left as int].level == old(self).arena()[right as int].level,
            old(self).arena()[left as int].level <= MAX_LEVEL,
        ensures
            final(self).cache_ok(),
            extends(final(self).arena(), old(self).arena()),
            final(self).root == old(self).root,
            final(self).generation == old(self).generation,
            final(self).size_level == old(self).size_level,
            forall|i: int|
                0 <= i < old(self).results@.len() ==> #[trigger] final(self).results@[i] == old(self).results@[i],
            res < final(self).arena().len(),
            final(self).arena()[res as int].level == old(self).arena()[left as int].level,
            forall|u: int, v: int|
                0 <= u < node_side(old(self).arena(), left as int) && 0 <= v < node_side(
                    old(self).arena(),
                    left as int,
                ) ==> #[trigger] node_cell(final(self).arena(), res as int, u, v) == (if u
                    < side_of((old(self).arena()[left as int].level - 1) as nat) {
                    node_cell(
                        old(self).arena(),
                        left as int,
                        u + side_of((old(self).arena()[left as int].level - 1) as nat),
                        v,
                    )
                } else {
                    node_cell(
                        old(self).arena(),
                        right as int,
                        u - side_of((old(self).arena()[left as int].level - 1) as nat),
                        v,
                    )
                }),
    {
        let ghost a0 = self.arena();
        proof {
            assert(node_wf(a0, left as int));
            assert(node_wf(a0, right as int));
            lemma_side_unfold(a0[left as int].level as nat);
        }
        let (_l_nw, l_ne, _l_sw, l_se) = self.quads(left);
        let (r_nw, _r_ne, r_sw, _r_se) = self.quads(right);
        let res = self.u_get_inner(l_ne, r_nw, l_se, r_sw);
        proof {
            let af = self.arena();
            lemma_cell_extends(af, a0, l_ne as int);
            lemma_cell_extends(af, a0, r_nw as int);
            lemma_cell_extends(af, a0, l_se as int);
            lemma_cell_extends(af, a0, r_sw as int);
            lemma_cell_dispatch(af, res as int);
            lemma_cell_dispatch(a0, left as int);
            lemma_cell_dispatch(a0, right as int);
            let h = side_of((a0[left as int].level - 1) as nat);
            assert forall|u: int, v: int|
                0 <= u < node_side(a0, left as int) && 0 <= v < node_side(a0, left as int) implies
                #[trigger] node_cell(af, res as int, u, v) == (if u < h {
                node_cell(a0, left as int, u + h, v)
            } else {
                node_cell(a0, right as int, u - h, v)
            }) by {};
        }
        res
    }

    /// The level-`l` node standing between two vertical neighbours: its top
    /// half is the bottom half of `top`, its bottom half the top half of
    /// `bottom`.
    fn center_subnode_vertical(&mut self, top: usize, bottom: usize) -> (res: usize)
        requires
            old(self).cache_ok(),
            top < old(self).arena().len(),
            bottom < old(self).arena().len(),
            old(self).arena()[top as int].content is Inner,
            old(self).arena()[bottom as int].content is Inner,
            old(self).arena()[top as int].level == old(self).arena()[bottom as int].level,
            old(self).arena()[top as int].level <= MAX_LEVEL,
        ensures
            final(self).cache_ok(),
            extends(final(self).arena(), old(self).arena()),
            final(self).root == old(self).root,
            final(self).generation == old(self).generation,
            final(self).size_level == old(self).size_level,
            forall|i: int|
                0 <= i < old(self).results@.len() ==> #[trigger] final(self).results@[i] == old(self).results@[i],
            res < final(self).arena().len(),
            final(self).arena()[res as int].level == old(self).arena()[top as int].level,
            forall|u: int, v: int|
                0 <= u < node_side(old(self).arena(), top as int) && 0 <= v < node_side(
                    old(self).arena(),
                    top as int,
                ) ==> #[trigger] node_cell(final(self).arena(), res as int, u, v) == (if v
                    < side_of((old(self).arena()[top as int].level - 1) as nat) {
                    node_cell(
                        old(self).arena(),
                        top as int,
                        u,
                        v + side_of((old(self).arena()[top as int].level - 1) as nat),
                    )
                } else {
                    node_cell(
                        old(self).arena(),
                        bottom as int,
                        u,
                        v - side_of((old(self).arena()[top as int].level - 1) as nat),
                    )
                }),
    {
        let ghost a0 = self.arena();
        proof {
            assert(node_wf(a0, top as int));
            assert(node_wf(a0, bottom as int));
            lemma_side_unfold(a0[top as int].level as nat);
        }
        let (_t_nw, _t_ne, t_sw, t_se) = self.quads(top);
        let (b_nw, b_ne, _b_sw, _b_se) = self.quads(bottom);
        let res = self.u_get_inner(t_sw, t_se, b_nw, b_ne);
        proof {
            let af = self.arena();
            lemma_cell_extends(af, a0, t_sw as int);
            lemma_cell_extends(af, a0, t_se as int);
            lemma_cell_extends(af, a0, b_nw as int);
            lemma_cell_extends(af, a0, b_ne as int);
            lemma_cell_dispatch(af, res as int);
            lemma_cell_dispatch(a0, top as int);
            lemma_cell_dispatch(a0, bottom as int);
            let h = side_of((a0[top as int].level - 1) as nat);
            assert forall|u: int, v: int|
                0 <= u < node_side(a0, top as int) && 0 <= v < node_side(a0, top as int) implies
                #[trigger] node_cell(af, res as int, u, v) == (if v < h {
                node_cell(a0, top as int, u, v + h)
            } else {
                node_cell(a0, bottom as int, u, v - h)
            }) by {};
        }
        res
    }

    /// The centered half-size node of an inner node of level at least 2.
    fn center_node(&mut self, node: usize) -> (res: usize)
        requires
            old(self).cache_ok(),
            node < old(self).arena().len(),
            old(self).arena()[node as int].level >= 2,
        ensures
            final(self).cache_ok(),
            extends(final(self).arena(), old(self).arena()),
            final(self).root == old(self).root,
            final(self).generation == old(self).generation,
            final(self).size_level == old(self).size_level,
            forall|i: int|
                0 <= i < old(self).results@.len() ==> #[trigger] final(self).results@[i] == old(self).results@[i],
            res < final(self).arena().len(),
            final(self).arena()[res as int].level + 1 == old(self).arena()[node as int].level,
            forall|u: int, v: int|
                0 <= u < side_of((old(self).arena()[node as int].level - 1) as nat) && 0 <= v
                    < side_of((old(self).arena()[node as int].level - 1) as nat) ==> #[trigger] node_cell(
                    final(self).arena(),
                    res as int,
                    u,
                    v,
                ) == node_cell(
                    old(self).arena(),
                    node as int,
                    u + side_of((old(self).arena()[node as int].level - 2) as nat),
                    v + side_of((old(self).arena()[node as int].level - 2) as nat),
                ),
    {
        let ghost a0 = self.arena();
        proof {
            assert(node_wf(a0, node as int));
            lemma_side_unfold(a0[node as int].level as nat);
            lemma_side_unfold((a0[node as int].level - 1) as nat);
        }
        let (nw, ne, sw, se) = self.quads(node);
        proof {
            assert(node_wf(a0, nw as int));
            assert(node_wf(a0, ne as int));
            assert(node_wf(a0, sw as int));
            assert(node_wf(a0, se as int));
        }
        let (_a, _b, _c, nw_se) = self.quads(nw);
        let (_d, _e, ne_sw, _f) = self.quads(ne);
        let (_g, sw_ne, _h, _i) = self.quads(sw);
        let (se_nw, _j, _k, _l) = self.quads(se);
        let res = self.u_get_inner(nw_se, ne_sw, sw_ne, se_nw);
        proof {
            let af = self.arena();
            lemma_cell_extends(af, a0, nw_se as int);
            lemma_cell_extends(af, a0, ne_sw as int);
            lemma_cell_extends(af, a0, sw_ne as int);
            lemma_cell_extends(af, a0, se_nw as int);
            lemma_cell_dispatch(af, res as int);
            lemma_cell_dispatch(a0, node as int);
            lemma_cell_dispatch(a0, nw as int);
            lemma_cell_dispatch(a0, ne as int);
            lemma_cell_dispatch(a0, sw as int);
            lemma_cell_dispatch(a0, se as int);
            let q = side_of((a0[node as int].level - 2) as nat);
            assert forall|u: int, v: int| 0 <= u < 2 * q && 0 <= v < 2 * q implies #[trigger] node_cell(
                af,
                res as int,
                u,
                v,
            ) == node_cell(a0, node as int, u + q, v + q) by {
                if u < q {
                    if v < q {
                        assert(node_cell(af, res as int, u, v) == node_cell(a0, nw_se as int, u, v));
                        assert(node_cell(a0, node as int, u + q, v + q) == node_cell(
                            a0,
                            nw as int,
                            u + q,
                            v + q,
                        ));
                    } else {
                        assert(node_cell(af, res as int, u, v) == node_cell(
                            a0,
                            sw_ne as int,
                            u,
                            v - q,
                        ));
                        assert(node_cell(a0, node as int, u + q, v + q) == node_cell(
                            a0,
                            sw as int,
                            u + q,
                            v + q - 2 * q,
                        ));
                    }
                } else {
                    if v < q {
                        assert(node_cell(af, res as int, u, v) == node_cell(
                            a0,
                            ne_sw as int,
                            u - q,
                            v,
                        ));
                        assert(node_cell(a0, node as int, u + q, v + q) == node_cell(
                            a0,
                            ne as int,
                            u + q - 2 * q,
                            v + q,
                        ));
                    } else {
                        assert(node_cell(af, res as int, u, v) == node_cell(
                            a0,
                            se_nw as int,
                            u - q,
                            v - q,
                        ));
                        assert(node_cell(a0, node as int, u + q, v + q) == node_cell(
                            a0,
                            se as int,
                            u + q - 2 * q,
                            v + q - 2 * q,
                        ));
                    }
                }
            };
        }
        res
    }

    /// The four mid-strip regions and the center region of `node`, each the
    /// canonical node one level down reading a window of `node`.
    fn build_centers(&mut self, node: usize, nw: usize, ne: usize, sw: usize, se: usize) -> (t: (
        usize,
        usize,
        usize,
        usize,
        usize,
    ))
        requires
            old(self).cache_ok(),
            node < old(self).arena().len(),
            old(self).arena()[node as int].level >= 3,
            old(self).arena()[node as int].content == (NodeContent::Inner { nw, ne, sw, se }),
        ensures
            final(self).cache_ok(),
            extends(final(self).arena(), old(self).arena()),
            final(self).root == old(self).root,
            final(self).generation == old(self).generation,
            final(self).size_level == old(self).size_level,
            forall|i: int|
                0 <= i < old(self).results@.len() ==> #[trigger] final(self).results@[i] == old(self).results@[i],
            t.0 < final(self).arena().len() && t.1 < final(self).arena().len() && t.2 < final(self).arena().len() && t.3 < final(self).arena().len() && t.4 < final(self).arena().len(),
            final(self).arena()[t.0 as int].level + 1 == old(self).arena()[node as int].level,
            final(self).arena()[t.1 as int].level + 1 == old(self).arena()[node as int].level,
            final(self).arena()[t.2 as int].level + 1 == old(self).arena()[node as int].level,
            final(self).arena()[t.3 as int].level + 1 == old(self).arena()[node as int].level,
            final(self).arena()[t.4 as int].level + 1 == old(self).arena()[node as int].level,
            forall|u: int, v: int|
                0 <= u < 2 * side_of((old(self).arena()[node as int].level - 2) as nat) && 0 <= v
                    < 2 * side_of((old(self).arena()[node as int].level - 2) as nat)
                    ==> #[trigger] node_cell(final(self).arena(), t.0 as int, u, v) == (if u
                    < side_of((old(self).arena()[node as int].level - 2) as nat) {
                    node_cell(
                        old(self).arena(),
                        nw as int,
                        u + side_of((old(self).arena()[node as int].level - 2) as nat),
                        v,
                    )
                } else {
                    node_cell(
                        old(self).arena(),
                        ne as int,
                        u - side_of((old(self).arena()[node as int].level - 2) as nat),
                        v,
                    )
                }),
            forall|u: int, v: int|
                0 <= u < 2 * side_of((old(self).arena()[node as int].level - 2) as nat) && 0 <= v
                    < 2 * side_of((old(self).arena()[node as int].level - 2) as nat)
                    ==> #[trigger] node_cell(final(self).arena(), t.1 as int, u, v) == (if v
                    < side_of((old(self).arena()[node as int].level - 2) as nat) {
                    node_cell(
                        old(self).arena(),
                        nw as int,
                        u,
                        v + side_of((old(self).arena()[node as int].level - 2) as nat),
                    )
                } else {
                    node_cell(
                        old(self).arena(),
                        sw as int,
                        u,
                        v - side_of((old(self).arena()[node as int].level - 2) as nat),
                    )
                }),
            forall|u: int, v: int|
                0 <= u < 2 * side_of((old(self).arena()[node as int].level - 2) as nat) && 0 <= v
                    < 2 * side_of((old(self).arena()[node as int].level - 2) as nat)
                    ==> #[trigger] node_cell(final(self).arena(), t.2 as int, u, v) == (if v
                    < side_of((old(self).arena()[node as int].level - 2) as nat) {
                    node_cell(
                        old(self).arena(),
                        ne as int,
                        u,
                        v + side_of((old(self).arena()[node as int].level - 2) as nat),
                    )
                } else {
                    node_cell(
                        old(self).arena(),
                        se as int,
                        u,
                        v - side_of((old(self).arena()[node as int].level - 2) as nat),
                    )
                }),
            forall|u: int, v: int|
                0 <= u < 2 * side_of((old(self).arena()[node as int].level - 2) as nat) && 0 <= v
                    < 2 * side_of((old(self).arena()[node as int].level - 2) as nat)
                    ==> #[trigger] node_cell(final(self).arena(), t.3 as int, u, v) == (if u
                    < side_of((old(self).arena()[node as int].level - 2) as nat) {
                    node_cell(
                        old(self).arena(),
                        sw as int,
                        u + side_of((old(self).arena()[node as int].level - 2) as nat),
                        v,
                    )
                } else {
                    node_cell(
                        old(self).arena(),
                        se as int,
                        u - side_of((old(self).arena()[node as int].level - 2) as nat),
                        v,
                    )
                }),
            forall|u: int, v: int|
                0 <= u < 2 * side_of((old(self).arena()[node as int].level - 2) as nat) && 0 <= v
                    < 2 * side_of((old(self).arena()[node as int].level - 2) as nat)
                    ==> #[trigger] node_cell(final(self).arena(), t.4 as int, u, v) == node_cell(
                    old(self).arena(),
                    node as int,
                    u + side_of((old(self).arena()[node as int].level - 2) as nat),
                    v + side_of((old(self).arena()[node as int].level - 2) as nat),
                ),
    {
        let ghost a0 = self.arena();
        let ghost lvl = a0[node as int].level;
        let ghost qq = side_of((lvl - 2) as nat);
        proof {
            lemma_side_unfold(lvl as nat);
            lemma_side_unfold((lvl - 1) as nat);
            lemma_side_unfold((lvl - 2) as nat);
            assert(node_wf(a0, node as int));
            assert(node_wf(a0, nw as int));
            assert(node_wf(a0, ne as int));
            assert(node_wf(a0, sw as int));
            assert(node_wf(a0, se as int));
        }
        let c01 = self.center_subnode_horizontal(nw, ne);
        let ghost ac1 = self.arena();
        proof {
            assert(ac1[nw as int] == a0[nw as int]);
            assert(ac1[sw as int] == a0[sw as int]);
        }
        let c10 = self.center_subnode_vertical(nw, sw);
        let ghost ac2 = self.arena();
        proof {
            lemma_extends_trans(ac2, ac1, a0);
            assert(ac2[ne as int] == a0[ne as int]);
            assert(ac2[se as int] == a0[se as int]);
        }
        let c12 = self.center_subnode_vertical(ne, se);
        let ghost ac3 = self.arena();
        proof {
            lemma_extends_trans(ac3, ac2, a0);
            assert(ac3[sw as int] == a0[sw as int]);
            assert(ac3[se as int] == a0[se as int]);
        }
        let c21 = self.center_subnode_horizontal(sw, se);
        let ghost ac4 = self.arena();
        proof {
            lemma_extends_trans(ac4, ac3, a0);
            assert(ac4[node as int] == a0[node as int]);
        }
        let cc = self.center_node(node);
        proof {
            let ac5 = self.arena();
            lemma_extends_trans(ac5, ac4, a0);
            lemma_extends_trans(ac5, ac4, ac1);
            lemma_extends_trans(ac5, ac4, ac2);
            lemma_extends_trans(ac5, ac4, ac3);
            assert(ac5[c01 as int] == ac1[c01 as int]);
            assert(ac5[c10 as int] == ac2[c10 as int]);
            assert(ac5[c12 as int] == ac3[c12 as int]);
            assert(ac5[c21 as int] == ac4[c21 as int]);
            lemma_cell_extends(ac5, ac1, c01 as int);
            lemma_cell_extends(ac5, ac2, c10 as int);
            lemma_cell_extends(ac5, ac3, c12 as int);
            lemma_cell_extends(ac5, ac4, c21 as int);
            lemma_cell_extends(ac1, a0, nw as int);
            lemma_cell_extends(ac1, a0, sw as int);
            lemma_cell_extends(ac2, a0, ne as int);
            lemma_cell_extends(ac2, a0, se as int);
            lemma_cell_extends(ac3, a0, sw as int);
            lemma_cell_extends(ac3, a0, se as int);
            lemma_cell_extends(ac4, a0, node as int);
            assert forall|u: int, v: int| 0 <= u < 2 * qq && 0 <= v < 2 * qq implies
                #[trigger] node_cell(ac5, c01 as int, u, v) == (if u < qq {
                node_cell(a0, nw as int, u + qq, v)
            } else {
                node_cell(a0, ne as int, u - qq, v)
            }) by {
                assert(node_cell(ac5, c01 as int, u, v) == node_cell(ac1, c01 as int, u, v));
            };
            assert forall|u: int, v: int| 0 <= u < 2 * qq && 0 <= v < 2 * qq implies
                #[trigger] node_cell(ac5, c10 as int, u, v) == (if v < qq {
                node_cell(a0, nw as int, u, v + qq)
            } else {
                node_cell(a0, sw as int, u, v - qq)
            }) by {
                assert(node_cell(ac5, c10 as int, u, v) == node_cell(ac2, c10 as int, u, v));
                if v < qq {
                    assert(node_cell(ac1, nw as int, u, v + qq) == node_cell(a0, nw as int, u, v + qq));
                } else {
                    assert(node_cell(ac1, sw as int, u, v - qq) == node_cell(a0, sw as int, u, v - qq));
                }
            };
            assert forall|u: int, v: int| 0 <= u < 2 * qq && 0 <= v < 2 * qq implies
                #[trigger] node_cell(ac5, c12 as int, u, v) == (if v < qq {
                node_cell(a0, ne as int, u, v + qq)
            } else {
                node_cell(a0, se as int, u, v - qq)
            }) by {
                assert(node_cell(ac5, c12 as int, u, v) == node_cell(ac3, c12 as int, u, v));
                if v < qq {
                    assert(node_cell(ac2, ne as int, u, v + qq) == node_cell(a0, ne as int, u, v + qq));
                } else {
                    assert(node_cell(ac2, se as int, u, v - qq) == node_cell(a0, se as int, u, v - qq));
                }
            };
            assert forall|u: int, v: int| 0 <= u < 2 * qq && 0 <= v < 2 * qq implies
                #[trigger] node_cell(ac5, c21 as int, u, v) == (if u < qq {
                node_cell(a0, sw as int, u + qq, v)
            } else {
                node_cell(a0, se as int, u - qq, v)
            }) by {
                assert(node_cell(ac5, c21 as int, u, v) == node_cell(ac4, c21 as int, u, v));
                if u < qq {
                    assert(node_cell(ac3, sw as int, u + qq, v) == node_cell(a0, sw as int, u + qq, v));
                } else {
                    assert(node_cell(ac3, se as int, u - qq, v) == node_cell(a0, se as int, u - qq, v));
                }
            };
            assert forall|u: int, v: int| 0 <= u < 2 * qq && 0 <= v < 2 * qq implies
                #[trigger] node_cell(ac5, cc as int, u, v) == node_cell(
                a0,
                node as int,
                u + qq,
                v + qq,
            ) by {
                assert(node_cell(ac4, node as int, u + qq, v + qq) == node_cell(
                    a0,
                    node as int,
                    u + qq,
                    v + qq,
                ));
            };
        }
        (c01, c10, c12, c21, cc)
    }

    /// One generation forward for each of the nine regions, memoized.
    fn nine_results(
        &mut self,
        node: usize,
        nw: usize,
        ne: usize,
        sw: usize,
        se: usize,
        c01: usize,
        c10: usize,
        c12: usize,
        c21: usize,
        cc: usize,
    ) -> (t: (usize, usize, usize, usize, usize, usize, usize, usize, usize))
        requires
            old(self).cache_ok(),
            node < old(self).arena().len(),
            old(self).arena()[node as int].level >= 3,
            nw < old(self).arena().len() && ne < old(self).arena().len() && sw < old(self).arena().len() && se < old(self).arena().len(),
            c01 < old(self).arena().len() && c10 < old(self).arena().len() && c12 < old(self).arena().len() && c21 < old(self).arena().len() && cc < old(self).arena().len(),
            old(self).arena()[nw as int].level + 1 == old(self).arena()[node as int].level,
            old(self).arena()[ne as int].level + 1 == old(self).arena()[node as int].level,
            old(self).arena()[sw as int].level + 1 == old(self).arena()[node as int].level,
            old(self).arena()[se as int].level + 1 == old(self).arena()[node as int].level,
            old(self).arena()[c01 as int].level + 1 == old(self).arena()[node as int].level,
            old(self).arena()[c10 as int].level + 1 == old(self).arena()[node as int].level,
            old(self).arena()[c12 as int].level + 1 == old(self).arena()[node as int].level,
            old(self).arena()[c21 as int].level + 1 == old(self).arena()[node as int].level,
            old(self).arena()[cc as int].level + 1 == old(self).arena()[node as int].level,
        ensures
            final(self).cache_ok(),
            extends(final(self).arena(), old(self).arena()),
            final(self).root == old(self).root,
            final(self).generation == old(self).generation,
            final(self).size_level == old(self).size_level,
            forall|i: int|
                0 <= i < old(self).results@.len() && (#[trigger] old(self).results@[i]) is Some
                    ==> final(self).results@[i] == old(self).results@[i],
            result_entry_ok(final(self).arena(), nw as int, t.0 as int),
            result_entry_ok(final(self).arena(), c01 as int, t.1 as int),
            result_entry_ok(final(self).arena(), ne as int, t.2 as int),
            result_entry_ok(final(self).arena(), c10 as int, t.3 as int),
            result_entry_ok(final(self).arena(), cc as int, t.4 as int),
            result_entry_ok(final(self).arena(), c12 as int, t.5 as int),
            result_entry_ok(final(self).arena(), sw as int, t.6 as int),
            result_entry_ok(final(self).arena(), c21 as int, t.7 as int),
            result_entry_ok(final(self).arena(), se as int, t.8 as int),
        decreases old(self).arena()[node as int].level, 0nat,
    {
        let ghost a0 = self.arena();
        let n00 = self.next_generation_single(nw);
        let ghost an1 = self.arena();
        proof {
            assert(an1[c01 as int] == a0[c01 as int]);
        }
        let n01 = self.next_generation_single(c01);
        let ghost an2 = self.arena();
        proof {
            lemma_extends_trans(an2, an1, a0);
            assert(an2[ne as int] == a0[ne as int]);
        }
        let n02 = self.next_generation_single(ne);
        let ghost an3 = self.arena();
        proof {
            lemma_extends_trans(an3, an2, a0);
            assert(an3[c10 as int] == a0[c10 as int]);
        }
        let n10 = self.next_generation_single(c10);
        let ghost an4 = self.arena();
        proof {
            lemma_extends_trans(an4, an3, a0);
            assert(an4[cc as int] == a0[cc as int]);
        }
        let n11 = self.next_generation_single(cc);
        let ghost an5 = self.arena();
        proof {
            lemma_extends_trans(an5, an4, a0);
            assert(an5[c12 as int] == a0[c12 as int]);
        }
        let n12 = self.next_generation_single(c12);
        let ghost an6 = self.arena();
        proof {
            lemma_extends_trans(an6, an5, a0);
            assert(an6[sw as int] == a0[sw as int]);
        }
        let n20 = self.next_generation_single(sw);
        let ghost an7 = self.arena();
        proof {
            lemma_extends_trans(an7, an6, a0);
            assert(an7[c21 as int] == a0[c21 as int]);
        }
        let n21 = self.next_generation_single(c21);
        let ghost an8 = self.arena();
        proof {
            lemma_extends_trans(an8, an7, a0);
            assert(an8[se as int] == a0[se as int]);
        }
        let n22 = self.next_generation_single(se);
        proof {
            let anf = self.arena();
            lemma_extends_trans(anf, an8, an7);
            lemma_extends_trans(anf, an8, an6);
            lemma_extends_trans(anf, an8, an5);
            lemma_extends_trans(anf, an8, an4);
            lemma_extends_trans(anf, an8, an3);
            lemma_extends_trans(anf, an8, an2);
            lemma_extends_trans(anf, an8, an1);
            lemma_extends_trans(anf, an1, a0);
            crate::model::lemma_entry_ok_extends(anf, an1, nw as int, n00 as int);
            crate::model::lemma_entry_ok_extends(anf, an2, c01 as int, n01 as int);
            crate::model::lemma_entry_ok_extends(anf, an3, ne as int, n02 as int);
            crate::model::lemma_entry_ok_extends(anf, an4, c10 as int, n10 as int);
            crate::model::lemma_entry_ok_extends(anf, an5, cc as int, n11 as int);
            crate::model::lemma_entry_ok_extends(anf, an6, c12 as int, n12 as int);
            crate::model::lemma_entry_ok_extends(anf, an7, sw as int, n20 as int);
            crate::model::lemma_entry_ok_extends(anf, an8, c21 as int, n21 as int);
        }
        (n00, n01, n02, n10, n11, n12, n20, n21, n22)
    }

    /// Whether the whole population sits in the four innermost
    /// sub-sub-quadrants of the root, read off the cached population counts.
    /// The window then need not grow before a step.
    pub open(crate) spec fn pop_confined(self) -> bool {
        let a = self.arena();
        let r = self.root as int;
        a[r].population as int == a[quad_se(a, quad_se(a, quad_nw(a, r)))].population as int
            + a[quad_sw(a, quad_sw(a, quad_ne(a, r)))].population as int + a[quad_ne(
            a,
            quad_ne(a, quad_sw(a, r)),
        )].population as int + a[quad_nw(a, quad_nw(a, quad_se(a, r)))].population as int
    }

    /// Decides [`Universe::pop_confined`]. When the population is confined,
    /// a single step cannot carry live cells outside the centered half.
    fn is_confined(&self) -> (r: bool)
        requires
            self.inv(),
        ensures
            r == self.pop_confined(),
            r ==> forall|x: int, y: int|
                #[trigger] self.cell_alive(x, y) ==> -side_of((self.root_lvl() - 3) as nat) <= x
                    < side_of((self.root_lvl() - 3) as nat) && -side_of(
                    (self.root_lvl() - 3) as nat,
                ) <= y < side_of((self.root_lvl() - 3) as nat),
    {
        proof {
            assert(node_wf(self.arena(), self.root as int));
        }
        let (c_nw, c_ne, c_sw, c_se) = self.quads(self.root);
        proof {
            assert(node_wf(self.arena(), c_nw as int));
            assert(node_wf(self.arena(), c_ne as int));
            assert(node_wf(self.arena(), c_sw as int));
            assert(node_wf(self.arena(), c_se as int));
        }
        let (_g1, _g2, _g3, g_nw) = self.quads(c_nw);
        let (_g4, _g5, g_ne, _g6) = self.quads(c_ne);
        let (_g7, g_sw, _g8, _g9) = self.quads(c_sw);
        let (g_se, _ga, _gb, _gc) = self.quads(c_se);
        proof {
            assert(node_wf(self.arena(), g_nw as int));
            assert(node_wf(self.arena(), g_ne as int));
            assert(node_wf(self.arena(), g_sw as int));
            assert(node_wf(self.arena(), g_se as int));
        }
        let (_h1, _h2, _h3, i_nw) = self.quads(g_nw);
        let (_h4, _h5, i_ne, _h6) = self.quads(g_ne);
        let (_h7, i_sw, _h8, _h9) = self.quads(g_sw);
        let (i_se, _ha, _hb, _hc) = self.quads(g_se);
        let p_nw = self.cache.node(i_nw).population;
        let p_ne = self.cache.node(i_ne).population;
        let p_sw = self.cache.node(i_sw).population;
        let p_se = self.cache.node(i_se).population;
        let total = self.cache.node(self.root).population;
        let interior = p_nw + p_ne + p_sw + p_se;
        let r = interior == total;
        proof {
            if r {
                lemma_confined_cells(self.arena(), self.root);
                let e = side_of((self.root_lvl() - 3) as nat);
                lemma_side_unfold(self.root_lvl());
                lemma_side_unfold((self.root_lvl() - 1) as nat);
                lemma_side_unfold((self.root_lvl() - 2) as nat);
                assert forall|x: int, y: int| #[trigger] self.cell_alive(x, y) implies -e <= x < e
                    && -e <= y < e by {
                    assert(node_cell(self.arena(), self.root as int, x + self.half(), y + self.half()));
                };
            }
        }
        r
    }

    /// Advances the universe by exactly one Conway generation: every cell of
    /// the plane takes the value the rule gives it, and the generation
    /// counter grows by one. Fails, changing nothing, only when the pattern
    /// presses against the largest supported window.
    pub fn step(&mut self) -> (r: Result<(), UniverseError>)
        requires
            old(self).inv(),
            old(self).gens() < u64::MAX,
        ensures
            final(self).inv(),
            final(self).size_lvl() == old(self).size_lvl(),
            r is Err ==> *final(self) == *old(self) && r == Err::<(), UniverseError>(
                UniverseError::NotRepresentable,
            ),
            r is Ok ==> final(self).gens() == old(self).gens() + 1,
            r is Ok ==> forall|x: int, y: int|
                #[trigger] final(self).cell_alive(x, y) == old(self).next_alive(x, y),
            r is Ok <==> (old(self).pop_confined() || old(self).root_lvl() + 2 <= MAX_LEVEL),
            r is Ok ==> final(self).root_lvl() == (if old(self).pop_confined() {
                old(self).root_lvl()
            } else {
                old(self).root_lvl() + 2
            }),
            old(self).pop() == 0 ==> old(self).pop_confined(),
            r is Ok && old(self).pop() == 0 ==> final(self).pop() == 0,
    {
        proof {
            if self.pop() == 0 {
                let a = self.arena();
                let rt = self.root as int;
                assert(node_wf(a, rt));
                assert(node_wf(a, quad_nw(a, rt)));
                assert(node_wf(a, quad_ne(a, rt)));
                assert(node_wf(a, quad_sw(a, rt)));
                assert(node_wf(a, quad_se(a, rt)));
                assert(node_wf(a, quad_se(a, quad_nw(a, rt))));
                assert(node_wf(a, quad_sw(a, quad_ne(a, rt))));
                assert(node_wf(a, quad_ne(a, quad_sw(a, rt))));
                assert(node_wf(a, quad_nw(a, quad_se(a, rt))));
                assert(self.pop_confined());
            }
        }
        let confined = self.is_confined();
        if !confined {
            if self.root_level() > MAX_LEVEL - 2 {
                return Err(UniverseError::NotRepresentable);
            }
            self.expand();
            self.expand();
        }
        let ghost u1 = *self;
        proof {
            lemma_side_unfold(u1.root_lvl());
            lemma_side_unfold((u1.root_lvl() - 1) as nat);
            lemma_side_unfold((u1.root_lvl() - 2) as nat);
            // all live cells sit within the centered quarter-side square
            assert forall|x: int, y: int| #[trigger] u1.cell_alive(x, y) implies -side_of(
                (u1.root_lvl() - 3) as nat,
            ) <= x < side_of((u1.root_lvl() - 3) as nat) && -side_of((u1.root_lvl() - 3) as nat)
                <= y < side_of((u1.root_lvl() - 3) as nat) by {
                if !confined {
                    assert(old(self).cell_alive(x, y));
                }
            };
            assert(node_wf(u1.arena(), u1.root as int));
        }
        let root = self.root;
        let result = self.next_generation_single(root);
        let ghost a1 = self.arena();
        proof {
            assert(a1[result as int].level >= 2);
            assert(a1[result as int].content is Inner);
        }
        let new_root = self.embed_center(result);
        self.root = new_root;
        self.generation = self.generation + 1;
        proof {
            let af = self.arena();
            let q = side_of((u1.root_lvl() - 2) as nat);
            let e = side_of((u1.root_lvl() - 3) as nat);
            lemma_extends_trans(af, a1, u1.arena());
            assert(af[result as int] == a1[result as int]);
            crate::model::lemma_entry_ok_extends(af, a1, root as int, result as int);
            lemma_side_unfold((u1.root_lvl() - 1) as nat);
            lemma_side_unfold((u1.root_lvl() - 2) as nat);
            lemma_step_semantics(u1, *self, a1, root, result, q, e);
            lemma_next_alive_congruent(u1, *old(self));
            if old(self).pop() == 0 {
                lemma_result_of_dead_is_empty(a1, u1.arena(), root, result);
            }
            assert forall|x: int, y: int|
                #[trigger] self.cell_alive(x, y) == old(self).next_alive(x, y) by {
                assert(self.cell_alive(x, y) == u1.next_alive(x, y));
                assert(u1.next_alive(x, y) == old(self).next_alive(x, y));
            };
        }
        Ok(())
    }

    /// The node one generation forward: for a node of level `k >= 2`, the
    /// canonical level-`k - 1` node holding the next state of the centered
    /// half-size square. Memoized by node identity, which is sound because a
    /// canonical node's cells never change.
    #[verifier::rlimit(100)]
    pub(crate) fn next_generation_single(&mut self, node: usize) -> (r: usize)
        requires
            old(self).cache_ok(),
            node < old(self).arena().len(),
            old(self).arena()[node as int].level >= 2,
        ensures
            final(self).cache_ok(),
            extends(final(self).arena(), old(self).arena()),
            final(self).root == old(self).root,
            final(self).generation == old(self).generation,
            final(self).size_level == old(self).size_level,
            forall|i: int|
                0 <= i < old(self).results@.len() && (#[trigger] old(self).results@[i]) is Some
                    ==> final(self).results@[i] == old(self).results@[i],
            final(self).results@[node as int] == Some(r),
            result_entry_ok(final(self).arena(), node as int, r as int),
        decreases old(self).arena()[node as int].level, 1nat,
    {
        let ghost a0 = self.arena();
        let ghost res0 = self.results@;
        proof {
            assert(node_wf(a0, node as int));
        }
        let memo = self.results[node];
        if let Some(m) = memo {
            proof {
                assert(res0[node as int] is Some);
                assert(result_entry_ok(a0, node as int, m as int));
            }
            return m;
        }
        let n = self.cache.node(node);
        if n.level == 2 {
            let r = self.compute_level2(node);
            let ghost res_pre = self.results@;
            self.results.set(node, Some(r));
            proof {
                let af = self.arena();
                lemma_next_cell_extends(af, a0, node as int);
                lemma_small_pow2();
                assert forall|x: int, y: int| 0 <= x < 2 && 0 <= y < 2 implies #[trigger] node_cell(
                    af,
                    r as int,
                    x,
                    y,
                ) == next_cell(af, node as int, x + 1, y + 1) by {
                    assert(node_cell(af, r as int, x, y) == next_cell(a0, node as int, x + 1, y + 1));
                };
                assert(result_entry_ok(af, node as int, r as int));
                assert forall|i: int|
                    0 <= i < self.results@.len() && (#[trigger] self.results@[i]) is Some implies
                    result_entry_ok(af, i, self.results@[i]->0 as int) by {
                    if i != node {
                        assert(self.results@[i] == res_pre[i]);
                    }
                };
            }
            return r;
        }
        let ghost lvl = a0[node as int].level;
        let ghost qq = side_of((lvl - 2) as nat);
        let ghost ee = side_of((lvl - 3) as nat);
        proof {
            lemma_side_unfold(lvl as nat);
            lemma_side_unfold((lvl - 1) as nat);
            lemma_side_unfold((lvl - 2) as nat);
        }
        let (nw, ne, sw, se) = self.quads(node);
        proof {
            assert(node_wf(a0, nw as int));
            assert(node_wf(a0, ne as int));
            assert(node_wf(a0, sw as int));
            assert(node_wf(a0, se as int));
        }
        let (c01, c10, c12, c21, cc) = self.build_centers(node, nw, ne, sw, se);
        let ghost acf = self.arena();
        let ghost res_bc = self.results@;
        proof {
            assert(acf[nw as int] == a0[nw as int]);
            assert(acf[ne as int] == a0[ne as int]);
            assert(acf[sw as int] == a0[sw as int]);
            assert(acf[se as int] == a0[se as int]);
        }
        let (n00, n01, n02, n10, n11, n12, n20, n21, n22) = self.nine_results(
            node,
            nw,
            ne,
            sw,
            se,
            c01,
            c10,
            c12,
            c21,
            cc,
        );
        let ghost anf = self.arena();
        let ghost res_n9 = self.results@;
        let (_k00a, _k00b, _k00c, b00) = self.quads(n00);
        let (_k01a, _k01b, b01a, b01b) = self.quads(n01);
        let (_k02a, _k02b, b02, _k02c) = self.quads(n02);
        let (_k10a, b10a, _k10b, b10b) = self.quads(n10);
        let (b11a, b11b, b11c, b11d) = self.quads(n11);
        let (b12a, _k12a, b12b, _k12b) = self.quads(n12);
        let (_k20a, b20, _k20b, _k20c) = self.quads(n20);
        let (b21a, b21b, _k21a, _k21b) = self.quads(n21);
        let (b22, _k22a, _k22b, _k22c) = self.quads(n22);
        let r_nw = self.u_get_inner(b00, b01a, b10a, b11a);
        let ghost ai1 = self.arena();
        proof {
            assert(ai1[b01b as int] == anf[b01b as int]);
            assert(ai1[b02 as int] == anf[b02 as int]);
            assert(ai1[b11b as int] == anf[b11b as int]);
            assert(ai1[b12a as int] == anf[b12a as int]);
        }
        let ghost res_i1 = self.results@;
        let r_ne = self.u_get_inner(b01b, b02, b11b, b12a);
        let ghost ai2 = self.arena();
        proof {
            lemma_extends_trans(ai2, ai1, anf);
            assert(ai2[b10b as int] == anf[b10b as int]);
            assert(ai2[b11c as int] == anf[b11c as int]);
            assert(ai2[b20 as int] == anf[b20 as int]);
            assert(ai2[b21a as int] == anf[b21a as int]);
        }
        let ghost res_i2 = self.results@;
        let r_sw = self.u_get_inner(b10b, b11c, b20, b21a);
        let ghost ai3 = self.arena();
        proof {
            lemma_extends_trans(ai3, ai2, anf);
            assert(ai3[b11d as int] == anf[b11d as int]);
            assert(ai3[b12b as int] == anf[b12b as int]);
            assert(ai3[b21b as int] == anf[b21b as int]);
            assert(ai3[b22 as int] == anf[b22 as int]);
        }
        let ghost res_i3 = self.results@;
        let r_se = self.u_get_inner(b11d, b12b, b21b, b22);
        let ghost ai4 = self.arena();
        proof {
            lemma_extends_trans(ai4, ai3, ai1);
            lemma_extends_trans(ai4, ai3, ai2);
            assert(ai4[r_nw as int] == ai1[r_nw as int]);
            assert(ai4[r_ne as int] == ai2[r_ne as int]);
            assert(ai4[r_sw as int] == ai3[r_sw as int]);
        }
        let r = self.u_get_inner(r_nw, r_ne, r_sw, r_se);
        let ghost res_pre = self.results@;
        self.results.set(node, Some(r));
        proof {
            let af = self.arena();
            lemma_extends_trans(af, ai4, ai3);
            lemma_extends_trans(af, ai4, ai2);
            lemma_extends_trans(af, ai4, ai1);
            lemma_extends_trans(af, ai1, anf);
            lemma_extends_trans(af, anf, acf);
            lemma_extends_trans(af, acf, a0);
            assert(af[node as int] == a0[node as int]);
            assert(af[nw as int] == a0[nw as int]);
            assert(af[ne as int] == a0[ne as int]);
            assert(af[sw as int] == a0[sw as int]);
            assert(af[se as int] == a0[se as int]);
            assert(af[c01 as int] == acf[c01 as int]);
            assert(af[c10 as int] == acf[c10 as int]);
            assert(af[c12 as int] == acf[c12 as int]);
            assert(af[c21 as int] == acf[c21 as int]);
            assert(af[cc as int] == acf[cc as int]);
            assert(af[n00 as int] == anf[n00 as int]);
            assert(af[n01 as int] == anf[n01 as int]);
            assert(af[n02 as int] == anf[n02 as int]);
            assert(af[n10 as int] == anf[n10 as int]);
            assert(af[n11 as int] == anf[n11 as int]);
            assert(af[n12 as int] == anf[n12 as int]);
            assert(af[n20 as int] == anf[n20 as int]);
            assert(af[n21 as int] == anf[n21 as int]);
            assert(af[n22 as int] == anf[n22 as int]);
            assert(af[r_nw as int] == ai1[r_nw as int]);
            assert(af[r_ne as int] == ai2[r_ne as int]);
            assert(af[r_sw as int] == ai3[r_sw as int]);
            assert(af[r_se as int] == ai4[r_se as int]);
            crate::model::lemma_entry_ok_extends(af, anf, nw as int, n00 as int);
            crate::model::lemma_entry_ok_extends(af, anf, c01 as int, n01 as int);
            crate::model::lemma_entry_ok_extends(af, anf, ne as int, n02 as int);
            crate::model::lemma_entry_ok_extends(af, anf, c10 as int, n10 as int);
            crate::model::lemma_entry_ok_extends(af, anf, cc as int, n11 as int);
            crate::model::lemma_entry_ok_extends(af, anf, c12 as int, n12 as int);
            crate::model::lemma_entry_ok_extends(af, anf, sw as int, n20 as int);
            crate::model::lemma_entry_ok_extends(af, anf, c21 as int, n21 as int);
            crate::model::lemma_entry_ok_extends(af, anf, se as int, n22 as int);
            lemma_region_windows(
                af,
                a0,
                acf,
                node,
                nw,
                ne,
                sw,
                se,
                c01,
                c10,
                c12,
                c21,
                cc,
                qq,
                ee,
            );
            assert(quad_se(af, n00 as int) == b00 as int);
            assert(quad_sw(af, n01 as int) == b01a as int);
            assert(quad_se(af, n01 as int) == b01b as int);
            assert(quad_sw(af, n02 as int) == b02 as int);
            assert(quad_ne(af, n10 as int) == b10a as int);
            assert(quad_se(af, n10 as int) == b10b as int);
            assert(quad_nw(af, n11 as int) == b11a as int);
            assert(quad_ne(af, n11 as int) == b11b as int);
            assert(quad_sw(af, n11 as int) == b11c as int);
            assert(quad_se(af, n11 as int) == b11d as int);
            assert(quad_nw(af, n12 as int) == b12a as int);
            assert(quad_sw(af, n12 as int) == b12b as int);
            assert(quad_ne(af, n20 as int) == b20 as int);
            assert(quad_nw(af, n21 as int) == b21a as int);
            assert(quad_ne(af, n21 as int) == b21b as int);
            assert(quad_nw(af, n22 as int) == b22 as int);
            lemma_nine_assembly(
                af,
                node,
                nw,
                ne,
                sw,
                se,
                c01,
                c10,
                c12,
                c21,
                cc,
                n00,
                n01,
                n02,
                n10,
                n11,
                n12,
                n20,
                n21,
                n22,
                r_nw,
                r_ne,
                r_sw,
                r_se,
                r,
                qq,
                ee,
            );
            assert(result_entry_ok(af, node as int, r as int));
            assert forall|i: int|
                0 <= i < self.results@.len() && (#[trigger] self.results@[i]) is Some implies
                result_entry_ok(af, i, self.results@[i]->0 as int) by {
                if i != node {
                    assert(self.results@[i] == res_pre[i]);
                }
            };
            assert forall|i: int|
                0 <= i < res0.len() && (#[trigger] res0[i]) is Some implies self.results@[i]
                    == res0[i] by {
                assert(res_bc[i] == res0[i]);
                assert(res_n9[i] == res_bc[i]);
                assert(res_i1[i] == res_n9[i]);
                assert(res_i2[i] == res_i1[i]);
                assert(res_i3[i] == res_i2[i]);
                assert(res_pre[i] == res_i3[i]);
                assert(i != node);
            };
        }
        r
    }
}


/// Each of the nine regions reads, cell for cell, a window of `node`: the
/// four children at the corners, the four mid-strips, and the center, at
/// offsets that are multiples of half a child's side.
#[verifier::rlimit(100)]
proof fn lemma_region_windows(
    af: Seq<crate::node::Node>,
    a0: Seq<crate::node::Node>,
    acf: Seq<crate::node::Node>,
    node: usize,
    nw: usize,
    ne: usize,
    sw: usize,
    se: usize,
    c01: usize,
    c10: usize,
    c12: usize,
    c21: usize,
    cc: usize,
    qq: int,
    ee: int,
)
    requires
        crate::model::arena_wf(a0),
        crate::model::arena_wf(acf),
        crate::model::arena_wf(af),
        extends(acf, a0),
        extends(af, acf),
        extends(af, a0),
        node < a0.len(),
        a0[node as int].level >= 3,
        qq == side_of((a0[node as int].level - 2) as nat),
        ee == side_of((a0[node as int].level - 3) as nat),
        a0[node as int].content == (NodeContent::Inner { nw, ne, sw, se }),
        c01 < acf.len() && c10 < acf.len() && c12 < acf.len() && c21 < acf.len() && cc
            < acf.len(),
        forall|u: int, v: int|
            0 <= u < 2 * qq && 0 <= v < 2 * qq ==> #[trigger] node_cell(acf, c01 as int, u, v) == (
            if u < qq {
                node_cell(a0, nw as int, u + qq, v)
            } else {
                node_cell(a0, ne as int, u - qq, v)
            }),
        forall|u: int, v: int|
            0 <= u < 2 * qq && 0 <= v < 2 * qq ==> #[trigger] node_cell(acf, c10 as int, u, v) == (
            if v < qq {
                node_cell(a0, nw as int, u, v + qq)
            } else {
                node_cell(a0, sw as int, u, v - qq)
            }),
        forall|u: int, v: int|
            0 <= u < 2 * qq && 0 <= v < 2 * qq ==> #[trigger] node_cell(acf, c12 as int, u, v) == (
            if v < qq {
                node_cell(a0, ne as int, u, v + qq)
            } else {
                node_cell(a0, se as int, u, v - qq)
            }),
        forall|u: int, v: int|
            0 <= u < 2 * qq && 0 <= v < 2 * qq ==> #[trigger] node_cell(acf, c21 as int, u, v) == (
            if u < qq {
                node_cell(a0, sw as int, u + qq, v)
            } else {
                node_cell(a0, se as int, u - qq, v)
            }),
        forall|u: int, v: int|
            0 <= u < 2 * qq && 0 <= v < 2 * qq ==> #[trigger] node_cell(acf, cc as int, u, v)
                == node_cell(a0, node as int, u + qq, v + qq),
    ensures
        forall|u: int, v: int|
            0 <= u < 2 * qq && 0 <= v < 2 * qq ==> #[trigger] node_cell(af, nw as int, u, v)
                == node_cell(af, node as int, u + 0, v + 0),
        forall|u: int, v: int|
            0 <= u < 2 * qq && 0 <= v < 2 * qq ==> #[trigger] node_cell(af, c01 as int, u, v)
                == node_cell(af, node as int, u + qq, v + 0),
        forall|u: int, v: int|
            0 <= u < 2 * qq && 0 <= v < 2 * qq ==> #[trigger] node_cell(af, ne as int, u, v)
                == node_cell(af, node as int, u + 2 * qq, v + 0),
        forall|u: int, v: int|
            0 <= u < 2 * qq && 0 <= v < 2 * qq ==> #[trigger] node_cell(af, c10 as int, u, v)
                == node_cell(af, node as int, u + 0, v + qq),
        forall|u: int, v: int|
            0 <= u < 2 * qq && 0 <= v < 2 * qq ==> #[trigger] node_cell(af, cc as int, u, v)
                == node_cell(af, node as int, u + qq, v + qq),
        forall|u: int, v: int|
            0 <= u < 2 * qq && 0 <= v < 2 * qq ==> #[trigger] node_cell(af, c12 as int, u, v)
                == node_cell(af, node as int, u + 2 * qq, v + qq),
        forall|u: int, v: int|
            0 <= u < 2 * qq && 0 <= v < 2 * qq ==> #[trigger] node_cell(af, sw as int, u, v)
                == node_cell(af, node as int, u + 0, v + 2 * qq),
        forall|u: int, v: int|
            0 <= u < 2 * qq && 0 <= v < 2 * qq ==> #[trigger] node_cell(af, c21 as int, u, v)
                == node_cell(af, node as int, u + qq, v + 2 * qq),
        forall|u: int, v: int|
            0 <= u < 2 * qq && 0 <= v < 2 * qq ==> #[trigger] node_cell(af, se as int, u, v)
                == node_cell(af, node as int, u + 2 * qq, v + 2 * qq),
{
    lemma_side_unfold((a0[node as int].level) as nat);
    lemma_side_unfold((a0[node as int].level - 1) as nat);
    lemma_side_unfold((a0[node as int].level - 2) as nat);
    assert(node_wf(a0, node as int));
    assert(af[node as int] == a0[node as int]);
    lemma_cell_extends(af, a0, nw as int);
    lemma_cell_extends(af, a0, ne as int);
    lemma_cell_extends(af, a0, sw as int);
    lemma_cell_extends(af, a0, se as int);
    lemma_cell_extends(af, a0, node as int);
    lemma_cell_extends(af, acf, c01 as int);
    lemma_cell_extends(af, acf, c10 as int);
    lemma_cell_extends(af, acf, c12 as int);
    lemma_cell_extends(af, acf, c21 as int);
    lemma_cell_extends(af, acf, cc as int);
    lemma_cell_dispatch(af, node as int);
    assert forall|u: int, v: int| 0 <= u < 2 * qq && 0 <= v < 2 * qq implies #[trigger] node_cell(
        af,
        nw as int,
        u,
        v,
    ) == node_cell(af, node as int, u + 0, v + 0) by {};
    assert forall|u: int, v: int| 0 <= u < 2 * qq && 0 <= v < 2 * qq implies #[trigger] node_cell(
        af,
        ne as int,
        u,
        v,
    ) == node_cell(af, node as int, u + 2 * qq, v + 0) by {};
    assert forall|u: int, v: int| 0 <= u < 2 * qq && 0 <= v < 2 * qq implies #[trigger] node_cell(
        af,
        sw as int,
        u,
        v,
    ) == node_cell(af, node as int, u + 0, v + 2 * qq) by {};
    assert forall|u: int, v: int| 0 <= u < 2 * qq && 0 <= v < 2 * qq implies #[trigger] node_cell(
        af,
        se as int,
        u,
        v,
    ) == node_cell(af, node as int, u + 2 * qq, v + 2 * qq) by {};
    assert forall|u: int, v: int| 0 <= u < 2 * qq && 0 <= v < 2 * qq implies #[trigger] node_cell(
        af,
        c01 as int,
        u,
        v,
    ) == node_cell(af, node as int, u + qq, v + 0) by {
        assert(node_cell(af, c01 as int, u, v) == node_cell(acf, c01 as int, u, v));
        if u < qq {
            assert(node_cell(a0, nw as int, u + qq, v) == node_cell(af, nw as int, u + qq, v));
        } else {
            assert(node_cell(a0, ne as int, u - qq, v) == node_cell(af, ne as int, u - qq, v));
            assert(node_cell(af, node as int, u + qq, v) == node_cell(
                af,
                ne as int,
                u + qq - 2 * qq,
                v,
            ));
        }
    };
    assert forall|u: int, v: int| 0 <= u < 2 * qq && 0 <= v < 2 * qq implies #[trigger] node_cell(
        af,
        c10 as int,
        u,
        v,
    ) == node_cell(af, node as int, u + 0, v + qq) by {
        assert(node_cell(af, c10 as int, u, v) == node_cell(acf, c10 as int, u, v));
        if v < qq {
            assert(node_cell(a0, nw as int, u, v + qq) == node_cell(af, nw as int, u, v + qq));
        } else {
            assert(node_cell(a0, sw as int, u, v - qq) == node_cell(af, sw as int, u, v - qq));
            assert(node_cell(af, node as int, u + 0, v + qq) == node_cell(
                af,
                sw as int,
                u,
                v + qq - 2 * qq,
            ));
        }
    };
    assert forall|u: int, v: int| 0 <= u < 2 * qq && 0 <= v < 2 * qq implies #[trigger] node_cell(
        af,
        c12 as int,
        u,
        v,
    ) == node_cell(af, node as int, u + 2 * qq, v + qq) by {
        assert(node_cell(af, c12 as int, u, v) == node_cell(acf, c12 as int, u, v));
        if v < qq {
            assert(node_cell(a0, ne as int, u, v + qq) == node_cell(af, ne as int, u, v + qq));
            assert(node_cell(af, node as int, u + 2 * qq, v + qq) == node_cell(
                af,
                ne as int,
                u,
                v + qq,
            ));
        } else {
            assert(node_cell(a0, se as int, u, v - qq) == node_cell(af, se as int, u, v - qq));
            assert(node_cell(af, node as int, u + 2 * qq, v + qq) == node_cell(
                af,
                se as int,
                u,
                v + qq - 2 * qq,
            ));
        }
    };
    assert forall|u: int, v: int| 0 <= u < 2 * qq && 0 <= v < 2 * qq implies #[trigger] node_cell(
        af,
        c21 as int,
        u,
        v,
    ) == node_cell(af, node as int, u + qq, v + 2 * qq) by {
        assert(node_cell(af, c21 as int, u, v) == node_cell(acf, c21 as int, u, v));
        if u < qq {
            assert(node_cell(a0, sw as int, u + qq, v) == node_cell(af, sw as int, u + qq, v));
            assert(node_cell(af, node as int, u + qq, v + 2 * qq) == node_cell(
                af,
                sw as int,
                u + qq,
                v,
            ));
        } else {
            assert(node_cell(a0, se as int, u - qq, v) == node_cell(af, se as int, u - qq, v));
            assert(node_cell(af, node as int, u + qq, v + 2 * qq) == node_cell(
                af,
                se as int,
                u + qq - 2 * qq,
                v,
            ));
        }
    };
    assert forall|u: int, v: int| 0 <= u < 2 * qq && 0 <= v < 2 * qq implies #[trigger] node_cell(
        af,
        cc as int,
        u,
        v,
    ) == node_cell(af, node as int, u + qq, v + qq) by {
        assert(node_cell(af, cc as int, u, v) == node_cell(acf, cc as int, u, v));
        assert(node_cell(a0, node as int, u + qq, v + qq) == node_cell(
            af,
            node as int,
            u + qq,
            v + qq,
        ));
    };
}

/// One quadrant of the assembled result: its four corner blocks, drawn from
/// four of the nine partial results, tile the one-generation image of a
/// quarter of the centered half of `node`. `(dx, dy)` places that quarter:
/// `cell(rq, x, y)` is `next(node, x + dx, y + dy)`. The blocks `nw, ne, sw,
/// se` of `rq` are the `se, sw, ne, nw` corners of `na, nb, nc, nd`, whose
/// regions sit at offsets derived from `(dx, dy)`.
#[verifier::rlimit(100)]
proof fn lemma_quadrant_assembly(
    af: Seq<crate::node::Node>,
    node: usize,
    rq: usize,
    na: usize,
    nb: usize,
    nc: usize,
    nd: usize,
    ra: usize,
    rb: usize,
    rc: usize,
    rd: usize,
    dx: int,
    dy: int,
    qq: int,
    ee: int,
)
    requires
        crate::model::arena_wf(af),
        node < af.len(),
        rq < af.len(),
        af[node as int].level >= 3,
        qq == side_of((af[node as int].level - 2) as nat),
        ee == side_of((af[node as int].level - 3) as nat),
        af[rq as int].level + 2 == af[node as int].level,
        af[rq as int].content == (NodeContent::Inner {
            nw: quad_se(af, na as int) as usize,
            ne: quad_sw(af, nb as int) as usize,
            sw: quad_ne(af, nc as int) as usize,
            se: quad_nw(af, nd as int) as usize,
        }),
        result_entry_ok(af, ra as int, na as int),
        result_entry_ok(af, rb as int, nb as int),
        result_entry_ok(af, rc as int, nc as int),
        result_entry_ok(af, rd as int, nd as int),
        af[ra as int].level + 1 == af[node as int].level,
        af[rb as int].level + 1 == af[node as int].level,
        af[rc as int].level + 1 == af[node as int].level,
        af[rd as int].level + 1 == af[node as int].level,
        forall|u: int, v: int|
            0 <= u < 2 * qq && 0 <= v < 2 * qq ==> #[trigger] node_cell(af, ra as int, u, v)
                == node_cell(af, node as int, u + (dx - 2 * ee), v + (dy - 2 * ee)),
        forall|u: int, v: int|
            0 <= u < 2 * qq && 0 <= v < 2 * qq ==> #[trigger] node_cell(af, rb as int, u, v)
                == node_cell(af, node as int, u + dx, v + (dy - 2 * ee)),
        forall|u: int, v: int|
            0 <= u < 2 * qq && 0 <= v < 2 * qq ==> #[trigger] node_cell(af, rc as int, u, v)
                == node_cell(af, node as int, u + (dx - 2 * ee), v + dy),
        forall|u: int, v: int|
            0 <= u < 2 * qq && 0 <= v < 2 * qq ==> #[trigger] node_cell(af, rd as int, u, v)
                == node_cell(af, node as int, u + dx, v + dy),
    ensures
        forall|x: int, y: int|
            0 <= x < qq && 0 <= y < qq ==> #[trigger] node_cell(af, rq as int, x, y) == next_cell(
                af,
                node as int,
                x + dx,
                y + dy,
            ),
{
    lemma_side_unfold((af[node as int].level - 1) as nat);
    lemma_side_unfold((af[node as int].level - 2) as nat);
    assert(node_wf(af, node as int));
    assert(node_wf(af, rq as int));
    assert(node_wf(af, na as int));
    assert(node_wf(af, nb as int));
    assert(node_wf(af, nc as int));
    assert(node_wf(af, nd as int));
    lemma_next_cell_transfer(af, ra as int, node as int, dx - 2 * ee, dy - 2 * ee);
    lemma_next_cell_transfer(af, rb as int, node as int, dx, dy - 2 * ee);
    lemma_next_cell_transfer(af, rc as int, node as int, dx - 2 * ee, dy);
    lemma_next_cell_transfer(af, rd as int, node as int, dx, dy);
    lemma_cell_dispatch(af, rq as int);
    lemma_cell_dispatch(af, na as int);
    lemma_cell_dispatch(af, nb as int);
    lemma_cell_dispatch(af, nc as int);
    lemma_cell_dispatch(af, nd as int);
    assert forall|x: int, y: int| 0 <= x < qq && 0 <= y < qq implies #[trigger] node_cell(
        af,
        rq as int,
        x,
        y,
    ) == next_cell(af, node as int, x + dx, y + dy) by {
        if x < ee {
            if y < ee {
                assert(node_cell(af, rq as int, x, y) == node_cell(af, quad_se(af, na as int), x, y));
                assert(node_cell(af, quad_se(af, na as int), x, y) == node_cell(af, na as int, x + ee, y + ee));
                assert(node_cell(af, na as int, x + ee, y + ee) == next_cell(af, ra as int, x + 2 * ee, y + 2 * ee));
                assert(next_cell(af, ra as int, x + 2 * ee, y + 2 * ee) == next_cell(af, node as int, x + 2 * ee + (dx - 2 * ee), y + 2 * ee + (dy - 2 * ee)));
            } else {
                assert(node_cell(af, rq as int, x, y) == node_cell(af, quad_ne(af, nc as int), x, y - ee));
                assert(node_cell(af, quad_ne(af, nc as int), x, y - ee) == node_cell(af, nc as int, x + ee, y - ee));
                assert(node_cell(af, nc as int, x + ee, y - ee) == next_cell(af, rc as int, x + 2 * ee, y));
                assert(next_cell(af, rc as int, x + 2 * ee, y) == next_cell(af, node as int, x + 2 * ee + (dx - 2 * ee), y + dy));
            }
        } else {
            if y < ee {
                assert(node_cell(af, rq as int, x, y) == node_cell(af, quad_sw(af, nb as int), x - ee, y));
                assert(node_cell(af, quad_sw(af, nb as int), x - ee, y) == node_cell(af, nb as int, x - ee, y + ee));
                assert(node_cell(af, nb as int, x - ee, y + ee) == next_cell(af, rb as int, x, y + 2 * ee));
                assert(next_cell(af, rb as int, x, y + 2 * ee) == next_cell(af, node as int, x + dx, y + 2 * ee + (dy - 2 * ee)));
            } else {
                assert(node_cell(af, rq as int, x, y) == node_cell(af, quad_nw(af, nd as int), x - ee, y - ee));
                assert(node_cell(af, quad_nw(af, nd as int), x - ee, y - ee) == node_cell(af, nd as int, x - ee, y - ee));
                assert(node_cell(af, nd as int, x - ee, y - ee) == next_cell(af, rd as int, x, y));
                assert(next_cell(af, rd as int, x, y) == next_cell(af, node as int, x + dx, y + dy));
            }
        }
    };
}

/// Assembling the four quadrants yields the one-generation image of the
/// whole centered half of `node`.
#[verifier::rlimit(100)]
proof fn lemma_nine_assembly(
    af: Seq<crate::node::Node>,
    node: usize,
    nw: usize,
    ne: usize,
    sw: usize,
    se: usize,
    c01: usize,
    c10: usize,
    c12: usize,
    c21: usize,
    cc: usize,
    n00: usize,
    n01: usize,
    n02: usize,
    n10: usize,
    n11: usize,
    n12: usize,
    n20: usize,
    n21: usize,
    n22: usize,
    r_nw: usize,
    r_ne: usize,
    r_sw: usize,
    r_se: usize,
    r: usize,
    qq: int,
    ee: int,
)
    requires
        crate::model::arena_wf(af),
        node < af.len(),
        r < af.len(),
        r_nw < af.len() && r_ne < af.len() && r_sw < af.len() && r_se < af.len(),
        af[node as int].level >= 3,
        qq == side_of((af[node as int].level - 2) as nat),
        ee == side_of((af[node as int].level - 3) as nat),
        af[r as int].level + 1 == af[node as int].level,
        af[r as int].content == (NodeContent::Inner { nw: r_nw, ne: r_ne, sw: r_sw, se: r_se }),
        af[r_nw as int].content == (NodeContent::Inner {
            nw: quad_se(af, n00 as int) as usize,
            ne: quad_sw(af, n01 as int) as usize,
            sw: quad_ne(af, n10 as int) as usize,
            se: quad_nw(af, n11 as int) as usize,
        }),
        af[r_ne as int].content == (NodeContent::Inner {
            nw: quad_se(af, n01 as int) as usize,
            ne: quad_sw(af, n02 as int) as usize,
            sw: quad_ne(af, n11 as int) as usize,
            se: quad_nw(af, n12 as int) as usize,
        }),
        af[r_sw as int].content == (NodeContent::Inner {
            nw: quad_se(af, n10 as int) as usize,
            ne: quad_sw(af, n11 as int) as usize,
            sw: quad_ne(af, n20 as int) as usize,
            se: quad_nw(af, n21 as int) as usize,
        }),
        af[r_se as int].content == (NodeContent::Inner {
            nw: quad_se(af, n11 as int) as usize,
            ne: quad_sw(af, n12 as int) as usize,
            sw: quad_ne(af, n21 as int) as usize,
            se: quad_nw(af, n22 as int) as usize,
        }),
        result_entry_ok(af, nw as int, n00 as int),
        result_entry_ok(af, c01 as int, n01 as int),
        result_entry_ok(af, ne as int, n02 as int),
        result_entry_ok(af, c10 as int, n10 as int),
        result_entry_ok(af, cc as int, n11 as int),
        result_entry_ok(af, c12 as int, n12 as int),
        result_entry_ok(af, sw as int, n20 as int),
        result_entry_ok(af, c21 as int, n21 as int),
        result_entry_ok(af, se as int, n22 as int),
        af[nw as int].level + 1 == af[node as int].level,
        af[ne as int].level + 1 == af[node as int].level,
        af[sw as int].level + 1 == af[node as int].level,
        af[se as int].level + 1 == af[node as int].level,
        af[c01 as int].level + 1 == af[node as int].level,
        af[c10 as int].level + 1 == af[node as int].level,
        af[c12 as int].level + 1 == af[node as int].level,
        af[c21 as int].level + 1 == af[node as int].level,
        af[cc as int].level + 1 == af[node as int].level,
        forall|u: int, v: int|
            0 <= u < 2 * qq && 0 <= v < 2 * qq ==> #[trigger] node_cell(af, nw as int, u, v)
                == node_cell(af, node as int, u + 0, v + 0),
        forall|u: int, v: int|
            0 <= u < 2 * qq && 0 <= v < 2 * qq ==> #[trigger] node_cell(af, c01 as int, u, v)
                == node_cell(af, node as int, u + qq, v + 0),
        forall|u: int, v: int|
            0 <= u < 2 * qq && 0 <= v < 2 * qq ==> #[trigger] node_cell(af, ne as int, u, v)
                == node_cell(af, node as int, u + 2 * qq, v + 0),
        forall|u: int, v: int|
            0 <= u < 2 * qq && 0 <= v < 2 * qq ==> #[trigger] node_cell(af, c10 as int, u, v)
                == node_cell(af, node as int, u + 0, v + qq),
        forall|u: int, v: int|
            0 <= u < 2 * qq && 0 <= v < 2 * qq ==> #[trigger] node_cell(af, cc as int, u, v)
                == node_cell(af, node as int, u + qq, v + qq),
        forall|u: int, v: int|
            0 <= u < 2 * qq && 0 <= v < 2 * qq ==> #[trigger] node_cell(af, c12 as int, u, v)
                == node_cell(af, node as int, u + 2 * qq, v + qq),
        forall|u: int, v: int|
            0 <= u < 2 * qq && 0 <= v < 2 * qq ==> #[trigger] node_cell(af, sw as int, u, v)
                == node_cell(af, node as int, u + 0, v + 2 * qq),
        forall|u: int, v: int|
            0 <= u < 2 * qq && 0 <= v < 2 * qq ==> #[trigger] node_cell(af, c21 as int, u, v)
                == node_cell(af, node as int, u + qq, v + 2 * qq),
        forall|u: int, v: int|
            0 <= u < 2 * qq && 0 <= v < 2 * qq ==> #[trigger] node_cell(af, se as int, u, v)
                == node_cell(af, node as int, u + 2 * qq, v + 2 * qq),
    ensures
        forall|x: int, y: int|
            0 <= x < 2 * qq && 0 <= y < 2 * qq ==> #[trigger] node_cell(af, r as int, x, y)
                == next_cell(af, node as int, x + qq, y + qq),
{
    lemma_side_unfold((af[node as int].level - 1) as nat);
    lemma_side_unfold((af[node as int].level - 2) as nat);
    assert(node_wf(af, node as int));
    assert(node_wf(af, r as int));
    lemma_quadrant_assembly(af, node, r_nw, n00, n01, n10, n11, nw, c01, c10, cc, qq, qq, qq, ee);
    lemma_quadrant_assembly(
        af,
        node,
        r_ne,
        n01,
        n02,
        n11,
        n12,
        c01,
        ne,
        cc,
        c12,
        2 * qq,
        qq,
        qq,
        ee,
    );
    lemma_quadrant_assembly(
        af,
        node,
        r_sw,
        n10,
        n11,
        n20,
        n21,
        c10,
        cc,
        sw,
        c21,
        qq,
        2 * qq,
        qq,
        ee,
    );
    lemma_quadrant_assembly(
        af,
        node,
        r_se,
        n11,
        n12,
        n21,
        n22,
        cc,
        c12,
        c21,
        se,
        2 * qq,
        2 * qq,
        qq,
        ee,
    );
    lemma_join_quadrants(af, node, r_nw, r_ne, r_sw, r_se, r, qq);
}

/// Joining the four quadrant results gives the image of the whole centered
/// half.
proof fn lemma_join_quadrants(
    af: Seq<crate::node::Node>,
    node: usize,
    r_nw: usize,
    r_ne: usize,
    r_sw: usize,
    r_se: usize,
    r: usize,
    qq: int,
)
    requires
        crate::model::arena_wf(af),
        node < af.len(),
        r < af.len(),
        af[node as int].level >= 3,
        qq == side_of((af[node as int].level - 2) as nat),
        af[r as int].level + 1 == af[node as int].level,
        af[r as int].content == (NodeContent::Inner { nw: r_nw, ne: r_ne, sw: r_sw, se: r_se }),
        forall|x: int, y: int|
            0 <= x < qq && 0 <= y < qq ==> #[trigger] node_cell(af, r_nw as int, x, y)
                == next_cell(af, node as int, x + qq, y + qq),
        forall|x: int, y: int|
            0 <= x < qq && 0 <= y < qq ==> #[trigger] node_cell(af, r_ne as int, x, y)
                == next_cell(af, node as int, x + 2 * qq, y + qq),
        forall|x: int, y: int|
            0 <= x < qq && 0 <= y < qq ==> #[trigger] node_cell(af, r_sw as int, x, y)
                == next_cell(af, node as int, x + qq, y + 2 * qq),
        forall|x: int, y: int|
            0 <= x < qq && 0 <= y < qq ==> #[trigger] node_cell(af, r_se as int, x, y)
                == next_cell(af, node as int, x + 2 * qq, y + 2 * qq),
    ensures
        forall|x: int, y: int|
            0 <= x < 2 * qq && 0 <= y < 2 * qq ==> #[trigger] node_cell(af, r as int, x, y)
                == next_cell(af, node as int, x + qq, y + qq),
{
    lemma_side_unfold((af[node as int].level - 1) as nat);
    lemma_side_unfold((af[node as int].level - 2) as nat);
    assert(node_wf(af, r as int));
    lemma_cell_dispatch(af, r as int);
    assert forall|x: int, y: int| 0 <= x < 2 * qq && 0 <= y < 2 * qq implies #[trigger] node_cell(
        af,
        r as int,
        x,
        y,
    ) == next_cell(af, node as int, x + qq, y + qq) by {
        if x < qq {
            if y < qq {
                assert(node_cell(af, r as int, x, y) == node_cell(af, r_nw as int, x, y));
            } else {
                assert(node_cell(af, r as int, x, y) == node_cell(af, r_sw as int, x, y - qq));
                assert(node_cell(af, r_sw as int, x, y - qq) == next_cell(
                    af,
                    node as int,
                    x + qq,
                    y - qq + 2 * qq,
                ));
            }
        } else {
            if y < qq {
                assert(node_cell(af, r as int, x, y) == node_cell(af, r_ne as int, x - qq, y));
                assert(node_cell(af, r_ne as int, x - qq, y) == next_cell(
                    af,
                    node as int,
                    x - qq + 2 * qq,
                    y + qq,
                ));
            } else {
                assert(node_cell(af, r as int, x, y) == node_cell(af, r_se as int, x - qq, y - qq));
                assert(node_cell(af, r_se as int, x - qq, y - qq) == next_cell(
                    af,
                    node as int,
                    x - qq + 2 * qq,
                    y - qq + 2 * qq,
                ));
            }
        }
    };
}

/// If the whole population of a level-3-or-deeper node sits in its four
/// innermost sub-sub-quadrants, every live cell lies in the centered square
/// of a quarter of its side.
proof fn lemma_confined_cells(nodes: Seq<crate::node::Node>, root: usize)
    requires
        crate::model::arena_wf(nodes),
        root < nodes.len(),
        nodes[root as int].level >= 3,
        nodes[root as int].content is Inner,
        nodes[root as int].population as int == nodes[quad_se(nodes, quad_se(nodes, quad_nw(nodes, root as int)))].population as int
            + nodes[quad_sw(nodes, quad_sw(nodes, quad_ne(nodes, root as int)))].population as int
            + nodes[quad_ne(nodes, quad_ne(nodes, quad_sw(nodes, root as int)))].population as int
            + nodes[quad_nw(nodes, quad_nw(nodes, quad_se(nodes, root as int)))].population as int,
    ensures
        forall|lx: int, ly: int|
            #[trigger] node_cell(nodes, root as int, lx, ly) ==> 3 * side_of(
                (nodes[root as int].level - 3) as nat,
            ) <= lx < 5 * side_of((nodes[root as int].level - 3) as nat) && 3 * side_of(
                (nodes[root as int].level - 3) as nat,
            ) <= ly < 5 * side_of((nodes[root as int].level - 3) as nat),
{
    let lvl = nodes[root as int].level;
    let e = side_of((lvl - 3) as nat);
    lemma_side_unfold(lvl as nat);
    lemma_side_unfold((lvl - 1) as nat);
    lemma_side_unfold((lvl - 2) as nat);
    assert(node_wf(nodes, root as int));
    let cnw = quad_nw(nodes, root as int);
    let cne = quad_ne(nodes, root as int);
    let csw = quad_sw(nodes, root as int);
    let cse = quad_se(nodes, root as int);
    assert(node_wf(nodes, cnw));
    assert(node_wf(nodes, cne));
    assert(node_wf(nodes, csw));
    assert(node_wf(nodes, cse));
    let gnw = quad_se(nodes, cnw);
    let gne = quad_sw(nodes, cne);
    let gsw = quad_ne(nodes, csw);
    let gse = quad_nw(nodes, cse);
    assert(node_wf(nodes, gnw));
    assert(node_wf(nodes, gne));
    assert(node_wf(nodes, gsw));
    assert(node_wf(nodes, gse));
    // every other sub-sub-quadrant is empty, so its cells are all dead
    lemma_empty_node_dead(nodes, quad_nw(nodes, cnw));
    lemma_empty_node_dead(nodes, quad_ne(nodes, cnw));
    lemma_empty_node_dead(nodes, quad_sw(nodes, cnw));
    lemma_empty_node_dead(nodes, quad_nw(nodes, cne));
    lemma_empty_node_dead(nodes, quad_ne(nodes, cne));
    lemma_empty_node_dead(nodes, quad_se(nodes, cne));
    lemma_empty_node_dead(nodes, quad_nw(nodes, csw));
    lemma_empty_node_dead(nodes, quad_sw(nodes, csw));
    lemma_empty_node_dead(nodes, quad_se(nodes, csw));
    lemma_empty_node_dead(nodes, quad_ne(nodes, cse));
    lemma_empty_node_dead(nodes, quad_sw(nodes, cse));
    lemma_empty_node_dead(nodes, quad_se(nodes, cse));
    lemma_empty_node_dead(nodes, quad_nw(nodes, gnw));
    lemma_empty_node_dead(nodes, quad_ne(nodes, gnw));
    lemma_empty_node_dead(nodes, quad_sw(nodes, gnw));
    lemma_empty_node_dead(nodes, quad_nw(nodes, gne));
    lemma_empty_node_dead(nodes, quad_ne(nodes, gne));
    lemma_empty_node_dead(nodes, quad_se(nodes, gne));
    lemma_empty_node_dead(nodes, quad_nw(nodes, gsw));
    lemma_empty_node_dead(nodes, quad_sw(nodes, gsw));
    lemma_empty_node_dead(nodes, quad_se(nodes, gsw));
    lemma_empty_node_dead(nodes, quad_ne(nodes, gse));
    lemma_empty_node_dead(nodes, quad_sw(nodes, gse));
    lemma_empty_node_dead(nodes, quad_se(nodes, gse));
    lemma_cell_dispatch(nodes, root as int);
    lemma_cell_dispatch(nodes, cnw);
    lemma_cell_dispatch(nodes, cne);
    lemma_cell_dispatch(nodes, csw);
    lemma_cell_dispatch(nodes, cse);
    lemma_cell_dispatch(nodes, gnw);
    lemma_cell_dispatch(nodes, gne);
    lemma_cell_dispatch(nodes, gsw);
    lemma_cell_dispatch(nodes, gse);
    assert forall|lx: int, ly: int| #[trigger] node_cell(nodes, root as int, lx, ly) implies 3 * e
        <= lx < 5 * e && 3 * e <= ly < 5 * e by {
        if lx < 4 * e {
            if ly < 4 * e {
                assert(node_cell(nodes, root as int, lx, ly) == node_cell(nodes, cnw, lx, ly));
                if lx < 2 * e || ly < 2 * e {
                    assert(!node_cell(nodes, cnw, lx, ly));
                } else {
                    assert(node_cell(nodes, cnw, lx, ly) == node_cell(nodes, gnw, lx - 2 * e, ly - 2 * e));
                    if lx < 3 * e || ly < 3 * e {
                        assert(!node_cell(nodes, gnw, lx - 2 * e, ly - 2 * e));
                    }
                }
            } else {
                assert(node_cell(nodes, root as int, lx, ly) == node_cell(nodes, csw, lx, ly - 4 * e));
                if lx < 2 * e || ly >= 6 * e {
                    assert(!node_cell(nodes, csw, lx, ly - 4 * e));
                } else {
                    assert(node_cell(nodes, csw, lx, ly - 4 * e) == node_cell(nodes, gsw, lx - 2 * e, ly - 4 * e));
                    if lx < 3 * e || ly >= 5 * e {
                        assert(!node_cell(nodes, gsw, lx - 2 * e, ly - 4 * e));
                    }
                }
            }
        } else {
            if ly < 4 * e {
                assert(node_cell(nodes, root as int, lx, ly) == node_cell(nodes, cne, lx - 4 * e, ly));
                if lx >= 6 * e || ly < 2 * e {
                    assert(!node_cell(nodes, cne, lx - 4 * e, ly));
                } else {
                    assert(node_cell(nodes, cne, lx - 4 * e, ly) == node_cell(nodes, gne, lx - 4 * e, ly - 2 * e));
                    if lx >= 5 * e || ly < 3 * e {
                        assert(!node_cell(nodes, gne, lx - 4 * e, ly - 2 * e));
                    }
                }
            } else {
                assert(node_cell(nodes, root as int, lx, ly) == node_cell(nodes, cse, lx - 4 * e, ly - 4 * e));
                if lx >= 6 * e || ly >= 6 * e {
                    assert(!node_cell(nodes, cse, lx - 4 * e, ly - 4 * e));
                } else {
                    assert(node_cell(nodes, cse, lx - 4 * e, ly - 4 * e) == node_cell(nodes, gse, lx - 4 * e, ly - 4 * e));
                    if lx >= 5 * e || ly >= 5 * e {
                        assert(!node_cell(nodes, gse, lx - 4 * e, ly - 4 * e));
                    }
                }
            }
        }
    };
}

/// Two universes with the same cells step to the same cells.
proof fn lemma_next_alive_congruent(ua: Universe, ub: Universe)
    requires
        forall|x: int, y: int| #[trigger] ua.cell_alive(x, y) == ub.cell_alive(x, y),
    ensures
        forall|x: int, y: int| #[trigger] ua.next_alive(x, y) == ub.next_alive(x, y),
{
    assert forall|x: int, y: int| #[trigger] ua.next_alive(x, y) == ub.next_alive(x, y) by {
        assert(ua.cell_alive(x - 1, y - 1) == ub.cell_alive(x - 1, y - 1));
        assert(ua.cell_alive(x, y - 1) == ub.cell_alive(x, y - 1));
        assert(ua.cell_alive(x + 1, y - 1) == ub.cell_alive(x + 1, y - 1));
        assert(ua.cell_alive(x - 1, y) == ub.cell_alive(x - 1, y));
        assert(ua.cell_alive(x, y) == ub.cell_alive(x, y));
        assert(ua.cell_alive(x + 1, y) == ub.cell_alive(x + 1, y));
        assert(ua.cell_alive(x - 1, y + 1) == ub.cell_alive(x - 1, y + 1));
        assert(ua.cell_alive(x, y + 1) == ub.cell_alive(x, y + 1));
        assert(ua.cell_alive(x + 1, y + 1) == ub.cell_alive(x + 1, y + 1));
    };
}

/// The re-embedded evolution result holds, cell for cell, the next state of
/// the whole plane: inside the centered half it is the evolved center, and
/// outside nothing can be born because the population was confined.
#[verifier::rlimit(100)]
proof fn lemma_step_semantics(
    u1: Universe,
    u2: Universe,
    a1: Seq<crate::node::Node>,
    root: usize,
    result: usize,
    q: int,
    e: int,
)
    requires
        u1.inv(),
        crate::model::arena_wf(u2.arena()),
        crate::model::arena_wf(a1),
        extends(u2.arena(), u1.arena()),
        extends(u2.arena(), a1),
        extends(a1, u1.arena()),
        root == u1.root,
        u2.root < u2.arena().len(),
        result < a1.len(),
        u2.root_lvl() == u1.root_lvl(),
        u1.root_lvl() >= 3,
        q == side_of((u1.root_lvl() - 2) as nat),
        e == side_of((u1.root_lvl() - 3) as nat),
        result_entry_ok(u2.arena(), root as int, result as int),
        forall|xx: int, yy: int|
            #[trigger] node_cell(u2.arena(), u2.root as int, xx, yy) == (q <= xx < 3 * q && q <= yy
                < 3 * q && node_cell(a1, result as int, xx - q, yy - q)),
        forall|x: int, y: int|
            #[trigger] u1.cell_alive(x, y) ==> -e <= x < e && -e <= y < e,
    ensures
        forall|x: int, y: int| #[trigger] u2.cell_alive(x, y) == u1.next_alive(x, y),
{
    lemma_side_unfold(u1.root_lvl());
    lemma_side_unfold((u1.root_lvl() - 1) as nat);
    lemma_side_unfold((u1.root_lvl() - 2) as nat);
    assert(u1.half() == 2 * q);
    assert(u2.half() == 2 * q);
    lemma_cell_extends(u2.arena(), a1, result as int);
    crate::model::lemma_next_cell_extends(u2.arena(), u1.arena(), root as int);
    assert forall|x: int, y: int| #[trigger] u2.cell_alive(x, y) == u1.next_alive(x, y) by {
        if -q <= x < q && -q <= y < q {
            assert(node_cell(u2.arena(), u2.root as int, x + 2 * q, y + 2 * q) == node_cell(
                a1,
                result as int,
                x + q,
                y + q,
            ));
            assert(node_cell(u2.arena(), result as int, x + q, y + q) == node_cell(
                a1,
                result as int,
                x + q,
                y + q,
            ));
            assert(node_cell(u2.arena(), result as int, x + q, y + q) == next_cell(
                u2.arena(),
                root as int,
                x + 2 * q,
                y + 2 * q,
            ));
            assert(next_cell(u2.arena(), root as int, x + 2 * q, y + 2 * q) == next_cell(
                u1.arena(),
                root as int,
                x + 2 * q,
                y + 2 * q,
            ));
            assert(u1.cell_alive(x - 1, y - 1) == node_cell(u1.arena(), root as int, x - 1 + 2 * q, y - 1 + 2 * q));
            assert(u1.cell_alive(x, y - 1) == node_cell(u1.arena(), root as int, x + 2 * q, y - 1 + 2 * q));
            assert(u1.cell_alive(x + 1, y - 1) == node_cell(u1.arena(), root as int, x + 1 + 2 * q, y - 1 + 2 * q));
            assert(u1.cell_alive(x - 1, y) == node_cell(u1.arena(), root as int, x - 1 + 2 * q, y + 2 * q));
            assert(u1.cell_alive(x, y) == node_cell(u1.arena(), root as int, x + 2 * q, y + 2 * q));
            assert(u1.cell_alive(x + 1, y) == node_cell(u1.arena(), root as int, x + 1 + 2 * q, y + 2 * q));
            assert(u1.cell_alive(x - 1, y + 1) == node_cell(u1.arena(), root as int, x - 1 + 2 * q, y + 1 + 2 * q));
            assert(u1.cell_alive(x, y + 1) == node_cell(u1.arena(), root as int, x + 2 * q, y + 1 + 2 * q));
            assert(u1.cell_alive(x + 1, y + 1) == node_cell(u1.arena(), root as int, x + 1 + 2 * q, y + 1 + 2 * q));
        } else {
            assert(!u2.cell_alive(x, y)) by {
                if -u2.half() <= x < u2.half() && -u2.half() <= y < u2.half() {
                    assert(node_cell(u2.arena(), u2.root as int, x + 2 * q, y + 2 * q) == (q <= x
                        + 2 * q < 3 * q && q <= y + 2 * q < 3 * q && node_cell(
                        a1,
                        result as int,
                        x + q,
                        y + q,
                    )));
                }
            };
            assert(!u1.cell_alive(x - 1, y - 1));
            assert(!u1.cell_alive(x, y - 1));
            assert(!u1.cell_alive(x + 1, y - 1));
            assert(!u1.cell_alive(x - 1, y));
            assert(!u1.cell_alive(x, y));
            assert(!u1.cell_alive(x + 1, y));
            assert(!u1.cell_alive(x - 1, y + 1));
            assert(!u1.cell_alive(x, y + 1));
            assert(!u1.cell_alive(x + 1, y + 1));
        }
    };
}

/// The one-generation result of an all-dead node is all-dead, down to its
/// stored population count.
proof fn lemma_result_of_dead_is_empty(
    a1: Seq<crate::node::Node>,
    au: Seq<crate::node::Node>,
    root: usize,
    result: usize,
)
    requires
        crate::model::arena_wf(au),
        crate::model::arena_wf(a1),
        extends(a1, au),
        root < au.len(),
        au[root as int].population == 0,
        result_entry_ok(a1, root as int, result as int),
    ensures
        a1[result as int].population == 0,
{
    lemma_empty_node_dead(au, root as int);
    lemma_next_cell_extends(a1, au, root as int);
    let lvl = a1[root as int].level;
    let h = side_of((lvl - 1) as nat);
    let q = side_of((lvl - 2) as nat);
    if a1[result as int].population != 0 {
        crate::model::lemma_live_cell_exists(a1, result as int);
        let (x, y) = choose|x: int, y: int| #[trigger] node_cell(a1, result as int, x, y);
        assert(0 <= x < h && 0 <= y < h);
        assert(node_cell(a1, result as int, x, y) == next_cell(a1, root as int, x + q, y + q));
        assert(next_cell(a1, root as int, x + q, y + q) == next_cell(au, root as int, x + q, y + q));
        assert(!node_cell(au, root as int, x + q - 1, y + q - 1));
        assert(!node_cell(au, root as int, x + q, y + q - 1));
        assert(!node_cell(au, root as int, x + q + 1, y + q - 1));
        assert(!node_cell(au, root as int, x + q - 1, y + q));
        assert(!node_cell(au, root as int, x + q, y + q));
        assert(!node_cell(au, root as int, x + q + 1, y + q));
        assert(!node_cell(au, root as int, x + q - 1, y + q + 1));
        assert(!node_cell(au, root as int, x + q, y + q + 1));
        assert(!node_cell(au, root as int, x + q + 1, y + q + 1));
        assert(false);
    }
}

} // verus!
