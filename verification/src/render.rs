//! Queries over rectangles of the plane: the density-annotated render
//! traversal and live-cell enumeration.
//!
//! The render query walks the quadtree from the root, skips subtrees that
//! miss the view rectangle or hold no live cell, and emits one square per
//! surviving subtree once its side is within the requested resolution. The
//! host divides population by area for a density.

use crate::count::alive_rect_count;
use crate::count::lemma_alive_rect_congruent;
use crate::count::lemma_population_counts;
use crate::model::lemma_cell_dispatch;
use crate::model::lemma_empty_node_dead;
use crate::model::lemma_population_bound;
use crate::model::lemma_side_unfold;
use crate::model::lemma_small_pow2;
use crate::model::node_cell;
use crate::model::node_side;
use crate::model::node_wf;
use crate::node::pow2_i64;
use crate::node::pow2_u64;
use crate::universe::Universe;
use vstd::arithmetic::power2::lemma2_to64;
use vstd::arithmetic::power2::lemma_pow2_adds;
use vstd::arithmetic::power2::lemma_pow2_strictly_increases;
use vstd::arithmetic::power2::pow2;
use vstd::prelude::*;

verus! {

/// Whether render tuple `t = (x, y, side, population)` covers cell `(a, b)`.
pub open spec fn region_covers(t: (i64, i64, u64, u64), a: int, b: int) -> bool {
    &&& t.0 <= a < t.0 + t.2
    &&& t.1 <= b < t.1 + t.2
}

/// Two render squares occupy disjoint areas.
pub open spec fn regions_disjoint(s: (i64, i64, u64, u64), t: (i64, i64, u64, u64)) -> bool {
    ||| s.0 as int + s.2 as int <= t.0 as int
    ||| t.0 as int + t.2 as int <= s.0 as int
    ||| s.1 as int + s.2 as int <= t.1 as int
    ||| t.1 as int + t.2 as int <= s.1 as int
}

/// What every emitted render tuple satisfies: a populated square that meets
/// the inclusive view rectangle, no wider than the requested resolution (or
/// a single cell, when the resolution asks for less), with a population
/// that fits its area, so the derived density lies in (0, 1].
pub open spec fn render_tuple_ok(
    t: (i64, i64, u64, u64),
    vx0: int,
    vy0: int,
    vx1: int,
    vy1: int,
    min_size: int,
) -> bool {
    &&& t.3 > 0
    &&& 1 <= t.2
    &&& t.2 <= (if min_size < 1 {
        1int
    } else {
        min_size
    })
    &&& t.0 <= vx1 && vx0 < t.0 + t.2
    &&& t.1 <= vy1 && vy0 < t.1 + t.2
    &&& t.3 <= t.2 * t.2
}

impl Universe {
    /// Walks `node`'s square, appending render tuples so that every live
    /// cell of the square that lies in the view ends up covered by a tuple.
    fn render_rec(
        &self,
        node: usize,
        node_x: i64,
        node_y: i64,
        vx0: i64,
        vy0: i64,
        vx1: i64,
        vy1: i64,
        min_size: u32,
        out: &mut Vec<(i64, i64, u64, u64)>,
    )
        requires
            self.cache.wf(),
            node < self.arena().len(),
            -(pow2(30) as int) <= node_x as int,
            node_x as int + node_side(self.arena(), node as int) <= pow2(30),
            -(pow2(30) as int) <= node_y as int,
            node_y as int + node_side(self.arena(), node as int) <= pow2(30),
            forall|a: int, b: int|
                node_x <= a < node_x as int + node_side(self.arena(), node as int) && node_y <= b
                    < node_y as int + node_side(self.arena(), node as int)
                    ==> #[trigger] self.cell_alive(a, b) == node_cell(
                    self.arena(),
                    node as int,
                    a - node_x,
                    b - node_y,
                ),
        ensures
            final(out)@.len() >= old(out)@.len(),
            forall|i: int| 0 <= i < old(out)@.len() ==> #[trigger] final(out)@[i] == old(out)@[i],
            forall|i: int|
                old(out)@.len() <= i < final(out)@.len() ==> render_tuple_ok(
                    #[trigger] final(out)@[i],
                    vx0 as int,
                    vy0 as int,
                    vx1 as int,
                    vy1 as int,
                    min_size as int,
                ),
            forall|i: int|
                old(out)@.len() <= i < final(out)@.len() ==> (#[trigger] final(out)@[i]).3 as int
                    == alive_rect_count(
                    *self,
                    final(out)@[i].0 as int,
                    final(out)@[i].1 as int,
                    final(out)@[i].0 as int + final(out)@[i].2 as int,
                    final(out)@[i].1 as int + final(out)@[i].2 as int,
                ),
            forall|i: int|
                old(out)@.len() <= i < final(out)@.len() ==> (node_x as int <= (#[trigger] final(out)@[i]).0 as int && final(out)@[i].0 as int + final(out)@[i].2 as int <= node_x as int
                    + node_side(self.arena(), node as int) && node_y as int
                    <= final(out)@[i].1 as int && final(out)@[i].1 as int
                    + final(out)@[i].2 as int <= node_y as int + node_side(
                    self.arena(),
                    node as int,
                )),
            forall|i: int, j: int|
                #![trigger final(out)@[i], final(out)@[j]]
                old(out)@.len() <= i < j < final(out)@.len() ==> regions_disjoint(
                    final(out)@[i],
                    final(out)@[j],
                ),
            forall|a: int, b: int|
                node_x <= a < node_x as int + node_side(self.arena(), node as int) && node_y <= b
                    < node_y as int + node_side(self.arena(), node as int) && vx0 <= a <= vx1
                    && vy0 <= b <= vy1 && #[trigger] node_cell(
                    self.arena(),
                    node as int,
                    a - node_x,
                    b - node_y,
                ) ==> exists|i: int|
                    0 <= i < final(out)@.len() && region_covers(#[trigger] final(out)@[i], a, b),
        decreases self.arena()[node as int].level,
    {
        proof {
            assert(node_wf(self.arena(), node as int));
            lemma2_to64();
            lemma_small_pow2();
        }
        let n = self.cache.node(node);
        let side = pow2_u64(n.level);
        let side_i = pow2_i64(n.level);
        if node_x > vx1 || node_y > vy1 || node_x + side_i <= vx0 || node_y + side_i <= vy0 {
            // the square misses the view: nothing in it needs covering
            return ;
        }
        if n.population == 0 {
            proof {
                lemma_empty_node_dead(self.arena(), node as int);
            }
            return ;
        }
        if side <= min_size as u64 || n.level == 0 {
            let ghost len0 = out@.len();
            out.push((node_x, node_y, side, n.population));
            proof {
                lemma_population_bound(self.arena(), node as int);
                lemma_pow2_adds(n.level as nat, n.level as nat);
                lemma_population_counts(self.arena(), node as int);
                lemma_alive_rect_congruent(
                    *self,
                    self.arena(),
                    node as int,
                    -(node_x as int),
                    -(node_y as int),
                    node_x as int,
                    node_y as int,
                    node_x as int + node_side(self.arena(), node as int),
                    node_y as int + node_side(self.arena(), node as int),
                );
                assert(render_tuple_ok(
                    out@[len0 as int],
                    vx0 as int,
                    vy0 as int,
                    vx1 as int,
                    vy1 as int,
                    min_size as int,
                ));
                assert forall|a: int, b: int|
                    node_x <= a < node_x as int + node_side(self.arena(), node as int) && node_y
                        <= b < node_y as int + node_side(self.arena(), node as int) && vx0 <= a
                        <= vx1 && vy0 <= b <= vy1 && #[trigger] node_cell(
                        self.arena(),
                        node as int,
                        a - node_x,
                        b - node_y,
                    ) implies exists|i: int|
                    0 <= i < out@.len() && region_covers(#[trigger] out@[i], a, b) by {
                    assert(region_covers(out@[len0 as int], a, b));
                };
            }
            return ;
        }
        let (nw, ne, sw, se) = self.quads(node);
        proof {
            lemma_side_unfold(n.level as nat);
            if ((n.level - 1) as nat) < 30 {
                lemma_pow2_strictly_increases((n.level - 1) as nat, 30);
            }
        }
        let half = pow2_i64(n.level - 1);
        proof {
            let h = crate::model::side_of((n.level - 1) as nat);
            lemma_cell_dispatch(self.arena(), node as int);
            assert forall|a: int, b: int|
                node_x <= a < node_x + h && node_y <= b < node_y + h implies
                #[trigger] self.cell_alive(a, b) == node_cell(
                self.arena(),
                nw as int,
                a - node_x,
                b - node_y,
            ) by {
                assert(self.cell_alive(a, b) == node_cell(
                    self.arena(),
                    node as int,
                    a - node_x,
                    b - node_y,
                ));
            };
            assert forall|a: int, b: int|
                node_x + h <= a < node_x + 2 * h && node_y <= b < node_y + h implies
                #[trigger] self.cell_alive(a, b) == node_cell(
                self.arena(),
                ne as int,
                a - (node_x + h),
                b - node_y,
            ) by {
                assert(self.cell_alive(a, b) == node_cell(
                    self.arena(),
                    node as int,
                    a - node_x,
                    b - node_y,
                ));
            };
            assert forall|a: int, b: int|
                node_x <= a < node_x + h && node_y + h <= b < node_y + 2 * h implies
                #[trigger] self.cell_alive(a, b) == node_cell(
                self.arena(),
                sw as int,
                a - node_x,
                b - (node_y + h),
            ) by {
                assert(self.cell_alive(a, b) == node_cell(
                    self.arena(),
                    node as int,
                    a - node_x,
                    b - node_y,
                ));
            };
            assert forall|a: int, b: int|
                node_x + h <= a < node_x + 2 * h && node_y + h <= b < node_y + 2 * h implies
                #[trigger] self.cell_alive(a, b) == node_cell(
                self.arena(),
                se as int,
                a - (node_x + h),
                b - (node_y + h),
            ) by {
                assert(self.cell_alive(a, b) == node_cell(
                    self.arena(),
                    node as int,
                    a - node_x,
                    b - node_y,
                ));
            };
        }
        let ghost len0 = out@.len();
        self.render_rec(nw, node_x, node_y, vx0, vy0, vx1, vy1, min_size, out);
        let ghost o1 = out@;
        self.render_rec(ne, node_x + half, node_y, vx0, vy0, vx1, vy1, min_size, out);
        let ghost o2 = out@;
        self.render_rec(sw, node_x, node_y + half, vx0, vy0, vx1, vy1, min_size, out);
        let ghost o3 = out@;
        self.render_rec(se, node_x + half, node_y + half, vx0, vy0, vx1, vy1, min_size, out);
        proof {
            let of = out@;
            let h = crate::model::side_of((n.level - 1) as nat);
            assert forall|i: int| 0 <= i < o1.len() implies #[trigger] of[i] == o1[i] by {
                assert(o2[i] == o1[i]);
                assert(o3[i] == o2[i]);
            };
            assert forall|i: int| 0 <= i < o2.len() implies #[trigger] of[i] == o2[i] by {
                assert(o3[i] == o2[i]);
            };
            assert forall|i: int, j: int|
                #![trigger of[i], of[j]]
                len0 <= i < j < of.len() implies regions_disjoint(of[i], of[j]) by {
                if j < o1.len() {
                    assert(of[i] == o1[i]);
                    assert(of[j] == o1[j]);
                } else if j < o2.len() {
                    assert(of[j] == o2[j]);
                    if i < o1.len() {
                        assert(of[i] == o1[i]);
                    } else {
                        assert(of[i] == o2[i]);
                    }
                } else if j < o3.len() {
                    assert(of[j] == o3[j]);
                    if i < o1.len() {
                        assert(of[i] == o1[i]);
                    } else if i < o2.len() {
                        assert(of[i] == o2[i]);
                    } else {
                        assert(of[i] == o3[i]);
                    }
                } else {
                    if i < o1.len() {
                        assert(of[i] == o1[i]);
                    } else if i < o2.len() {
                        assert(of[i] == o2[i]);
                    } else if i < o3.len() {
                        assert(of[i] == o3[i]);
                    }
                }
            };
            lemma_cell_dispatch(self.arena(), node as int);
            assert forall|a: int, b: int|
                node_x <= a < node_x as int + node_side(self.arena(), node as int) && node_y <= b
                    < node_y as int + node_side(self.arena(), node as int) && vx0 <= a <= vx1
                    && vy0 <= b <= vy1 && #[trigger] node_cell(
                    self.arena(),
                    node as int,
                    a - node_x,
                    b - node_y,
                ) implies exists|i: int|
                0 <= i < of.len() && region_covers(#[trigger] of[i], a, b) by {
                if a - node_x < h {
                    if b - node_y < h {
                        assert(node_cell(self.arena(), nw as int, a - node_x, b - node_y));
                        let i = choose|i: int|
                            0 <= i < o1.len() && region_covers(#[trigger] o1[i], a, b);
                        assert(of[i] == o1[i]);
                        assert(region_covers(of[i], a, b));
                    } else {
                        assert(node_cell(
                            self.arena(),
                            sw as int,
                            a - node_x,
                            b - (node_y + half),
                        ));
                        let i = choose|i: int|
                            0 <= i < o3.len() && region_covers(#[trigger] o3[i], a, b);
                        assert(of[i] == o3[i]);
                        assert(region_covers(of[i], a, b));
                    }
                } else {
                    if b - node_y < h {
                        assert(node_cell(
                            self.arena(),
                            ne as int,
                            a - (node_x + half),
                            b - node_y,
                        ));
                        let i = choose|i: int|
                            0 <= i < o2.len() && region_covers(#[trigger] o2[i], a, b);
                        assert(of[i] == o2[i]);
                        assert(region_covers(of[i], a, b));
                    } else {
                        assert(node_cell(
                            self.arena(),
                            se as int,
                            a - (node_x + half),
                            b - (node_y + half),
                        ));
                        let i = choose|i: int|
                            0 <= i < of.len() && region_covers(#[trigger] of[i], a, b);
                    }
                }
            };
        }
    }

    /// The render region query: density-annotated squares for the inclusive
    /// view rectangle. Every emitted tuple `(x, y, side, population)` is a
    /// populated square meeting the view, with side at most
    /// `max(min_render_size, 1)` and population at most `side * side`; every
    /// live cell of the view lies in an emitted square. Subtrees without
    /// live cells, and subtrees outside the view, are pruned.
    pub fn collect_render_regions(
        &self,
        view_x_min: i64,
        view_y_min: i64,
        view_x_max: i64,
        view_y_max: i64,
        min_render_size: u32,
    ) -> (r: Vec<(i64, i64, u64, u64)>)
        requires
            self.inv(),
        ensures
            forall|i: int|
                0 <= i < r@.len() ==> render_tuple_ok(
                    #[trigger] r@[i],
                    view_x_min as int,
                    view_y_min as int,
                    view_x_max as int,
                    view_y_max as int,
                    min_render_size as int,
                ),
            forall|i: int|
                0 <= i < r@.len() ==> (#[trigger] r@[i]).3 as int == alive_rect_count(
                    *self,
                    r@[i].0 as int,
                    r@[i].1 as int,
                    r@[i].0 as int + r@[i].2 as int,
                    r@[i].1 as int + r@[i].2 as int,
                ),
            forall|i: int, j: int|
                #![trigger r@[i], r@[j]]
                0 <= i < j < r@.len() ==> regions_disjoint(r@[i], r@[j]),
            forall|a: int, b: int|
                view_x_min <= a <= view_x_max && view_y_min <= b <= view_y_max
                    && #[trigger] self.cell_alive(a, b) ==> exists|i: int|
                    0 <= i < r@.len() && region_covers(#[trigger] r@[i], a, b),
    {
        proof {
            lemma2_to64();
            assert(node_wf(self.arena(), self.root as int));
            if ((self.root_lvl() - 1) as nat) < 30 {
                lemma_pow2_strictly_increases((self.root_lvl() - 1) as nat, 30);
            }
            lemma_side_unfold(self.root_lvl());
        }
        let level = self.root_level();
        let half = pow2_i64(level - 1);
        let mut out: Vec<(i64, i64, u64, u64)> = Vec::new();
        self.render_rec(
            self.root,
            -half,
            -half,
            view_x_min,
            view_y_min,
            view_x_max,
            view_y_max,
            min_render_size,
            &mut out,
        );
        proof {
            assert forall|a: int, b: int|
                view_x_min <= a <= view_x_max && view_y_min <= b <= view_y_max
                    && #[trigger] self.cell_alive(a, b) implies exists|i: int|
                0 <= i < out@.len() && region_covers(#[trigger] out@[i], a, b) by {
                assert(node_cell(self.arena(), self.root as int, a - (-half), b - (-half)));
            };
        }
        out
    }

    /// Every live cell of the inclusive rectangle, as `(x, y)` pairs, each
    /// exactly once.
    pub fn get_cells(&self, x_min: i64, y_min: i64, x_max: i64, y_max: i64) -> (r: Vec<(i64, i64)>)
        requires
            self.inv(),
        ensures
            forall|i: int|
                0 <= i < r@.len() ==> (x_min <= (#[trigger] r@[i]).0 <= x_max && y_min <= r@[i].1
                    <= y_max && self.cell_alive(r@[i].0 as int, r@[i].1 as int)),
            forall|a: int, b: int|
                x_min <= a <= x_max && y_min <= b <= y_max && #[trigger] self.cell_alive(a, b)
                    ==> exists|i: int|
                    0 <= i < r@.len() && (#[trigger] r@[i]).0 == a && r@[i].1 == b,
            forall|i: int, j: int| 0 <= i < j < r@.len() ==> r@[i] != r@[j],
    {
        let mut out: Vec<(i64, i64)> = Vec::new();
        if x_min > x_max || y_min > y_max {
            return out;
        }
        let mut y = y_min;
        loop
            invariant_except_break
                self.inv(),
                x_min <= x_max,
                y_min <= y <= y_max,
                forall|i: int|
                    0 <= i < out@.len() ==> (x_min <= (#[trigger] out@[i]).0 <= x_max && y_min
                        <= out@[i].1 <= y_max && self.cell_alive(
                        out@[i].0 as int,
                        out@[i].1 as int,
                    )),
                forall|i: int| 0 <= i < out@.len() ==> (#[trigger] out@[i]).1 < y,
                forall|a: int, b: int|
                    x_min <= a <= x_max && y_min <= b < y && #[trigger] self.cell_alive(a, b)
                        ==> exists|i: int|
                        0 <= i < out@.len() && (#[trigger] out@[i]).0 == a && out@[i].1 == b,
                forall|i: int, j: int| 0 <= i < j < out@.len() ==> out@[i] != out@[j],
            ensures
                forall|i: int|
                    0 <= i < out@.len() ==> (x_min <= (#[trigger] out@[i]).0 <= x_max && y_min
                        <= out@[i].1 <= y_max && self.cell_alive(
                        out@[i].0 as int,
                        out@[i].1 as int,
                    )),
                forall|a: int, b: int|
                    x_min <= a <= x_max && y_min <= b <= y_max && #[trigger] self.cell_alive(a, b)
                        ==> exists|i: int|
                        0 <= i < out@.len() && (#[trigger] out@[i]).0 == a && out@[i].1 == b,
                forall|i: int, j: int| 0 <= i < j < out@.len() ==> out@[i] != out@[j],
            decreases y_max - y,
        {
            let mut x = x_min;
            loop
                invariant_except_break
                    self.inv(),
                    x_min <= x <= x_max,
                    y_min <= y <= y_max,
                    x_min <= x_max,
                    forall|i: int|
                        0 <= i < out@.len() ==> (x_min <= (#[trigger] out@[i]).0 <= x_max && y_min
                            <= out@[i].1 <= y_max && self.cell_alive(
                            out@[i].0 as int,
                            out@[i].1 as int,
                        )),
                    forall|i: int|
                        0 <= i < out@.len() ==> ((#[trigger] out@[i]).1 < y || (out@[i].1 == y
                            && out@[i].0 < x)),
                    forall|a: int, b: int|
                        x_min <= a <= x_max && y_min <= b <= y_max && (b < y || (b == y && a < x))
                            && #[trigger] self.cell_alive(a, b) ==> exists|i: int|
                            0 <= i < out@.len() && (#[trigger] out@[i]).0 == a && out@[i].1 == b,
                    forall|i: int, j: int| 0 <= i < j < out@.len() ==> out@[i] != out@[j],
                ensures
                    forall|i: int|
                        0 <= i < out@.len() ==> (x_min <= (#[trigger] out@[i]).0 <= x_max && y_min
                            <= out@[i].1 <= y_max && self.cell_alive(
                            out@[i].0 as int,
                            out@[i].1 as int,
                        )),
                    forall|i: int| 0 <= i < out@.len() ==> (#[trigger] out@[i]).1 <= y,
                    forall|a: int, b: int|
                        x_min <= a <= x_max && y_min <= b <= y && #[trigger] self.cell_alive(a, b)
                            ==> exists|i: int|
                            0 <= i < out@.len() && (#[trigger] out@[i]).0 == a && out@[i].1 == b,
                    forall|i: int, j: int| 0 <= i < j < out@.len() ==> out@[i] != out@[j],
                decreases x_max - x,
            {
                let ghost out0 = out@;
                if self.get_cell(x, y) {
                    out.push((x, y));
                }
                proof {
                    assert forall|a: int, b: int|
                        x_min <= a <= x_max && y_min <= b <= y_max && (b < y || (b == y && a <= x))
                            && #[trigger] self.cell_alive(a, b) implies exists|i: int|
                        0 <= i < out@.len() && (#[trigger] out@[i]).0 == a && out@[i].1 == b by {
                        if b == y && a == x {
                            assert(out@[out@.len() - 1].0 == a && out@[out@.len() - 1].1 == b);
                        } else {
                            let i = choose|i: int|
                                0 <= i < out0.len() && (#[trigger] out0[i]).0 == a && out0[i].1
                                    == b;
                            assert(out@[i] == out0[i]);
                        }
                    };
                }
                if x == x_max {
                    break ;
                }
                x = x + 1;
            }
            if y == y_max {
                break ;
            }
            y = y + 1;
        }
        out
    }
}

} // verus!
