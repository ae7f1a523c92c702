//! Counting live cells, and the law that a node's stored population is
//! exactly the number of live cells of its square.

use crate::model::arena_wf;
use crate::model::cell_int;
use crate::model::lemma_cell_dispatch;
use crate::model::lemma_side_unfold;
use crate::model::lemma_small_pow2;
use crate::model::node_cell;
use crate::model::node_side;
use crate::model::node_wf;
use crate::model::quad_ne;
use crate::model::quad_nw;
use crate::model::quad_se;
use crate::model::quad_sw;
use crate::model::side_of;
use crate::node::Node;
use crate::node::NodeContent;
use crate::universe::Universe;
use vstd::prelude::*;

verus! {

/// Live cells of entry `i` in row `y`, columns `[x0, x1)`.
pub open spec fn row_count(nodes: Seq<Node>, i: int, y: int, x0: int, x1: int) -> int
    decreases x1 - x0,
{
    if x1 <= x0 {
        0
    } else {
        row_count(nodes, i, y, x0, x1 - 1) + cell_int(nodes, i, x1 - 1, y)
    }
}

/// Live cells of entry `i` in the rectangle `[x0, x1) x [y0, y1)`.
pub open spec fn rect_count(nodes: Seq<Node>, i: int, x0: int, y0: int, x1: int, y1: int) -> int
    decreases y1 - y0,
{
    if y1 <= y0 {
        0
    } else {
        rect_count(nodes, i, x0, y0, x1, y1 - 1) + row_count(nodes, i, y1 - 1, x0, x1)
    }
}

/// Live cells of the universe in row `y`, columns `[x0, x1)` of the plane.
pub open spec fn alive_row_count(u: Universe, y: int, x0: int, x1: int) -> int
    decreases x1 - x0,
{
    if x1 <= x0 {
        0
    } else {
        alive_row_count(u, y, x0, x1 - 1) + (if u.cell_alive(x1 - 1, y) {
            1int
        } else {
            0
        })
    }
}

/// Live cells of the universe in the rectangle `[x0, x1) x [y0, y1)`.
pub open spec fn alive_rect_count(u: Universe, x0: int, y0: int, x1: int, y1: int) -> int
    decreases y1 - y0,
{
    if y1 <= y0 {
        0
    } else {
        alive_rect_count(u, x0, y0, x1, y1 - 1) + alive_row_count(u, y1 - 1, x0, x1)
    }
}

proof fn lemma_row_split(nodes: Seq<Node>, i: int, y: int, x0: int, x1: int, x2: int)
    requires
        x0 <= x1 <= x2,
    ensures
        row_count(nodes, i, y, x0, x2) == row_count(nodes, i, y, x0, x1) + row_count(
            nodes,
            i,
            y,
            x1,
            x2,
        ),
    decreases x2 - x1,
{
    if x1 < x2 {
        lemma_row_split(nodes, i, y, x0, x1, x2 - 1);
    }
}

proof fn lemma_rect_split_y(nodes: Seq<Node>, i: int, x0: int, x1: int, y0: int, y1: int, y2: int)
    requires
        y0 <= y1 <= y2,
    ensures
        rect_count(nodes, i, x0, y0, x1, y2) == rect_count(nodes, i, x0, y0, x1, y1) + rect_count(
            nodes,
            i,
            x0,
            y1,
            x1,
            y2,
        ),
    decreases y2 - y1,
{
    if y1 < y2 {
        lemma_rect_split_y(nodes, i, x0, x1, y0, y1, y2 - 1);
    }
}

proof fn lemma_rect_split_x(nodes: Seq<Node>, i: int, x0: int, x1: int, x2: int, y0: int, y1: int)
    requires
        x0 <= x1 <= x2,
    ensures
        rect_count(nodes, i, x0, y0, x2, y1) == rect_count(nodes, i, x0, y0, x1, y1) + rect_count(
            nodes,
            i,
            x1,
            y0,
            x2,
            y1,
        ),
    decreases y1 - y0,
{
    if y0 < y1 {
        lemma_rect_split_x(nodes, i, x0, x1, x2, y0, y1 - 1);
        lemma_row_split(nodes, i, y1 - 1, x0, x1, x2);
    }
}

proof fn lemma_row_transfer(
    na: Seq<Node>,
    ia: int,
    nb: Seq<Node>,
    ib: int,
    y: int,
    dx: int,
    dy: int,
    x0: int,
    x1: int,
)
    requires
        forall|x: int|
            x0 <= x < x1 ==> #[trigger] node_cell(na, ia, x, y) == node_cell(
                nb,
                ib,
                x + dx,
                y + dy,
            ),
    ensures
        row_count(na, ia, y, x0, x1) == row_count(nb, ib, y + dy, x0 + dx, x1 + dx),
    decreases x1 - x0,
{
    if x0 < x1 {
        lemma_row_transfer(na, ia, nb, ib, y, dx, dy, x0, x1 - 1);
        assert(node_cell(na, ia, x1 - 1, y) == node_cell(nb, ib, x1 - 1 + dx, y + dy));
    }
}

proof fn lemma_rect_transfer(
    na: Seq<Node>,
    ia: int,
    nb: Seq<Node>,
    ib: int,
    dx: int,
    dy: int,
    x0: int,
    y0: int,
    x1: int,
    y1: int,
)
    requires
        forall|x: int, y: int|
            x0 <= x < x1 && y0 <= y < y1 ==> #[trigger] node_cell(na, ia, x, y) == node_cell(
                nb,
                ib,
                x + dx,
                y + dy,
            ),
    ensures
        rect_count(na, ia, x0, y0, x1, y1) == rect_count(
            nb,
            ib,
            x0 + dx,
            y0 + dy,
            x1 + dx,
            y1 + dy,
        ),
    decreases y1 - y0,
{
    if y0 < y1 {
        lemma_rect_transfer(na, ia, nb, ib, dx, dy, x0, y0, x1, y1 - 1);
        assert forall|x: int| x0 <= x < x1 implies #[trigger] node_cell(na, ia, x, y1 - 1)
            == node_cell(nb, ib, x + dx, y1 - 1 + dy) by {};
        lemma_row_transfer(na, ia, nb, ib, y1 - 1, dx, dy, x0, x1);
    }
}

/// The stored population of a cached node is exactly the number of live
/// cells of the square it represents.
pub proof fn lemma_population_counts(nodes: Seq<Node>, i: int)
    requires
        arena_wf(nodes),
        0 <= i < nodes.len(),
    ensures
        nodes[i].population as int == rect_count(
            nodes,
            i,
            0,
            0,
            node_side(nodes, i),
            node_side(nodes, i),
        ),
    decreases i,
{
    assert(node_wf(nodes, i));
    match nodes[i].content {
        NodeContent::Leaf(alive) => {
            lemma_small_pow2();
            assert(rect_count(nodes, i, 0, 0, 1, 1) == rect_count(nodes, i, 0, 0, 1, 0)
                + row_count(nodes, i, 0, 0, 1));
            assert(row_count(nodes, i, 0, 0, 1) == row_count(nodes, i, 0, 0, 0) + cell_int(
                nodes,
                i,
                0,
                0,
            ));
        },
        NodeContent::Inner { nw, ne, sw, se } => {
            lemma_side_unfold(nodes[i].level as nat);
            let h = side_of((nodes[i].level - 1) as nat);
            lemma_population_counts(nodes, nw as int);
            lemma_population_counts(nodes, ne as int);
            lemma_population_counts(nodes, sw as int);
            lemma_population_counts(nodes, se as int);
            lemma_cell_dispatch(nodes, i);
            assert forall|x: int, y: int| 0 <= x < h && 0 <= y < h implies #[trigger] node_cell(
                nodes,
                nw as int,
                x,
                y,
            ) == node_cell(nodes, i, x + 0, y + 0) by {};
            assert forall|x: int, y: int| 0 <= x < h && 0 <= y < h implies #[trigger] node_cell(
                nodes,
                ne as int,
                x,
                y,
            ) == node_cell(nodes, i, x + h, y + 0) by {};
            assert forall|x: int, y: int| 0 <= x < h && 0 <= y < h implies #[trigger] node_cell(
                nodes,
                sw as int,
                x,
                y,
            ) == node_cell(nodes, i, x + 0, y + h) by {};
            assert forall|x: int, y: int| 0 <= x < h && 0 <= y < h implies #[trigger] node_cell(
                nodes,
                se as int,
                x,
                y,
            ) == node_cell(nodes, i, x + h, y + h) by {};
            lemma_rect_transfer(nodes, nw as int, nodes, i, 0, 0, 0, 0, h, h);
            lemma_rect_transfer(nodes, ne as int, nodes, i, h, 0, 0, 0, h, h);
            lemma_rect_transfer(nodes, sw as int, nodes, i, 0, h, 0, 0, h, h);
            lemma_rect_transfer(nodes, se as int, nodes, i, h, h, 0, 0, h, h);
            assert(quad_nw(nodes, i) == nw as int);
            assert(quad_ne(nodes, i) == ne as int);
            assert(quad_sw(nodes, i) == sw as int);
            assert(quad_se(nodes, i) == se as int);
            lemma_rect_split_y(nodes, i, 0, 2 * h, 0, h, 2 * h);
            lemma_rect_split_x(nodes, i, 0, h, 2 * h, 0, h);
            lemma_rect_split_x(nodes, i, 0, h, 2 * h, h, 2 * h);
        },
    }
}

proof fn lemma_alive_row_congruent(
    u: Universe,
    nodes: Seq<Node>,
    i: int,
    y: int,
    dx: int,
    dy: int,
    x0: int,
    x1: int,
)
    requires
        forall|x: int|
            x0 <= x < x1 ==> #[trigger] u.cell_alive(x, y) == node_cell(nodes, i, x + dx, y + dy),
    ensures
        alive_row_count(u, y, x0, x1) == row_count(nodes, i, y + dy, x0 + dx, x1 + dx),
    decreases x1 - x0,
{
    if x0 < x1 {
        lemma_alive_row_congruent(u, nodes, i, y, dx, dy, x0, x1 - 1);
        assert(u.cell_alive(x1 - 1, y) == node_cell(nodes, i, x1 - 1 + dx, y + dy));
    }
}

pub proof fn lemma_alive_rect_congruent(
    u: Universe,
    nodes: Seq<Node>,
    i: int,
    dx: int,
    dy: int,
    x0: int,
    y0: int,
    x1: int,
    y1: int,
)
    requires
        forall|x: int, y: int|
            x0 <= x < x1 && y0 <= y < y1 ==> #[trigger] u.cell_alive(x, y) == node_cell(
                nodes,
                i,
                x + dx,
                y + dy,
            ),
    ensures
        alive_rect_count(u, x0, y0, x1, y1) == rect_count(
            nodes,
            i,
            x0 + dx,
            y0 + dy,
            x1 + dx,
            y1 + dy,
        ),
    decreases y1 - y0,
{
    if y0 < y1 {
        lemma_alive_rect_congruent(u, nodes, i, dx, dy, x0, y0, x1, y1 - 1);
        assert forall|x: int| x0 <= x < x1 implies #[trigger] u.cell_alive(x, y1 - 1) == node_cell(
            nodes,
            i,
            x + dx,
            y1 - 1 + dy,
        ) by {};
        lemma_alive_row_congruent(u, nodes, i, y1 - 1, dx, dy, x0, x1);
    }
}

/// The population the universe reports is exactly the number of live cells
/// of the plane, counted over the window (outside it every cell is dead).
pub proof fn lemma_population_is_live_count(u: Universe)
    requires
        u.inv(),
    ensures
        u.pop() as int == alive_rect_count(u, -u.half(), -u.half(), u.half(), u.half()),
{
    lemma_population_counts(u.arena(), u.root as int);
    lemma_side_unfold(u.root_lvl());
    assert forall|x: int, y: int|
        -u.half() <= x < u.half() && -u.half() <= y < u.half() implies #[trigger] u.cell_alive(
        x,
        y,
    ) == node_cell(u.arena(), u.root as int, x + u.half(), y + u.half()) by {};
    lemma_alive_rect_congruent(
        u,
        u.arena(),
        u.root as int,
        u.half(),
        u.half(),
        -u.half(),
        -u.half(),
        u.half(),
        u.half(),
    );
}

} // verus!
