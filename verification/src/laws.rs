//! General laws of the universe's observable behaviour, stated over the
//! cell model that the public contracts use.

use crate::universe::Universe;
use vstd::prelude::*;

verus! {

/// Writing the same value to the same cell twice is the same as writing it
/// once: a second write that `set_cell`'s contract describes leaves every
/// cell exactly where the first write put it.
pub proof fn lemma_set_cell_idempotent(
    u0: Universe,
    u1: Universe,
    u2: Universe,
    x: int,
    y: int,
    alive: bool,
)
    requires
        forall|a: int, b: int|
            #[trigger] u1.cell_alive(a, b) == (if a == x && b == y {
                alive
            } else {
                u0.cell_alive(a, b)
            }),
        forall|a: int, b: int|
            #[trigger] u2.cell_alive(a, b) == (if a == x && b == y {
                alive
            } else {
                u1.cell_alive(a, b)
            }),
    ensures
        forall|a: int, b: int| #[trigger] u2.cell_alive(a, b) == u1.cell_alive(a, b),
{
    assert forall|a: int, b: int| #[trigger] u2.cell_alive(a, b) == u1.cell_alive(a, b) by {
        assert(u1.cell_alive(a, b) == (if a == x && b == y {
            alive
        } else {
            u0.cell_alive(a, b)
        }));
    };
}

/// An all-dead universe stays all-dead under one generation: no cell has a
/// live neighbour, so none is born.
pub proof fn lemma_dead_universe_stays_dead(u: Universe)
    requires
        forall|x: int, y: int| !(#[trigger] u.cell_alive(x, y)),
    ensures
        forall|x: int, y: int| !(#[trigger] u.next_alive(x, y)),
{
    assert forall|x: int, y: int| !(#[trigger] u.next_alive(x, y)) by {
        assert(!u.cell_alive(x - 1, y - 1));
        assert(!u.cell_alive(x, y - 1));
        assert(!u.cell_alive(x + 1, y - 1));
        assert(!u.cell_alive(x - 1, y));
        assert(!u.cell_alive(x, y));
        assert(!u.cell_alive(x + 1, y));
        assert(!u.cell_alive(x - 1, y + 1));
        assert(!u.cell_alive(x, y + 1));
        assert(!u.cell_alive(x + 1, y + 1));
    };
}

} // verus!
