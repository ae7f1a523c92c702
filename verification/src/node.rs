//! Quadtree node values and the errors the library reports.
//!
//! A node is either a leaf (one cell) or the composition of four equal-level
//! quadrants. Nodes are immutable values held in the cache's arena; a node
//! refers to its children by their arena indices, which double as the
//! canonical identities of the children.

use vstd::arithmetic::power2::lemma2_to64;
use vstd::arithmetic::power2::lemma2_to64_rest;
use vstd::arithmetic::power2::lemma_pow2_strictly_increases;
use vstd::arithmetic::power2::lemma_pow2_unfold;
use vstd::arithmetic::power2::pow2;
use vstd::prelude::*;

verus! {

/// Deepest level the quadtree may reach. The root square then has side
/// `2^31`, so every coordinate computation fits in `i64` and a population
/// count (at most `4^31 = 2^62` cells) fits in `u64`.
pub const MAX_LEVEL: u8 = 31;

/// What a node contains: a single cell, or four quadrants of equal level,
/// named by their arena indices. `nw` is the quadrant with the smaller
/// coordinates in both axes, `se` the one with the larger.
#[derive(Clone, Copy, Debug, PartialEq, Eq, Structural)]
pub enum NodeContent {
    Leaf(bool),
    Inner { nw: usize, ne: usize, sw: usize, se: usize },
}

/// One quadtree node: its level (a level-`k` node covers a `2^k x 2^k`
/// square), the number of live cells it contains, and its content.
#[derive(Clone, Copy, Debug, PartialEq, Eq, Structural)]
pub struct Node {
    pub level: u8,
    pub population: u64,
    pub content: NodeContent,
}

/// The errors the library reports.
#[derive(Clone, Copy, Debug, PartialEq, Eq, Structural)]
pub enum UniverseError {
    /// Children handed to the node factory do not share a level.
    PreconditionViolated,
    /// A coordinate is so extreme that covering it would push the root
    /// past `MAX_LEVEL`.
    NotRepresentable,
}

impl Node {
    /// The leaf value for a single cell.
    pub fn leaf(alive: bool) -> (r: Node)
        ensures
            r == (Node {
                level: 0,
                population: if alive {
                    1u64
                } else {
                    0u64
                },
                content: NodeContent::Leaf(alive),
            }),
    {
        Node {
            level: 0,
            population: if alive {
                1
            } else {
                0
            },
            content: NodeContent::Leaf(alive),
        }
    }

    /// Whether this node is a live leaf.
    pub fn is_alive(&self) -> (r: bool)
        ensures
            r == (self.content == NodeContent::Leaf(true)),
    {
        match self.content {
            NodeContent::Leaf(alive) => alive,
            NodeContent::Inner { .. } => false,
        }
    }
}

/// `2^e`, as an executable number.
pub fn pow2_u64(e: u8) -> (r: u64)
    requires
        e <= 62,
    ensures
        r == pow2(e as nat),
{
    proof {
        lemma2_to64();
        lemma2_to64_rest();
    }
    let mut r: u64 = 1;
    let mut i: u8 = 0;
    while i < e
        invariant
            i <= e,
            e <= 62,
            r == pow2(i as nat),
        decreases e - i,
    {
        proof {
            lemma_pow2_unfold((i + 1) as nat);
            if ((i + 1) as nat) < 62 {
                lemma_pow2_strictly_increases((i + 1) as nat, 62);
            }
            lemma2_to64_rest();
        }
        r = r * 2;
        i = i + 1;
    }
    r
}

/// `2^e`, as an executable signed number; used for coordinate arithmetic.
pub fn pow2_i64(e: u8) -> (r: i64)
    requires
        e <= 62,
    ensures
        r == pow2(e as nat),
{
    proof {
        lemma2_to64_rest();
        if (e as nat) < 62 {
            lemma_pow2_strictly_increases(e as nat, 62);
        }
    }
    let r = pow2_u64(e);
    r as i64
}

} // verus!
