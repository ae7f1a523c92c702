//! The canonicalizing node factory.
//!
//! The cache owns the arena of all nodes ever produced. It hands out the two
//! canonical leaves, deduplicates inner nodes by the identities of their four
//! children, and derives canonical all-dead nodes at every level. An index it
//! returns stays valid, and the node under it unchanged, for the cache's
//! whole life.

use crate::model::arena_wf;
use crate::model::extends;
use crate::model::node_cell;
use crate::model::node_wf;
use crate::node::Node;
use crate::node::NodeContent;
use crate::node::UniverseError;
use crate::node::MAX_LEVEL;
use vstd::prelude::*;

verus! {

/// Factory and arena for canonical nodes.
pub struct NodeCache {
    pub(crate) nodes: Vec<Node>,
}

impl NodeCache {
    /// The arena contents, for specifications.
    pub open(crate) spec fn arena(self) -> Seq<Node> {
        self.nodes@
    }

    /// The cache invariant: see [`arena_wf`].
    pub open spec fn wf(self) -> bool {
        arena_wf(self.arena())
    }

    /// A fresh cache holding exactly the two canonical leaves.
    pub fn new() -> (r: NodeCache)
        ensures
            r.wf(),
            r.arena().len() == 2,
    {
        let mut nodes: Vec<Node> = Vec::new();
        nodes.push(Node { level: 0, population: 0, content: NodeContent::Leaf(false) });
        nodes.push(Node { level: 0, population: 1, content: NodeContent::Leaf(true) });
        let r = NodeCache { nodes };
        proof {
            assert forall|i: int| 0 <= i < r.arena().len() implies #[trigger] node_wf(
                r.arena(),
                i,
            ) by {};
        }
        r
    }

    /// Number of nodes the cache has produced so far.
    pub fn node_count(&self) -> (r: usize)
        ensures
            r == self.arena().len(),
    {
        self.nodes.len()
    }

    /// A copy of the node at a valid index.
    pub fn node(&self, i: usize) -> (r: Node)
        requires
            i < self.arena().len(),
        ensures
            r == self.arena()[i as int],
    {
        self.nodes[i]
    }

    /// The canonical leaf for a dead (index 0) or live (index 1) cell.
    pub fn get_leaf(&self, alive: bool) -> (r: usize)
        requires
            self.wf(),
        ensures
            r == (if alive {
                1int
            } else {
                0int
            }),
            r < self.arena().len(),
            self.arena()[r as int].level == 0,
            self.arena()[r as int].population == (if alive {
                1u64
            } else {
                0u64
            }),
            forall|x: int, y: int|
                #[trigger] node_cell(self.arena(), r as int, x, y) == (alive && x == 0 && y == 0),
    {
        proof {
            let a = self.arena();
            let r: int = if alive {
                1
            } else {
                0
            };
            assert forall|x: int, y: int|
                #[trigger] node_cell(a, r, x, y) == (alive && x == 0 && y == 0) by {
                crate::model::lemma_small_pow2();
            };
        }
        if alive {
            1
        } else {
            0
        }
    }

    /// The canonical index of the inner node with exactly these children, if
    /// one has been produced already.
    fn find_inner(&self, nw: usize, ne: usize, sw: usize, se: usize) -> (r: Option<usize>)
        requires
            self.wf(),
        ensures
            match r {
                Some(i) => i < self.arena().len() && self.arena()[i as int].content == (
                NodeContent::Inner { nw, ne, sw, se }),
                None => forall|j: int|
                    0 <= j < self.arena().len() ==> (#[trigger] self.arena()[j]).content != (
                    NodeContent::Inner { nw, ne, sw, se }),
            },
    {
        let mut i: usize = 0;
        while i < self.nodes.len()
            invariant
                self.wf(),
                i <= self.arena().len(),
                forall|j: int|
                    0 <= j < i ==> (#[trigger] self.arena()[j]).content != (NodeContent::Inner {
                        nw,
                        ne,
                        sw,
                        se,
                    }),
            decreases self.arena().len() - i,
        {
            match self.nodes[i].content {
                NodeContent::Inner { nw: a, ne: b, sw: c, se: d } => {
                    if a == nw && b == ne && c == sw && d == se {
                        return Some(i);
                    }
                },
                NodeContent::Leaf(_) => {},
            }
            i = i + 1;
        }
        None
    }

    /// The canonical inner node composed of the four given children, which
    /// must share a level below `MAX_LEVEL`. On success the returned index
    /// either already existed (same children, same node) or is a fresh entry;
    /// either way its content, level and population are determined by the
    /// children. On failure the cache is unchanged.
    pub fn get_inner(&mut self, nw: usize, ne: usize, sw: usize, se: usize) -> (r: Result<
        usize,
        UniverseError,
    >)
        requires
            old(self).wf(),
            nw < old(self).arena().len(),
            ne < old(self).arena().len(),
            sw < old(self).arena().len(),
            se < old(self).arena().len(),
        ensures
            final(self).wf(),
            extends(final(self).arena(), old(self).arena()),
            r is Ok <==> (old(self).arena()[nw as int].level == old(self).arena()[ne as int].level
                && old(self).arena()[nw as int].level == old(self).arena()[sw as int].level && old(
                self,
            ).arena()[nw as int].level == old(self).arena()[se as int].level && old(
                self,
            ).arena()[nw as int].level < MAX_LEVEL),
            match r {
                Ok(i) => {
                    &&& i < final(self).arena().len()
                    &&& final(self).arena()[i as int].content == (NodeContent::Inner { nw, ne, sw, se })
                    &&& final(self).arena()[i as int].level == old(self).arena()[nw as int].level + 1
                    &&& final(self).arena()[i as int].population as int == old(
                        self,
                    ).arena()[nw as int].population as int + old(
                        self,
                    ).arena()[ne as int].population as int + old(
                        self,
                    ).arena()[sw as int].population as int + old(
                        self,
                    ).arena()[se as int].population as int
                },
                Err(e) => {
                    &&& final(self).arena() == old(self).arena()
                    &&& e == (if !(old(self).arena()[nw as int].level == old(
                        self,
                    ).arena()[ne as int].level && old(self).arena()[nw as int].level == old(
                        self,
                    ).arena()[sw as int].level && old(self).arena()[nw as int].level == old(
                        self,
                    ).arena()[se as int].level) {
                        UniverseError::PreconditionViolated
                    } else {
                        UniverseError::NotRepresentable
                    })
                },
            },
    {
        let n_nw = self.nodes[nw];
        let n_ne = self.nodes[ne];
        let n_sw = self.nodes[sw];
        let n_se = self.nodes[se];
        if n_nw.level != n_ne.level || n_nw.level != n_sw.level || n_nw.level != n_se.level {
            return Err(UniverseError::PreconditionViolated);
        }
        if n_nw.level >= MAX_LEVEL {
            return Err(UniverseError::NotRepresentable);
        }
        match self.find_inner(nw, ne, sw, se) {
            Some(i) => {
                proof {
                    assert(node_wf(self.arena(), i as int));
                }
                Ok(i)
            },
            None => {
                proof {
                    crate::model::lemma_population_bound(self.arena(), nw as int);
                    crate::model::lemma_population_bound(self.arena(), ne as int);
                    crate::model::lemma_population_bound(self.arena(), sw as int);
                    crate::model::lemma_population_bound(self.arena(), se as int);
                    vstd::arithmetic::power2::lemma2_to64();
                    vstd::arithmetic::power2::lemma2_to64_rest();
                    vstd::arithmetic::power2::lemma_pow2_strictly_increases(
                        (2 * n_nw.level) as nat,
                        61,
                    );
                }
                let population = n_nw.population + n_ne.population + n_sw.population
                    + n_se.population;
                let node = Node {
                    level: n_nw.level + 1,
                    population,
                    content: NodeContent::Inner { nw, ne, sw, se },
                };
                let i = self.nodes.len();
                let ghost old_arena = self.arena();
                self.nodes.push(node);
                proof {
                    let a = self.arena();
                    assert forall|j: int| 0 <= j < a.len() implies #[trigger] node_wf(a, j) by {
                        if j < old_arena.len() {
                            assert(node_wf(old_arena, j));
                        }
                    };
                    assert forall|j: int, k: int|
                        #![trigger a[j], a[k]]
                        0 <= j < a.len() && 0 <= k < a.len() && j != k implies a[j].content
                        != a[k].content by {};
                }
                Ok(i)
            },
        }
    }

    /// The canonical all-dead node at the given level: the dead leaf at level
    /// 0, and at every higher level the inner node whose four quadrants are
    /// the all-dead node one level down.
    pub fn get_empty(&mut self, level: u8) -> (r: usize)
        requires
            old(self).wf(),
            level <= MAX_LEVEL,
        ensures
            final(self).wf(),
            extends(final(self).arena(), old(self).arena()),
            r < final(self).arena().len(),
            final(self).arena()[r as int].level == level,
            final(self).arena()[r as int].population == 0,
        decreases level,
    {
        if level == 0 {
            let r = self.get_leaf(false);
            return r;
        }
        let sub = self.get_empty(level - 1);
        match self.get_inner(sub, sub, sub, sub) {
            Ok(i) => i,
            Err(_) => vstd::pervasive::unreached(),
        }
    }
}

} // verus!
