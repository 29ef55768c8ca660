use vstd::prelude::*;
use crate::vertex::Vertex;

verus! {

/// The mutable search-state record attached to one vertex: `property` holds
/// the `(f, g, h)` scores, and `prev` the index of the predecessor node in
/// the search pool, or `None` while the node has no predecessor.
#[derive(Clone, Copy, Debug)]
pub struct Node {
    pub pos: Vertex,
    pub property: (i64, i64, i64),
    pub prev: Option<usize>,
}

impl Node {
    pub fn new(pos: Vertex) -> (r: Node)
        ensures
            r.pos == pos,
            r.property.0 == 0 && r.property.1 == 0 && r.property.2 == 0,
            r.prev is None,
    {
        Node { pos, property: (0i64, 0i64, 0i64), prev: None }
    }

    #[inline]
    pub fn pos(&self) -> (r: Vertex)
        ensures
            r == self.pos,
    {
        self.pos
    }

    /// Record a new accumulated cost `g` and heuristic estimate `h`; the
    /// total score `f` is always recomputed as their sum, so no stale `f`
    /// can persist.
    #[inline]
    pub fn update(&mut self, g: i64, h: i64)
        requires
            i64::MIN <= g + h <= i64::MAX,
        ensures
            final(self).property.0 == g + h,
            final(self).property.1 == g,
            final(self).property.2 == h,
            final(self).pos == old(self).pos,
            final(self).prev == old(self).prev,
    {
        self.property = (g + h, g, h);
    }

    #[inline]
    pub fn get_g(&self) -> (r: i64)
        ensures
            r == self.property.1,
    {
        self.property.1
    }
}

} // verus!
