use vstd::prelude::*;

verus! {

/// The label of a vertex. It carries no information used by the algorithms.
#[derive(Clone, Copy, Debug, PartialEq, Eq, Hash, Structural)]
pub struct VertexNode;

/// The state of one directed edge record: `Closed` is a wall, `Open` a passage.
#[derive(Clone, Copy, Debug, PartialEq, Eq, Hash, Structural)]
pub enum EdgeNode {
    Open,
    Closed,
}

/// A directed adjacency graph keyed by dense `u32` cell ids.
///
/// Slot `id` of `vertices` holds the label of vertex `id`, if one was pushed;
/// slot `id` of `adjacency` holds the ordered edge records that start at `id`,
/// or nothing if no edge was ever pushed from `id`.
#[derive(Clone, Debug)]
pub struct Graph {
    vertices: Vec<Option<VertexNode>>,
    adjacency: Vec<Option<Vec<(u32, EdgeNode)>>>,
}

impl Graph {
    /// Number of adjacency slots: every id below it may have an edge list.
    pub closed spec fn slots(&self) -> nat {
        self.adjacency@.len()
    }

    /// The label of vertex `id`, if one was pushed.
    pub closed spec fn vertex(&self, id: int) -> Option<VertexNode> {
        if 0 <= id < self.vertices@.len() {
            self.vertices@[id]
        } else {
            None
        }
    }

    /// The edge records that start at `id`, or `None` if no edge was ever pushed from it.
    pub closed spec fn edges(&self, id: int) -> Option<Seq<(u32, EdgeNode)>> {
        if 0 <= id < self.adjacency@.len() {
            match self.adjacency@[id] {
                Some(v) => Some(v@),
                None => None,
            }
        } else {
            None
        }
    }

    /// Every edge target has an adjacency slot.
    pub open spec fn wf(&self) -> bool {
        &&& self.slots() <= u32::MAX as int + 1
        &&& forall|u: int, i: int|
            #![trigger self.edges(u).unwrap()[i]]
            self.edges(u) is Some && 0 <= i < self.edges(u).unwrap().len()
                ==> self.edges(u).unwrap()[i].0 < self.slots()
    }

    /// An edge list exists only for ids below `slots`.
    pub proof fn lemma_edges_in_slots(&self, id: int)
        ensures
            self.edges(id) is Some ==> 0 <= id < self.slots(),
    {
    }

    /// There is a record `u -> v` in state `s`.
    pub open spec fn has_record(&self, u: int, v: int, s: EdgeNode) -> bool {
        &&& 0 <= v <= u32::MAX
        &&& self.edges(u) is Some
        &&& exists|i: int|
            0 <= i < self.edges(u).unwrap().len() && #[trigger] self.edges(u).unwrap()[i] == (
            v as u32,
            s,
        )
    }

    /// There is an open passage from `u` to `v`.
    pub open spec fn open_step(&self, u: int, v: int) -> bool {
        0 <= v <= u32::MAX && self.has_record(u, v, EdgeNode::Open)
    }

    /// There is a record `u -> v`, whatever its state.
    pub open spec fn any_step(&self, u: int, v: int) -> bool {
        &&& 0 <= v <= u32::MAX
        &&& self.edges(u) is Some
        &&& exists|i: int|
            0 <= i < self.edges(u).unwrap().len() && #[trigger] self.edges(u).unwrap()[i].0 == v
    }

    /// An open record `u -> v` means that no record between `u` and `v`, in
    /// either direction, is closed: every passage can be walked both ways.
    pub open spec fn open_symmetric(&self) -> bool {
        forall|u: int, v: int|
            #[trigger] self.open_step(u, v) ==> !self.has_record(u, v, EdgeNode::Closed)
                && !self.has_record(v, u, EdgeNode::Closed)
    }

    /// Where records run both ways between two cells of a graph whose passages
    /// are symmetric, the passage is open in one direction exactly when it is
    /// open in the other.
    pub proof fn lemma_open_both_ways(&self, u: int, v: int)
        requires
            self.open_symmetric(),
            self.any_step(u, v),
            self.any_step(v, u),
        ensures
            self.open_step(u, v) <==> self.open_step(v, u),
    {
        let i = choose|i: int|
            0 <= i < self.edges(u).unwrap().len() && #[trigger] self.edges(u).unwrap()[i].0 == v;
        let j = choose|j: int|
            0 <= j < self.edges(v).unwrap().len() && #[trigger] self.edges(v).unwrap()[j].0 == u;
        if self.open_step(u, v) {
            if self.edges(v).unwrap()[j].1 == EdgeNode::Closed {
                assert(self.has_record(v, u, EdgeNode::Closed));
            }
            assert(self.edges(v).unwrap()[j] == (u as u32, EdgeNode::Open));
        }
        if self.open_step(v, u) {
            if self.edges(u).unwrap()[i].1 == EdgeNode::Closed {
                assert(self.has_record(u, v, EdgeNode::Closed));
            }
            assert(self.edges(u).unwrap()[i] == (v as u32, EdgeNode::Open));
        }
    }

    /// `p` is a non-empty walk whose consecutive cells are joined by open passages.
    pub open spec fn is_open_path(&self, p: Seq<u32>) -> bool {
        &&& p.len() > 0
        &&& forall|i: int| 0 <= i < p.len() - 1 ==> #[trigger] self.open_step(p[i] as int, p[i + 1] as int)
    }

    /// `p` is a non-empty walk along edge records of any state.
    pub open spec fn is_walk(&self, p: Seq<u32>) -> bool {
        &&& p.len() > 0
        &&& forall|i: int| 0 <= i < p.len() - 1 ==> #[trigger] self.any_step(p[i] as int, p[i + 1] as int)
    }

    /// `t` can be reached from `s` through open passages.
    pub open spec fn open_reachable(&self, s: int, t: int) -> bool {
        exists|p: Seq<u32>| #[trigger] self.is_open_path(p) && p[0] == s && p.last() == t
    }

    /// `t` can be reached from `s` along edge records, walls ignored.
    pub open spec fn walk_reachable(&self, s: int, t: int) -> bool {
        exists|p: Seq<u32>| #[trigger] self.is_walk(p) && p[0] == s && p.last() == t
    }

    /// No edge record is open.
    pub open spec fn all_closed(&self) -> bool {
        forall|u: int, i: int|
            #![trigger self.edges(u).unwrap()[i]]
            self.edges(u) is Some && 0 <= i < self.edges(u).unwrap().len()
                ==> self.edges(u).unwrap()[i].1 == EdgeNode::Closed
    }

    /// The number of adjacency slots.
    pub fn adjacency_slots(&self) -> (r: usize)
        ensures
            r == self.slots(),
    {
        self.adjacency.len()
    }

    /// An empty graph.
    pub fn new() -> (g: Graph)
        ensures
            g.slots() == 0,
            forall|id: int| g.vertex(id) is None && g.edges(id) is None,
            g.wf(),
    {
        Graph { vertices: Vec::new(), adjacency: Vec::new() }
    }

    /// Inserts or overwrites the label of vertex `vid`.
    pub fn push_vertex(&mut self, vid: u32, vertex: VertexNode)
        ensures
            final(self).vertex(vid as int) == Some(vertex),
            forall|id: int| id != vid ==> final(self).vertex(id) == old(self).vertex(id),
            forall|id: int| final(self).edges(id) == old(self).edges(id),
            final(self).slots() == old(self).slots(),
    {
        while self.vertices.len() <= vid as usize
            invariant
                self.adjacency == old(self).adjacency,
                forall|id: int| self.vertex(id) == old(self).vertex(id),
            decreases vid as int + 1 - self.vertices.len(),
        {
            self.vertices.push(None);
        }
        self.vertices.set(vid as usize, Some(vertex));
    }

    /// Appends the record `(to, edge)` to the edge list of `from`, creating the
    /// list if there was none. A second call for the same pair adds a second record.
    pub fn push_edge(&mut self, from: u32, to: u32, edge: EdgeNode)
        ensures
            final(self).edges(from as int) == Some(
                old(self).edges(from as int).unwrap_or(Seq::empty()).push((to, edge)),
            ),
            forall|id: int| id != from ==> final(self).edges(id) == old(self).edges(id),
            forall|id: int| final(self).vertex(id) == old(self).vertex(id),
            final(self).slots() == vstd::math::max(
                old(self).slots() as int,
                vstd::math::max(from as int, to as int) + 1,
            ),
            old(self).wf() ==> final(self).wf(),
    {
        while self.adjacency.len() <= from as usize || self.adjacency.len() <= to as usize
            invariant
                self.vertices == old(self).vertices,
                forall|id: int| self.edges(id) == old(self).edges(id),
                self.slots() == vstd::math::max(old(self).slots() as int, self.slots() as int),
                self.slots() <= vstd::math::max(
                    old(self).slots() as int,
                    vstd::math::max(from as int, to as int) + 1,
                ),
            decreases vstd::math::max(from as int, to as int) + 1 - self.adjacency.len(),
        {
            self.adjacency.push(None);
        }
        let i = from as usize;
        match &mut self.adjacency[i] {
            Some(list) => {
                list.push((to, edge));
            },
            None => {
                self.adjacency.set(i, Some(vec![(to, edge)]));
            },
        }
        proof {
            if old(self).wf() {
                assert forall|u: int, k: int|
                    #![trigger self.edges(u).unwrap()[k]]
                    self.edges(u) is Some && 0 <= k < self.edges(u).unwrap().len()
                        implies self.edges(u).unwrap()[k].0 < self.slots() by {
                    if u != from {
                        assert(old(self).edges(u).unwrap()[k] == self.edges(u).unwrap()[k]);
                    } else if k + 1 < self.edges(u).unwrap().len() {
                        assert(old(self).edges(u).unwrap()[k] == self.edges(u).unwrap()[k]);
                    }
                }
            }
        }
    }

    /// The edge records that start at `vid`, or `None` if no edge was ever pushed from it.
    pub fn get_edges(&self, vid: u32) -> (r: Option<&Vec<(u32, EdgeNode)>>)
        ensures
            match r {
                Some(v) => self.edges(vid as int) == Some(v@),
                None => self.edges(vid as int) is None,
            },
    {
        if (vid as usize) < self.adjacency.len() {
            self.adjacency[vid as usize].as_ref()
        } else {
            None
        }
    }

    /// Mutable access to the edge records that start at `vid`, or `None` if no
    /// edge was ever pushed from it. Only that list can change through the result.
    pub fn get_mut_edges(&mut self, vid: u32) -> (r: Option<&mut Vec<(u32, EdgeNode)>>)
        ensures
            r is Some <==> old(self).edges(vid as int) is Some,
            r is Some ==> old(self).edges(vid as int) == Some(r.unwrap()@),
            r is Some ==> final(self).edges(vid as int) == Some(final(r.unwrap())@),
            r is None ==> final(self).edges(vid as int) is None,
            forall|id: int| id != vid ==> final(self).edges(id) == old(self).edges(id),
            forall|id: int| final(self).vertex(id) == old(self).vertex(id),
            final(self).slots() == old(self).slots(),
    {
        if (vid as usize) < self.adjacency.len() {
            self.adjacency[vid as usize].as_mut()
        } else {
            None
        }
    }
}

} // verus!
