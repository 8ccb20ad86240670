//! A directed graph stored in two arenas.
//!
//! Each vertex holds the heads of two intrusive lists, one per `Direction`;
//! the links of those lists live in the edge records themselves. A new edge
//! is pushed on the front of its source's outgoing list and of its
//! destination's incoming list, so each list holds the newest edge first.
use crate::arena::typed::{
    lemma_index_slot_injective,
    lemma_occupied_values_extend,
    lemma_occupied_values_update,
    occupied_values,
    Arena,
    Index,
    GROWTH_LIMIT,
};
use vstd::prelude::*;

verus! {

/// Selects one of a vertex's two adjacency lists, and the matching endpoint
/// and link of an edge.
#[derive(PartialEq, Eq, Structural, PartialOrd, Debug, Clone, Copy)]
pub enum Direction {
    Outgoing,
    Incoming,
}

impl Direction {
    /// Position of this direction in two-element arrays.
    pub open spec fn spec_index(self) -> int {
        match self {
            Direction::Outgoing => 0,
            Direction::Incoming => 1,
        }
    }

    /// Position of this direction in two-element arrays: 0 for `Outgoing`,
    /// 1 for `Incoming`.
    pub fn index(self) -> (r: usize)
        ensures
            r == self.spec_index(),
    {
        match self {
            Direction::Outgoing => 0,
            Direction::Incoming => 1,
        }
    }
}

/// A handle to an edge, or the empty link.
#[derive(PartialEq, Eq, Structural, Debug, Clone, Copy)]
pub struct EdgeIndex(Option<Index>);

/// A handle to a vertex.
#[derive(PartialEq, Eq, Structural, Debug, Clone, Copy)]
pub struct VertexIndex(Index);

impl EdgeIndex {
    /// Whether this is the empty link.
    pub closed spec fn is_empty(self) -> bool {
        self.0 is None
    }

    /// The edge slot this handle names (0 for the empty link).
    pub closed spec fn slot(self) -> nat {
        match self.0 {
            Some(i) => i.slot(),
            None => 0,
        }
    }
}

impl VertexIndex {
    /// The vertex slot this handle names.
    pub closed spec fn slot(self) -> nat {
        self.0.slot()
    }
}

/// An edge: its endpoints (source, destination), its links in the source's
/// outgoing list and the destination's incoming list, and its data.
#[derive(Debug, PartialEq)]
pub struct Edge<E> {
    pub vertices: [VertexIndex; 2],
    pub next: [EdgeIndex; 2],
    data: E,
}

impl<E> Edge<E> {
    /// The endpoints: source first, destination second.
    pub closed spec fn endpoints(&self) -> Seq<VertexIndex> {
        self.vertices@
    }

    /// The links: in the outgoing list first, in the incoming list second.
    pub closed spec fn links(&self) -> Seq<EdgeIndex> {
        self.next@
    }

    /// The data stored with this edge.
    pub closed spec fn spec_data(&self) -> E {
        self.data
    }

    /// The endpoint on side `dir`: the source for `Outgoing`, the
    /// destination for `Incoming`.
    pub fn vertex(&self, dir: Direction) -> (r: VertexIndex)
        ensures
            r == self.endpoints()[dir.spec_index()],
    {
        self.vertices[dir.index()]
    }

    /// The next edge in the `dir` list this edge belongs to.
    pub fn next_edge(&self, dir: Direction) -> (r: EdgeIndex)
        ensures
            r == self.links()[dir.spec_index()],
    {
        self.next[dir.index()]
    }

    /// The data stored with this edge.
    pub fn data(&self) -> (r: &E)
        ensures
            *r == self.spec_data(),
    {
        &self.data
    }
}

/// A vertex: the heads of its outgoing and incoming lists, and its data.
pub struct Vertex<V> {
    pub edges: [EdgeIndex; 2],
    pub data: V,
}

impl<V> Vertex<V> {
    fn new(data: V) -> (r: Vertex<V>)
        ensures
            r.edges@ == seq![EdgeIndex(None), EdgeIndex(None)],
            r.data == data,
    {
        let r = Vertex { edges: [EdgeIndex(None), EdgeIndex(None)], data };
        assert(r.edges@ =~= seq![EdgeIndex(None), EdgeIndex(None)]);
        r
    }

    /// The head of this vertex's `dir` list.
    pub fn edge(&self, dir: Direction) -> (r: EdgeIndex)
        ensures
            r == self.edges@[dir.spec_index()],
    {
        self.edges[dir.index()]
    }
}

/// The first element of an adjacency list, or the empty link.
pub closed spec fn first_edge(list: Seq<EdgeIndex>) -> EdgeIndex {
    if list.len() > 0 {
        list[0]
    } else {
        EdgeIndex(None)
    }
}

/// The link that follows position `k` of an adjacency list.
spec fn link_after(list: Seq<EdgeIndex>, k: int) -> EdgeIndex {
    if 0 <= k + 1 < list.len() {
        list[k + 1]
    } else {
        EdgeIndex(None)
    }
}

/// A directed graph with vertex data `V` and edge data `E`.
pub struct Graph<V, E> {
    arena: Arena<Vertex<V>>,
    edges: Arena<Edge<E>>,
    /// Each vertex's list in each direction, head first.
    adj: Ghost<spec_fn(Index, int) -> Seq<EdgeIndex>>,
}

impl<V, E> Graph<V, E> {
    /// The vertex that `v` names, if it is live.
    pub closed spec fn vertex_at(&self, v: VertexIndex) -> Option<Vertex<V>> {
        self.arena.lookup(v.0)
    }

    /// The edge that `e` names, if it is live.
    pub closed spec fn edge_at(&self, e: EdgeIndex) -> Option<Edge<E>> {
        match e.0 {
            Some(i) => self.edges.lookup(i),
            None => None,
        }
    }

    /// The edges of `v`'s `dir` list, in the order a walk visits them.
    pub closed spec fn adjacency(&self, v: VertexIndex, dir: Direction) -> Seq<EdgeIndex> {
        (self.adj@)(v.0, dir.spec_index())
    }

    /// Each vertex slot's content, in slot order.
    pub closed spec fn vertex_slots(&self) -> Seq<Option<Vertex<V>>> {
        self.arena@
    }

    /// Each edge slot's content, in slot order.
    pub closed spec fn edge_slots(&self) -> Seq<Option<Edge<E>>> {
        self.edges@
    }

    /// Whether a vertex may still be added.
    pub open spec fn vertex_room(&self) -> bool {
        self.vertex_slots().len() < GROWTH_LIMIT
    }

    /// Whether an edge may still be added.
    pub open spec fn edge_room(&self) -> bool {
        self.edge_slots().len() < GROWTH_LIMIT
    }

    /// Creates an empty graph with room for `max(cap, 16)` vertex slots and
    /// about twice as many edge slots.
    pub fn with_capacity(cap: u32) -> (r: Graph<V, E>)
        ensures
            r.wf(),
            forall|v: VertexIndex| #[trigger] r.vertex_at(v) is None,
            forall|e: EdgeIndex| #[trigger] r.edge_at(e) is None,
            forall|v: VertexIndex, dir: Direction| #[trigger] r.adjacency(v, dir).len() == 0,
            r.vertex_slots() == Seq::new(r.vertex_slots().len(), |i: int| None::<Vertex<V>>),
            r.edge_slots() == Seq::new(r.edge_slots().len(), |i: int| None::<Edge<E>>),
            occupied_values(r.vertex_slots()).len() == 0,
            occupied_values(r.edge_slots()).len() == 0,
            r.vertex_slots().len() == (if cap < 16 {
                16
            } else {
                cap
            }),
            r.edge_slots().len() == (if 2 * cap < 16 {
                16
            } else if 2 * cap <= u32::MAX {
                2 * cap
            } else {
                u32::MAX as int
            }),
    {
        let edge_cap: u32 = if cap <= u32::MAX / 2 {
            cap * 2
        } else {
            u32::MAX
        };
        let r = Graph {
            arena: Arena::with_capacity(cap),
            edges: Arena::with_capacity(edge_cap),
            adj: Ghost(|v: Index, d: int| Seq::<EdgeIndex>::empty()),
        };
        proof {
            assert forall|v: VertexIndex| #[trigger] r.vertex_at(v) is None by {
                if v.0.slot() < r.arena@.len() {
                    assert(r.arena@[v.0.slot() as int] is None);
                }
            }
            assert forall|e: EdgeIndex| #[trigger] r.edge_at(e) is None by {
                if let Some(i) = e.0 {
                    if i.slot() < r.edges@.len() {
                        assert(r.edges@[i.slot() as int] is None);
                    }
                }
            }
            lemma_occupied_values_extend(Seq::<Option<Vertex<V>>>::empty(), r.arena@.len());
            lemma_occupied_values_extend(Seq::<Option<Edge<E>>>::empty(), r.edges@.len());
            assert(Seq::<Option<Vertex<V>>>::empty() + Seq::new(
                r.arena@.len(),
                |i: int| None::<Vertex<V>>,
            ) =~= r.arena@);
            assert(Seq::<Option<Edge<E>>>::empty() + Seq::new(
                r.edges@.len(),
                |i: int| None::<Edge<E>>,
            ) =~= r.edges@);
            assert forall|v: Index| #[trigger] r.arena.lookup(v) is None by {
                assert(r.vertex_at(VertexIndex(v)) is None);
            }
            assert forall|e: Index| #[trigger] r.edges.lookup(e) is None by {
                assert(r.edge_at(EdgeIndex(Some(e))) is None);
            }
        }
        r
    }

    /// Adds a vertex holding `data`, with both of its lists empty.
    pub fn add_vertex(&mut self, data: V) -> (r: VertexIndex)
        requires
            old(self).wf(),
            old(self).vertex_room(),
        ensures
            final(self).wf(),
            old(self).vertex_at(r) is None,
            final(self).vertex_at(r) matches Some(vx) && vx.data == data,
            final(self).adjacency(r, Direction::Outgoing).len() == 0,
            final(self).adjacency(r, Direction::Incoming).len() == 0,
            forall|v: VertexIndex| v != r ==> #[trigger] final(self).vertex_at(v) == old(self).vertex_at(v),
            forall|e: EdgeIndex| #[trigger] final(self).edge_at(e) == old(self).edge_at(e),
            forall|v: VertexIndex, dir: Direction|
                v != r ==> #[trigger] final(self).adjacency(v, dir) == old(self).adjacency(v, dir),
            old(self).vertex_slots().len() <= final(self).vertex_slots().len() <= 2 * old(
                self,
            ).vertex_slots().len(),
            r.slot() < final(self).vertex_slots().len(),
            final(self).vertex_slots()[r.slot() as int] == final(self).vertex_at(r),
            forall|j: int|
                0 <= j < final(self).vertex_slots().len() && j != r.slot() ==> #[trigger] final(self).vertex_slots()[j] == (if j < old(self).vertex_slots().len() {
                    old(self).vertex_slots()[j]
                } else {
                    None
                }),
            occupied_values(final(self).vertex_slots()).len() == occupied_values(
                old(self).vertex_slots(),
            ).len() + 1,
            final(self).edge_slots() == old(self).edge_slots(),
    {
        let ghost old_adj = self.adj@;
        let idx = self.arena.insert(Vertex::new(data));
        self.adj = Ghost(
            |v: Index, d: int|
                if v == idx {
                    Seq::<EdgeIndex>::empty()
                } else {
                    old_adj(v, d)
                },
        );
        proof {
            assert forall|v: Index| v != idx implies #[trigger] self.arena.lookup(v) == old(
                self,
            ).arena.lookup(v) by {
                lemma_index_slot_injective(v, idx);
                if v.slot() < self.arena@.len() {
                    assert(self.arena@[v.slot() as int] == (if v.slot() < old(self).arena@.len() {
                        old(self).arena@[v.slot() as int]
                    } else {
                        None
                    }));
                }
            }
            assert(old(self).arena.lookup(idx) is None);
            assert forall|v: Index, d: int|
                0 <= d < 2 && self.arena.lookup(v) is Some implies #[trigger] self.list_ok(v, d) by {
                if v != idx {
                    assert(old(self).list_ok(v, d));
                } else {
                    assert(self.arena.lookup(v).unwrap().edges@ == seq![
                        EdgeIndex(None),
                        EdgeIndex(None),
                    ]);
                }
            }
            assert forall|e: Index| #[trigger] self.joins_live(e) by {
                assert(old(self).joins_live(e));
                if let Some(ed) = self.edges.lookup(e) {
                    lemma_index_slot_injective(ed.vertices@[0].0, idx);
                    lemma_index_slot_injective(ed.vertices@[1].0, idx);
                }
            }
            assert forall|v: VertexIndex| v != VertexIndex(idx) implies #[trigger] self.vertex_at(v)
                == old(self).vertex_at(v) by {
                assert(v.0 != idx);
            }
            assert forall|v: VertexIndex, dir: Direction|
                v != VertexIndex(idx) implies #[trigger] self.adjacency(v, dir) == old(
                self,
            ).adjacency(v, dir) by {
                assert(v.0 != idx);
            }
        }
        VertexIndex(idx)
    }

    /// Adds an edge from `start` to `end` holding `data`. The edge becomes
    /// the head of `start`'s outgoing list and of `end`'s incoming list; the
    /// former heads become its links.
    pub fn add_edge(&mut self, start: VertexIndex, end: VertexIndex, data: E) -> (r: EdgeIndex)
        requires
            old(self).wf(),
            old(self).edge_room(),
            old(self).vertex_at(start) is Some,
            old(self).vertex_at(end) is Some,
        ensures
            final(self).wf(),
            edge_added(*old(self), *final(self), start, end, data, r),
            !r.is_empty(),
            final(self).vertex_at(start).unwrap().edges@[0] == r,
            final(self).vertex_at(end).unwrap().edges@[1] == r,
            forall|v: VertexIndex|
                v != start && (#[trigger] final(self).vertex_at(v)) is Some ==> final(self).vertex_at(v).unwrap().edges@[0] == old(self).vertex_at(v).unwrap().edges@[0],
            forall|v: VertexIndex|
                v != end && (#[trigger] final(self).vertex_at(v)) is Some ==> final(self).vertex_at(v).unwrap().edges@[1] == old(self).vertex_at(v).unwrap().edges@[1],
            forall|j: int|
                0 <= j < final(self).vertex_slots().len() ==> (#[trigger] final(self).vertex_slots()[j] is Some <==> old(self).vertex_slots()[j] is Some),
            occupied_values(final(self).vertex_slots()).len() == occupied_values(
                old(self).vertex_slots(),
            ).len(),
            r.slot() < final(self).edge_slots().len(),
            final(self).edge_slots()[r.slot() as int] == final(self).edge_at(r),
            forall|j: int|
                0 <= j < final(self).edge_slots().len() && j != r.slot() ==> #[trigger] final(self).edge_slots()[j] == (if j < old(self).edge_slots().len() {
                    old(self).edge_slots()[j]
                } else {
                    None
                }),
            occupied_values(final(self).edge_slots()).len() == occupied_values(
                old(self).edge_slots(),
            ).len() + 1,
            final(self).vertex_slots().len() == old(self).vertex_slots().len(),
            old(self).edge_slots().len() <= final(self).edge_slots().len() <= 2 * old(
                self,
            ).edge_slots().len(),
    {
        let ghost old_adj = self.adj@;
        let out_head = match self.arena.get(start.0) {
            Some(vx) => vx.edges[0],
            None => unreached(),
        };
        let in_head = match self.arena.get(end.0) {
            Some(vx) => vx.edges[1],
            None => unreached(),
        };
        let edge = Edge { vertices: [start, end], next: [out_head, in_head], data };
        proof {
            assert(old(self).list_ok(start.0, 0));
            assert(old(self).list_ok(end.0, 1));
            assert(edge.vertices@ =~= seq![start, end]);
            assert(edge.next@ =~= seq![out_head, in_head]);
        }
        let idx = self.edges.insert(edge);
        let ret = EdgeIndex(Some(idx));
        let ghost mid_arena = self.arena@;
        match self.arena.get_mut(start.0) {
            Some(vx) => {
                let in_link = vx.edges[1];
                vx.edges = [ret, in_link];
            },
            None => unreached(),
        }
        let ghost late_arena = self.arena@;
        proof {
            lemma_occupied_values_update(mid_arena, start.0.slot() as int, late_arena[start.0.slot() as int]);
        }
        match self.arena.get_mut(end.0) {
            Some(vx) => {
                let out_link = vx.edges[0];
                vx.edges = [out_link, ret];
            },
            None => unreached(),
        }
        proof {
            lemma_occupied_values_update(late_arena, end.0.slot() as int, self.arena@[end.0.slot() as int]);
            assert(late_arena.update(start.0.slot() as int, late_arena[start.0.slot() as int]) =~= late_arena);
        }
        self.adj = Ghost(
            |v: Index, d: int|
                if (v == start.0 && d == 0) || (v == end.0 && d == 1) {
                    seq![ret] + old_adj(v, d)
                } else {
                    old_adj(v, d)
                },
        );
        proof {
            let old_edges = old(self).edges;
            assert(old_edges.lookup(idx) is None);
            // Every edge other than the new one is unchanged.
            assert forall|f: Index| f != idx implies #[trigger] self.edges.lookup(f)
                == old_edges.lookup(f) by {
                lemma_index_slot_injective(f, idx);
                if f.slot() < self.edges@.len() {
                    assert(self.edges@[f.slot() as int] == (if f.slot() < old_edges@.len() {
                        old_edges@[f.slot() as int]
                    } else {
                        None
                    }));
                }
            }
            // Vertices keep their data and liveness; only two heads moved.
            assert forall|v: Index| #[trigger] self.arena.lookup(v) is Some == old(self).arena.lookup(
                v,
            ) is Some && (self.arena.lookup(v) is Some ==> self.arena.lookup(v).unwrap().data == old(
                self,
            ).arena.lookup(v).unwrap().data && (v != start.0 ==> self.arena.lookup(v).unwrap().edges@[0]
                == old(self).arena.lookup(v).unwrap().edges@[0]) && (v != end.0 ==> self.arena.lookup(
                v,
            ).unwrap().edges@[1] == old(self).arena.lookup(v).unwrap().edges@[1])) by {
                lemma_index_slot_injective(v, start.0);
                lemma_index_slot_injective(v, end.0);
            }
            assert(self.arena.lookup(start.0).unwrap().edges@[0] == ret);
            assert(self.arena.lookup(end.0).unwrap().edges@[1] == ret);
            assert forall|v: Index, d: int|
                0 <= d < 2 && self.arena.lookup(v) is Some implies #[trigger] self.list_ok(v, d) by {
                assert(old(self).list_ok(v, d));
                let ol = old_adj(v, d);
                let nl = (self.adj@)(v, d);
                assert forall|k: int| 0 <= k < ol.len() implies (#[trigger] ol[k]).0.unwrap()
                    != idx by {
                    assert(old_edges.lookup(ol[k].0.unwrap()) is Some);
                }
                if (v == start.0 && d == 0) || (v == end.0 && d == 1) {
                    assert forall|k: int| 0 <= k < nl.len() implies {
                        &&& (#[trigger] nl[k]).0 is Some
                        &&& self.edges.lookup(nl[k].0.unwrap()) matches Some(ed) && ed.vertices@[d]
                            == VertexIndex(v) && ed.next@[d] == link_after(nl, k)
                    } by {
                        if k > 0 {
                            assert(nl[k] == ol[k - 1]);
                            assert(link_after(nl, k) == link_after(ol, k - 1));
                        } else {
                            assert(link_after(nl, 0) == first_edge(ol));
                        }
                    }
                } else {
                    assert(nl == ol);
                }
            }
            assert forall|e: Index| #[trigger] self.joins_live(e) by {
                if e != idx {
                    assert(old(self).joins_live(e));
                }
            }
        }
        proof {
            let before = *old(self);
            let after = *self;
            assert forall|v: VertexIndex, dir: Direction|
                !(v == start && dir == Direction::Outgoing) && !(v == end && dir
                    == Direction::Incoming) implies #[trigger] after.adjacency(v, dir)
                == before.adjacency(v, dir) by {
                assert(v.0 == start.0 ==> v == start);
                assert(v.0 == end.0 ==> v == end);
            }
            assert forall|f: EdgeIndex| f != ret implies #[trigger] after.edge_at(f) == before.edge_at(
                f,
            ) by {
                if let Some(i) = f.0 {
                    assert(i != idx);
                }
            }
            assert forall|v: VertexIndex| #[trigger]
                after.vertex_at(v) is Some == before.vertex_at(v) is Some && (after.vertex_at(
                    v,
                ) is Some ==> after.vertex_at(v).unwrap().data == before.vertex_at(
                    v,
                ).unwrap().data) by {
                assert(self.arena.lookup(v.0) is Some == old(self).arena.lookup(v.0) is Some);
            }
        }
        ret
    }

    /// The edges of `vertex`'s `dir` list, found by following the links from
    /// the head until the empty link: the newest edge first.
    pub fn adjacent_edges(&self, vertex: VertexIndex, dir: Direction) -> (r: Vec<EdgeIndex>)
        requires
            self.wf(),
            self.vertex_at(vertex) is Some,
        ensures
            r@ == self.adjacency(vertex, dir),
    {
        let d = dir.index();
        let ghost list = self.adjacency(vertex, dir);
        proof {
            assert(self.list_ok(vertex.0, d as int));
        }
        let mut cur = match self.arena.get(vertex.0) {
            Some(vx) => vx.edges[d],
            None => unreached(),
        };
        let mut out: Vec<EdgeIndex> = Vec::new();
        let ghost mut k: int = 0;
        while cur.0.is_some()
            invariant
                self.wf(),
                d == dir.spec_index(),
                list == (self.adj@)(vertex.0, d as int),
                self.list_ok(vertex.0, d as int),
                0 <= k <= list.len(),
                out@ == list.subrange(0, k),
                cur == (if k < list.len() {
                    list[k]
                } else {
                    EdgeIndex(None)
                }),
            decreases list.len() - k,
        {
            assert(list[k].0 is Some);
            let ed = match self.get_edge(cur) {
                Some(ed) => ed,
                None => unreached(),
            };
            out.push(cur);
            cur = ed.next[d];
            proof {
                assert(out@ =~= list.subrange(0, k + 1));
                k = k + 1;
            }
        }
        proof {
            assert(k == list.len());
            assert(out@ =~= list);
        }
        out
    }

    /// Number of vertex slots held.
    pub fn vertex_capacity(&self) -> (r: u32)
        requires
            self.wf(),
        ensures
            r == self.vertex_slots().len(),
    {
        self.arena.capacity()
    }

    /// Number of edge slots held.
    pub fn edge_capacity(&self) -> (r: u32)
        requires
            self.wf(),
        ensures
            r == self.edge_slots().len(),
    {
        self.edges.capacity()
    }

    /// The vertex that `index` names, if it is live.
    pub fn get_vertex(&self, index: VertexIndex) -> (r: Option<&Vertex<V>>)
        requires
            self.wf(),
        ensures
            match r {
                Some(vx) => self.vertex_at(index) == Some(*vx),
                None => self.vertex_at(index) is None,
            },
    {
        self.arena.get(index.0)
    }

    /// The edge that `index` names, if it is live; `None` for the empty
    /// link.
    pub fn get_edge(&self, index: EdgeIndex) -> (r: Option<&Edge<E>>)
        requires
            self.wf(),
        ensures
            match r {
                Some(ed) => self.edge_at(index) == Some(*ed),
                None => self.edge_at(index) is None,
            },
    {
        match index.0 {
            Some(i) => self.edges.get(i),
            None => None,
        }
    }

    /// References to every live vertex, in slot order.
    pub fn vertices(&self) -> (r: Vec<&Vertex<V>>)
        requires
            self.wf(),
        ensures
            r@.map_values(|vx: &Vertex<V>| *vx) == occupied_values(self.vertex_slots()),
    {
        self.arena.iter()
    }

    /// References to every live edge, in slot order.
    pub fn edges(&self) -> (r: Vec<&Edge<E>>)
        requires
            self.wf(),
        ensures
            r@.map_values(|ed: &Edge<E>| *ed) == occupied_values(self.edge_slots()),
    {
        self.edges.iter()
    }

    /// The `d` list of the vertex in slot `v` is threaded correctly: the
    /// vertex holds its head, each member is a live edge whose `d` endpoint
    /// is that vertex and whose `d` link names the following member.
    closed spec fn list_ok(&self, v: Index, d: int) -> bool {
        let list = (self.adj@)(v, d);
        &&& self.arena.lookup(v) matches Some(vx) && vx.edges@[d] == first_edge(list)
        &&& forall|k: int|
            0 <= k < list.len() ==> {
                &&& (#[trigger] list[k]).0 is Some
                &&& self.edges.lookup(list[k].0.unwrap()) matches Some(ed) && ed.vertices@[d]
                    == VertexIndex(v) && ed.next@[d] == link_after(list, k)
            }
    }

    /// The edge in slot `e`, if live, joins two live vertices.
    closed spec fn joins_live(&self, e: Index) -> bool {
        match self.edges.lookup(e) {
            Some(ed) => self.arena.lookup(ed.vertices@[0].0) is Some && self.arena.lookup(
                ed.vertices@[1].0,
            ) is Some,
            None => true,
        }
    }

    /// The graph's invariant: both arenas are well formed, every live
    /// vertex's two lists are threaded correctly, and every live edge joins
    /// live vertices.
    pub closed spec fn wf(&self) -> bool {
        &&& self.arena.wf()
        &&& self.edges.wf()
        &&& forall|v: Index, d: int|
            0 <= d < 2 && self.arena.lookup(v) is Some ==> #[trigger] self.list_ok(v, d)
        &&& forall|e: Index| #[trigger] self.joins_live(e)
    }
}

/// `after` is `before` with one edge `e` added from `start` to `end`
/// holding `data`: `e` was free before, now heads `start`'s outgoing list
/// and `end`'s incoming list, links to their former heads, and nothing else
/// changed but the two heads.
pub open spec fn edge_added<V, E>(
    before: Graph<V, E>,
    after: Graph<V, E>,
    start: VertexIndex,
    end: VertexIndex,
    data: E,
    e: EdgeIndex,
) -> bool {
    &&& before.edge_at(e) is None
    &&& after.edge_at(e) matches Some(ed) && ed.endpoints() == seq![start, end] && ed.links()
        == seq![
        first_edge(before.adjacency(start, Direction::Outgoing)),
        first_edge(before.adjacency(end, Direction::Incoming)),
    ] && ed.spec_data() == data
    &&& after.adjacency(start, Direction::Outgoing) == seq![e] + before.adjacency(
        start,
        Direction::Outgoing,
    )
    &&& after.adjacency(end, Direction::Incoming) == seq![e] + before.adjacency(
        end,
        Direction::Incoming,
    )
    &&& forall|v: VertexIndex, dir: Direction|
        !(v == start && dir == Direction::Outgoing) && !(v == end && dir == Direction::Incoming)
            ==> #[trigger] after.adjacency(v, dir) == before.adjacency(v, dir)
    &&& forall|f: EdgeIndex| f != e ==> #[trigger] after.edge_at(f) == before.edge_at(f)
    &&& forall|v: VertexIndex| #[trigger]
        after.vertex_at(v) is Some == before.vertex_at(v) is Some && (after.vertex_at(v) is Some
            ==> after.vertex_at(v).unwrap().data == before.vertex_at(v).unwrap().data)
}

/// The first element of a non-empty list is its element 0; that of an
/// empty list is the empty link.
pub proof fn lemma_first_edge(list: Seq<EdgeIndex>)
    ensures
        list.len() > 0 ==> first_edge(list) == list[0],
        list.len() == 0 ==> first_edge(list).is_empty(),
{
}

/// The empty link names no edge, so a walk that reaches it stops.
pub proof fn lemma_empty_link<V, E>(g: &Graph<V, E>, e: EdgeIndex)
    ensures
        e.is_empty() ==> g.edge_at(e) is None,
{
}

/// A live vertex's stored head for `dir` is the first edge of its `dir`
/// list (the empty link when the list is empty).
pub proof fn lemma_head_is_first<V, E>(g: &Graph<V, E>, v: VertexIndex, dir: Direction)
    requires
        g.wf(),
        g.vertex_at(v) is Some,
    ensures
        g.vertex_at(v).unwrap().edges@[dir.spec_index()] == first_edge(g.adjacency(v, dir)),
        first_edge(g.adjacency(v, dir)).is_empty() <==> g.adjacency(v, dir).len() == 0,
{
    assert(g.list_ok(v.0, dir.spec_index()));
    if g.adjacency(v, dir).len() > 0 {
        assert(g.adjacency(v, dir)[0].0 is Some);
    }
}

/// Every edge in a live vertex's `dir` list is live, has that vertex as
/// its `dir` endpoint (the source for outgoing lists, the destination for
/// incoming ones), and links to the next edge of the list.
pub proof fn lemma_list_members<V, E>(g: &Graph<V, E>, v: VertexIndex, dir: Direction, k: int)
    requires
        g.wf(),
        g.vertex_at(v) is Some,
        0 <= k < g.adjacency(v, dir).len(),
    ensures
        g.edge_at(g.adjacency(v, dir)[k]) matches Some(ed) && ed.endpoints()[dir.spec_index()] == v
            && ed.links()[dir.spec_index()] == (if k + 1 < g.adjacency(v, dir).len() {
            g.adjacency(v, dir)[k + 1]
        } else {
            first_edge(Seq::empty())
        }),
{
    let list = g.adjacency(v, dir);
    assert(g.list_ok(v.0, dir.spec_index()));
    assert(list[k].0 is Some);
}

/// Edges added one after another from the same vertex are walked newest
/// first: after adding `e1`, `e2`, `e3` from `a` (to `b1`, `b2`, `b3`),
/// `a`'s outgoing list starts `e3, e2, e1`, and each still leads to its own
/// destination.
pub proof fn lemma_newest_first<V, E>(
    g0: Graph<V, E>,
    g1: Graph<V, E>,
    g2: Graph<V, E>,
    g3: Graph<V, E>,
    a: VertexIndex,
    b1: VertexIndex,
    b2: VertexIndex,
    b3: VertexIndex,
    d1: E,
    d2: E,
    d3: E,
    e1: EdgeIndex,
    e2: EdgeIndex,
    e3: EdgeIndex,
)
    requires
        edge_added(g0, g1, a, b1, d1, e1),
        edge_added(g1, g2, a, b2, d2, e2),
        edge_added(g2, g3, a, b3, d3, e3),
    ensures
        g3.adjacency(a, Direction::Outgoing) == seq![e3, e2, e1] + g0.adjacency(
            a,
            Direction::Outgoing,
        ),
        g3.edge_at(e1).unwrap().endpoints()[1] == b1,
        g3.edge_at(e2).unwrap().endpoints()[1] == b2,
        g3.edge_at(e3).unwrap().endpoints()[1] == b3,
{
    assert(e1 != e2 && e2 != e3 && e1 != e3);
    assert(g3.adjacency(a, Direction::Outgoing) =~= seq![e3, e2, e1] + g0.adjacency(
        a,
        Direction::Outgoing,
    ));
}

} // verus!
