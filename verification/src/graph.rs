//! The copy-on-write graph layer.
//!
//! A [`Dag`] is an arena owning every node identity, every edge, and the
//! version history of [`crate::version`]. A [`Node`] is a cheap handle
//! pairing one identity with one version; many handles may alias either.
//! Mutation is copy-on-write: writing through a handle allocates a fresh
//! identity and repoints only that handle, so aliasing handles are
//! unaffected. An edge records the version that authored it, and traversal
//! shows an edge to a handle only when the handle's version is a derivative
//! of that authoring version.

use vstd::prelude::*;

use crate::version::{derivative, lineage_wf, reaches, Lineage, Version};
use crate::version::{lemma_derivative_grow, lemma_reaches_bound, lemma_wf_lineage};

verus! {

/// The ghost image of one node identity: an index into the payload arena
/// (identities that have not diverged share it) and the identifiers of the
/// edges registered on this identity.
#[verifier::ext_equal]
pub struct IdentityModel {
    pub data: int,
    pub edges: Seq<int>,
}

/// The ghost image of one edge: its payload, its two endpoint identities,
/// and the version that authored it.
#[verifier::ext_equal]
pub struct EdgeModel<E> {
    pub data: E,
    pub parent: int,
    pub child: int,
    pub origin: Version,
}

/// The ghost image of a whole graph arena.
#[verifier::ext_equal]
pub struct DagModel<E, N> {
    pub lineage: Seq<Seq<int>>,
    pub payloads: Seq<N>,
    pub identities: Seq<IdentityModel>,
    pub edges: Seq<EdgeModel<E>>,
}

/// Internal consistency of a graph image: an acyclic version history, every
/// identity pointing at a stored payload, every registered edge identifier
/// and every edge endpoint in range, and every edge authored by a version of
/// the history.
pub open spec fn dag_wf<E, N>(d: DagModel<E, N>) -> bool {
    &&& lineage_wf(d.lineage)
    &&& forall|i: int|
        0 <= i < d.identities.len() ==> 0 <= (#[trigger] d.identities[i]).data < d.payloads.len()
    &&& forall|i: int, k: int|
        0 <= i < d.identities.len() && 0 <= k < d.identities[i].edges.len() ==> 0 <= #[trigger] d.identities[i].edges[k] < d.edges.len()
    &&& forall|e: int|
        0 <= e < d.edges.len() ==> {
            let ed = #[trigger] d.edges[e];
            &&& 0 <= ed.parent < d.identities.len()
            &&& 0 <= ed.child < d.identities.len()
            &&& ed.origin.valid(d.lineage)
        }
}

struct Identity {
    data: usize,
    edges: Vec<usize>,
}

struct EdgeRec<E> {
    data: E,
    parent: usize,
    child: usize,
    origin: Version,
}

/// The arena owning one versioned graph: the version history, the node
/// payloads, the node identities and the edges.
pub struct Dag<E, N> {
    lineage: Lineage,
    payloads: Vec<N>,
    identities: Vec<Identity>,
    edges: Vec<EdgeRec<E>>,
}

impl<E, N> View for Dag<E, N> {
    type V = DagModel<E, N>;

    closed spec fn view(&self) -> DagModel<E, N> {
        DagModel {
            lineage: self.lineage@,
            payloads: self.payloads@,
            identities: self.identities@.map_values(
                |idt: Identity| IdentityModel {
                    data: idt.data as int,
                    edges: idt.edges@.map_values(|e: usize| e as int),
                },
            ),
            edges: self.edges@.map_values(
                |e: EdgeRec<E>| EdgeModel {
                    data: e.data,
                    parent: e.parent as int,
                    child: e.child as int,
                    origin: e.origin,
                },
            ),
        }
    }
}

impl<E, N> Dag<E, N> {
    /// Internal consistency of the arena.
    pub closed spec fn wf(&self) -> bool {
        &&& self.lineage.wf()
        &&& dag_wf(self@)
    }

    /// An empty graph with an empty version history.
    pub fn new() -> (d: Dag<E, N>)
        ensures
            d.wf(),
            d@.lineage == Seq::<Seq<int>>::empty(),
            d@.payloads == Seq::<N>::empty(),
            d@.identities == Seq::<IdentityModel>::empty(),
            d@.edges == Seq::<EdgeModel<E>>::empty(),
    {
        let d = Dag {
            lineage: Lineage::new(),
            payloads: Vec::new(),
            identities: Vec::new(),
            edges: Vec::new(),
        };
        proof {
            assert(d@.identities =~= Seq::<IdentityModel>::empty());
            assert(d@.edges =~= Seq::<EdgeModel<E>>::empty());
        }
        d
    }

    /// The payload carried by edge `e`.
    pub fn edge_data(&self, e: usize) -> (r: &E)
        requires
            self.wf(),
            e < self@.edges.len(),
        ensures
            *r == self@.edges[e as int].data,
    {
        &self.edges[e].data
    }
}

/// The payload a node handle on identity `id` reads.
pub open spec fn payload_of<E, N>(d: DagModel<E, N>, id: int) -> N {
    d.payloads[d.identities[id].data]
}

/// A user-facing handle: one node identity seen through one version.
pub struct Node {
    id: usize,
    ver: Version,
}

impl Node {
    /// The identity this handle points at.
    pub closed spec fn identity(self) -> int {
        self.id as int
    }

    /// The version this handle sees the graph through.
    pub closed spec fn version(self) -> Version {
        self.ver
    }

    /// The handle names an identity and a version of graph image `d`.
    pub open spec fn valid<E, N>(self, d: DagModel<E, N>) -> bool {
        &&& 0 <= self.identity() < d.identities.len()
        &&& self.version().valid(d.lineage)
    }

    /// A fresh node: a new identity with no edges holding `data`, seen
    /// through a fresh root version.
    pub fn new<E, N>(dag: &mut Dag<E, N>, data: N) -> (n: Node)
        requires
            old(dag).wf(),
        ensures
            final(dag).wf(),
            final(dag)@.lineage == old(dag)@.lineage.push(Seq::<int>::empty()),
            final(dag)@.payloads == old(dag)@.payloads.push(data),
            final(dag)@.identities == old(dag)@.identities.push(
                (IdentityModel {
                    data: old(dag)@.payloads.len() as int,
                    edges: Seq::<int>::empty(),
                }),
            ),
            final(dag)@.edges == old(dag)@.edges,
            n.identity() == old(dag)@.identities.len(),
            n.version().lineage_node() == old(dag)@.lineage.len(),
            n.version().gen() == 0,
            n.valid(final(dag)@),
    {
        let ver = Version::new(&mut dag.lineage);
        let id = dag.identities.len();
        let pid = dag.payloads.len();
        dag.payloads.push(data);
        dag.identities.push(Identity { data: pid, edges: Vec::new() });
        proof {
            assert(dag@.identities =~= old(dag)@.identities.push(
                (IdentityModel {
                    data: old(dag)@.payloads.len() as int,
                    edges: Seq::<int>::empty(),
                }),
            )) by {
                assert forall|i: int|
                    0 <= i < old(dag).identities@.len() implies dag@.identities[i] == old(
                    dag,
                )@.identities[i] by {
                    assert(dag.identities@[i] == old(dag).identities@[i]);
                }
                assert(dag.identities@.last().edges@.map_values(|e: usize| e as int)
                    =~= Seq::<int>::empty());
            }
            assert(dag@.edges =~= old(dag)@.edges);
            lemma_wf_lineage(&dag.lineage);
            lemma_dag_grow_wf(old(dag)@, dag@);
        }
        Node { id, ver }
    }

    /// The payload this handle reads; constant time and total.
    pub fn get<'a, E, N>(&self, dag: &'a Dag<E, N>) -> (r: &'a N)
        requires
            dag.wf(),
            self.valid(dag@),
        ensures
            *r == payload_of(dag@, self.identity()),
    {
        proof {
            assert(dag@.identities[self.identity()] == (IdentityModel {
                data: dag.identities@[self.identity()].data as int,
                edges: dag.identities@[self.identity()].edges@.map_values(|e: usize| e as int),
            }));
        }
        &dag.payloads[dag.identities[self.id].data]
    }

    /// Replace the payload this handle sees, copy-on-write: a fresh identity
    /// takes the new payload and a copy of the current edge list, and only
    /// this handle is repointed. Handles aliasing the old identity are
    /// unaffected.
    pub fn set<E, N>(&mut self, dag: &mut Dag<E, N>, data: N)
        requires
            old(dag).wf(),
            old(self).valid(old(dag)@),
        ensures
            final(dag).wf(),
            final(dag)@.lineage == old(dag)@.lineage,
            final(dag)@.payloads == old(dag)@.payloads.push(data),
            final(dag)@.identities == old(dag)@.identities.push(
                (IdentityModel {
                    data: old(dag)@.payloads.len() as int,
                    edges: old(dag)@.identities[old(self).identity()].edges,
                }),
            ),
            final(dag)@.edges == old(dag)@.edges,
            final(self).identity() == old(dag)@.identities.len(),
            final(self).version() == old(self).version(),
            final(self).valid(final(dag)@),
    {
        let pid = dag.payloads.len();
        dag.payloads.push(data);
        let copied = copy_edge_list(&dag.identities[self.id].edges);
        let id = dag.identities.len();
        dag.identities.push(Identity { data: pid, edges: copied });
        self.id = id;
        proof {
            assert(dag@.identities =~= old(dag)@.identities.push(
                (IdentityModel {
                    data: old(dag)@.payloads.len() as int,
                    edges: old(dag)@.identities[old(self).identity()].edges,
                }),
            )) by {
                assert forall|i: int|
                    0 <= i < old(dag).identities@.len() implies dag@.identities[i] == old(
                    dag,
                )@.identities[i] by {
                    assert(dag.identities@[i] == old(dag).identities@[i]);
                }
                assert(dag.identities@.last().edges@.map_values(|e: usize| e as int) =~= old(
                    dag,
                )@.identities[old(self).identity()].edges);
            }
            assert(dag@.edges =~= old(dag)@.edges);
            lemma_wf_lineage(&dag.lineage);
            lemma_dag_grow_wf(old(dag)@, dag@);
        }
    }
}

/// Identity `id` with edge `e` appended to its registration list; all other
/// identities unchanged.
pub open spec fn register_edge(ids: Seq<IdentityModel>, id: int, e: int) -> Seq<IdentityModel> {
    ids.update(id, IdentityModel { data: ids[id].data, edges: ids[id].edges.push(e) })
}

impl Node {
    /// Move this handle's visibility horizon forward to `base`'s, which
    /// must be a derivative of this handle's current version.
    pub fn extend_version<E, N>(&mut self, dag: &Dag<E, N>, base: &Node)
        requires
            dag.wf(),
            old(self).valid(dag@),
            base.valid(dag@),
            derivative(dag@.lineage, base.version(), old(self).version()),
        ensures
            final(self).identity() == old(self).identity(),
            final(self).version() == base.version(),
    {
        self.ver = base.ver;
    }

    /// Synchronize two handles' visibility horizons: both end on whichever
    /// of the two versions is a derivative of the other. Handles with
    /// unrelated versions (sibling forks that never merged) cannot be
    /// synchronized, which the precondition rules out.
    pub fn sync<E, N>(&mut self, dag: &Dag<E, N>, other: &mut Node)
        requires
            dag.wf(),
            old(self).valid(dag@),
            old(other).valid(dag@),
            derivative(dag@.lineage, old(self).version(), old(other).version()) || derivative(
                dag@.lineage,
                old(other).version(),
                old(self).version(),
            ),
        ensures
            final(self).identity() == old(self).identity(),
            final(other).identity() == old(other).identity(),
            final(self).version() == final(other).version(),
            final(self).version() == if derivative(
                dag@.lineage,
                old(self).version(),
                old(other).version(),
            ) {
                old(self).version()
            } else {
                old(other).version()
            },
    {
        if self.ver.is_derivative_of(&dag.lineage, &other.ver) {
            other.ver = self.ver;
        } else {
            self.ver = other.ver;
        }
    }

    /// Freeze the ancestor set of this handle's version so that edge
    /// visibility checks against it become constant-time. A pure
    /// performance hint: the graph image and the handle are unchanged, so
    /// no traversal result can change.
    pub fn optimize<E, N>(&mut self, dag: &mut Dag<E, N>)
        requires
            old(dag).wf(),
            old(self).valid(old(dag)@),
        ensures
            final(dag).wf(),
            final(dag)@ == old(dag)@,
            *final(self) == *old(self),
    {
        let v = self.ver.optimize(&mut dag.lineage);
        self.ver = v;
        proof {
            assert(dag@ =~= old(dag)@);
        }
    }

    /// Branch this handle: the returned handle gets a copy of the identity
    /// (new payload slot index is shared, the edge list is copied) and the
    /// two handles continue on sibling forks of the version, so neither is
    /// a derivative of the other and mutation through one is never
    /// observable through the other.
    pub fn clone<E, N>(&mut self, dag: &mut Dag<E, N>) -> (n: Node)
        requires
            old(dag).wf(),
            old(self).valid(old(dag)@),
        ensures
            final(dag).wf(),
            final(dag)@.lineage == old(dag)@.lineage.push(
                seq![old(self).version().lineage_node()],
            ).push(seq![old(self).version().lineage_node()]),
            final(dag)@.payloads == old(dag)@.payloads,
            final(dag)@.identities == old(dag)@.identities.push(
                old(dag)@.identities[old(self).identity()],
            ),
            final(dag)@.edges == old(dag)@.edges,
            final(self).identity() == old(self).identity(),
            final(self).version().lineage_node() == old(dag)@.lineage.len(),
            final(self).version().gen() == 0,
            n.identity() == old(dag)@.identities.len(),
            n.version().lineage_node() == old(dag)@.lineage.len() + 1,
            n.version().gen() == 0,
            final(self).valid(final(dag)@),
            n.valid(final(dag)@),
    {
        let v1 = self.ver.fork(&mut dag.lineage);
        let v2 = self.ver.fork(&mut dag.lineage);
        let pid = dag.identities[self.id].data;
        let copied = copy_edge_list(&dag.identities[self.id].edges);
        let id = dag.identities.len();
        dag.identities.push(Identity { data: pid, edges: copied });
        self.ver = v1;
        proof {
            assert(dag@.identities =~= old(dag)@.identities.push(
                old(dag)@.identities[old(self).identity()],
            )) by {
                assert forall|i: int|
                    0 <= i < old(dag).identities@.len() implies dag@.identities[i] == old(
                    dag,
                )@.identities[i] by {
                    assert(dag.identities@[i] == old(dag).identities@[i]);
                }
                assert(dag@.identities.last() =~= old(dag)@.identities[old(self).identity()]);
            }
            assert(dag@.edges =~= old(dag)@.edges);
            lemma_wf_lineage(&dag.lineage);
            lemma_dag_grow_wf(old(dag)@, dag@);
        }
        Node { id, ver: v2 }
    }

    /// Create an edge from this node to `child` carrying `data`.
    ///
    /// The edge's authoring version is a fresh merge of both handles'
    /// versions, so it is visible to anything derivative of either side's
    /// prior state. The edge is registered on both endpoint identities, and
    /// this handle advances to the merge version; `child`'s handle is
    /// untouched.
    pub fn add_child<E, N>(&mut self, dag: &mut Dag<E, N>, child: &mut Node, data: E)
        requires
            old(dag).wf(),
            old(self).valid(old(dag)@),
            old(child).valid(old(dag)@),
        ensures
            final(dag).wf(),
            *final(child) == *old(child),
            final(self).identity() == old(self).identity(),
            final(self).version().lineage_node() == old(dag)@.lineage.len(),
            final(self).version().gen() == 0,
            final(dag)@.lineage == old(dag)@.lineage.push(
                seq![old(self).version().lineage_node(), old(child).version().lineage_node()],
            ),
            final(dag)@.payloads == old(dag)@.payloads,
            final(dag)@.edges == old(dag)@.edges.push(
                (EdgeModel {
                    data: data,
                    parent: old(self).identity(),
                    child: old(child).identity(),
                    origin: final(self).version(),
                }),
            ),
            final(dag)@.identities == register_edge(
                register_edge(
                    old(dag)@.identities,
                    old(self).identity(),
                    old(dag)@.edges.len() as int,
                ),
                old(child).identity(),
                old(dag)@.edges.len() as int,
            ),
            final(self).valid(final(dag)@),
            final(child).valid(final(dag)@),
    {
        let mv = self.ver.merge(&mut dag.lineage, &child.ver);
        let eid = dag.edges.len();
        dag.edges.push(EdgeRec { data, parent: self.id, child: child.id, origin: mv });
        let ghost mid = dag@.identities;
        dag.identities[self.id].edges.push(eid);
        let ghost mid1 = dag@.identities;
        dag.identities[child.id].edges.push(eid);
        self.ver = mv;
        proof {
            assert(dag@.edges =~~= old(dag)@.edges.push(
                (EdgeModel {
                    data: data,
                    parent: old(self).identity(),
                    child: old(child).identity(),
                    origin: mv,
                }),
            )) by {
                assert forall|i: int|
                    0 <= i < old(dag).edges@.len() implies dag@.edges[i] == old(dag)@.edges[i] by {
                    assert(dag.edges@[i] == old(dag).edges@[i]);
                }
            }
            let sid = old(self).identity();
            let cid = old(child).identity();
            assert(mid == old(dag)@.identities);
            assert(mid1 =~~= register_edge(mid, sid, eid as int)) by {
                assert forall|i: int| 0 <= i < mid1.len() implies mid1[i] =~~= register_edge(
                    mid,
                    sid,
                    eid as int,
                )[i] by {
                    if i != sid {
                        assert(mid1[i] == mid[i]);
                    } else {
                        assert(mid1[sid].data == mid[sid].data);
                        assert(mid1[sid].edges =~= mid[sid].edges.push(eid as int));
                    }
                }
            }
            assert(dag@.identities =~~= register_edge(mid1, cid, eid as int)) by {
                assert forall|i: int|
                    0 <= i < dag@.identities.len() implies dag@.identities[i] =~~= register_edge(
                    mid1,
                    cid,
                    eid as int,
                )[i] by {
                    if i != cid {
                        assert(dag@.identities[i] == mid1[i]);
                    } else {
                        assert(dag@.identities[cid].data == mid1[cid].data);
                        assert(dag@.identities[cid].edges =~= mid1[cid].edges.push(eid as int));
                    }
                }
            }
            lemma_wf_lineage(&dag.lineage);
            lemma_add_child_wf(old(dag)@, dag@, sid, cid, eid as int, mv);
        }
    }

    /// `add_child`, then advance `child`'s handle to the same merge
    /// version, entangling both sides' future visibility.
    pub fn add_child_sync<E, N>(&mut self, dag: &mut Dag<E, N>, child: &mut Node, data: E)
        requires
            old(dag).wf(),
            old(self).valid(old(dag)@),
            old(child).valid(old(dag)@),
        ensures
            final(dag).wf(),
            final(child).identity() == old(child).identity(),
            final(self).identity() == old(self).identity(),
            final(self).version().lineage_node() == old(dag)@.lineage.len(),
            final(self).version().gen() == 0,
            final(child).version() == final(self).version(),
            final(dag)@.lineage == old(dag)@.lineage.push(
                seq![old(self).version().lineage_node(), old(child).version().lineage_node()],
            ),
            final(dag)@.payloads == old(dag)@.payloads,
            final(dag)@.edges == old(dag)@.edges.push(
                (EdgeModel {
                    data: data,
                    parent: old(self).identity(),
                    child: old(child).identity(),
                    origin: final(self).version(),
                }),
            ),
            final(dag)@.identities == register_edge(
                register_edge(
                    old(dag)@.identities,
                    old(self).identity(),
                    old(dag)@.edges.len() as int,
                ),
                old(child).identity(),
                old(dag)@.edges.len() as int,
            ),
            final(self).valid(final(dag)@),
            final(child).valid(final(dag)@),
    {
        self.add_child(dag, child, data);
        child.ver = self.ver;
    }
}

/// The graph stays consistent across `add_child`: one fresh merge record,
/// one fresh edge between existing identities, registered on both
/// endpoints.
proof fn lemma_add_child_wf<E, N>(
    d1: DagModel<E, N>,
    d2: DagModel<E, N>,
    sid: int,
    cid: int,
    e: int,
    mv: Version,
)
    requires
        dag_wf(d1),
        lineage_wf(d2.lineage),
        d1.lineage.len() <= d2.lineage.len(),
        0 <= sid < d1.identities.len(),
        0 <= cid < d1.identities.len(),
        e == d1.edges.len(),
        mv.valid(d2.lineage),
        d2.payloads == d1.payloads,
        d2.edges == d1.edges.push(
            (EdgeModel { data: d2.edges.last().data, parent: sid, child: cid, origin: mv }),
        ),
        d2.identities == register_edge(register_edge(d1.identities, sid, e), cid, e),
    ensures
        dag_wf(d2),
{
    let mid = register_edge(d1.identities, sid, e);
    assert forall|i: int|
        0 <= i < d2.identities.len() implies 0 <= (#[trigger] d2.identities[i]).data
        < d2.payloads.len() by {
        assert(d2.identities[i].data == d1.identities[i].data);
    }
    assert forall|i: int, k: int|
        0 <= i < d2.identities.len() && 0 <= k < d2.identities[i].edges.len() implies 0
        <= #[trigger] d2.identities[i].edges[k] < d2.edges.len() by {
        if i == cid || i == sid {
            if k < d1.identities[i].edges.len() {
                assert(d2.identities[i].edges[k] == d1.identities[i].edges[k]);
            } else {
                assert(d2.identities[i].edges[k] == e);
            }
        } else {
            assert(d2.identities[i].edges == d1.identities[i].edges);
        }
    }
    assert forall|ei: int|
        0 <= ei < d2.edges.len() implies {
        let ed = #[trigger] d2.edges[ei];
        &&& 0 <= ed.parent < d2.identities.len()
        &&& 0 <= ed.child < d2.identities.len()
        &&& ed.origin.valid(d2.lineage)
    } by {
        if ei < d1.edges.len() {
            assert(d2.edges[ei] == d1.edges[ei]);
            assert(d1.edges[ei].origin.valid(d1.lineage));
        }
    }
}

/// Edge `e` qualifies for a children traversal from identity `id` under
/// version `v`: the edge exists, `id` occupies its parent endpoint, and `v`
/// is a derivative of the version that authored the edge.
pub open spec fn child_edge_visible<E, N>(d: DagModel<E, N>, id: int, v: Version, e: int) -> bool {
    &&& 0 <= e < d.edges.len()
    &&& d.edges[e].parent == id
    &&& derivative(d.lineage, v, d.edges[e].origin)
}

/// Edge `e` qualifies for a parents traversal from identity `id` under
/// version `v`: the edge exists, `id` occupies its child endpoint, and `v`
/// is a derivative of the version that authored the edge.
pub open spec fn parent_edge_visible<E, N>(d: DagModel<E, N>, id: int, v: Version, e: int) -> bool {
    &&& 0 <= e < d.edges.len()
    &&& d.edges[e].child == id
    &&& derivative(d.lineage, v, d.edges[e].origin)
}

/// A lazy, restartable walk over the children visible to one handle.
///
/// The arena owns every edge for as long as it owns the graph, so the
/// question whether an edge's authoring version still exists is answered
/// by the ancestry test alone.
pub struct ChildrenIterator {
    id: usize,
    ver: Version,
    i: usize,
}

/// A lazy, restartable walk over the parents visible to one handle.
pub struct ParentsIterator {
    id: usize,
    ver: Version,
    i: usize,
}

impl ChildrenIterator {
    /// The identity whose edge list is walked.
    pub closed spec fn identity(self) -> int {
        self.id as int
    }

    /// The version filtering the walk.
    pub closed spec fn version(self) -> Version {
        self.ver
    }

    /// How many edge-list entries have been consumed.
    pub closed spec fn pos(self) -> int {
        self.i as int
    }

    /// The iterator points into graph image `d`.
    pub open spec fn valid<E, N>(self, d: DagModel<E, N>) -> bool {
        &&& 0 <= self.identity() < d.identities.len()
        &&& self.version().valid(d.lineage)
        &&& self.pos() <= d.identities[self.identity()].edges.len()
    }

    /// The next visible child edge at or after the current position, as the
    /// edge identifier and a handle on the child that shares this walk's
    /// version, so that further traversal respects the same visibility
    /// horizon; `None` when no entry from the current position on is
    /// visible.
    #[verifier::loop_isolation(false)]
    pub fn next<E, N>(&mut self, dag: &Dag<E, N>) -> (r: Option<(usize, Node)>)
        requires
            dag.wf(),
            old(self).valid(dag@),
        ensures
            final(self).identity() == old(self).identity(),
            final(self).version() == old(self).version(),
            final(self).valid(dag@),
            ({
                let d = dag@;
                let id = old(self).identity();
                let v = old(self).version();
                let list = d.identities[id].edges;
                match r {
                    Option::None => {
                        &&& final(self).pos() == list.len()
                        &&& forall|t: int|
                            old(self).pos() <= t < list.len() ==> !child_edge_visible(
                                d,
                                id,
                                v,
                                #[trigger] list[t],
                            )
                    },
                    Option::Some((e, n)) => {
                        &&& old(self).pos() <= final(self).pos() - 1 < list.len()
                        &&& e as int == list[final(self).pos() - 1]
                        &&& child_edge_visible(d, id, v, e as int)
                        &&& forall|t: int|
                            old(self).pos() <= t < final(self).pos() - 1 ==> !child_edge_visible(
                                d,
                                id,
                                v,
                                #[trigger] list[t],
                            )
                        &&& n.identity() == d.edges[e as int].child
                        &&& n.version() == v
                        &&& n.valid(d)
                    },
                }
            }),
    {
        proof {
            assert(dag@.identities[self.identity()] == (IdentityModel {
                data: dag.identities@[self.identity()].data as int,
                edges: dag.identities@[self.identity()].edges@.map_values(|e: usize| e as int),
            }));
        }
        let list_len = dag.identities[self.id].edges.len();
        while self.i < list_len
            invariant
                self.id == old(self).id,
                self.ver == old(self).ver,
                old(self).pos() <= self.i as int <= list_len as int,
                forall|t: int|
                    old(self).pos() <= t < self.i as int ==> !child_edge_visible(
                        dag@,
                        old(self).identity(),
                        old(self).version(),
                        #[trigger] dag@.identities[old(self).identity()].edges[t],
                    ),
            decreases list_len - self.i,
        {
            let eid = dag.identities[self.id].edges[self.i];
            proof {
                assert(dag@.identities[self.identity()].edges[self.pos()] == eid as int);
                assert((eid as int) < dag@.edges.len());
                assert(dag@.edges[eid as int] == (EdgeModel {
                    data: dag.edges@[eid as int].data,
                    parent: dag.edges@[eid as int].parent as int,
                    child: dag.edges@[eid as int].child as int,
                    origin: dag.edges@[eid as int].origin,
                }));
            }
            self.i = self.i + 1;
            if dag.edges[eid].parent == self.id {
                if self.ver.is_derivative_of(&dag.lineage, &dag.edges[eid].origin) {
                    return Some((eid, Node { id: dag.edges[eid].child, ver: self.ver }));
                }
            }
        }
        None
    }
}

impl ParentsIterator {
    /// The identity whose edge list is walked.
    pub closed spec fn identity(self) -> int {
        self.id as int
    }

    /// The version filtering the walk.
    pub closed spec fn version(self) -> Version {
        self.ver
    }

    /// How many edge-list entries have been consumed.
    pub closed spec fn pos(self) -> int {
        self.i as int
    }

    /// The iterator points into graph image `d`.
    pub open spec fn valid<E, N>(self, d: DagModel<E, N>) -> bool {
        &&& 0 <= self.identity() < d.identities.len()
        &&& self.version().valid(d.lineage)
        &&& self.pos() <= d.identities[self.identity()].edges.len()
    }

    /// The next visible parent edge at or after the current position, as
    /// the edge identifier and a handle on the parent that shares this
    /// walk's version; `None` when no entry from the current position on is
    /// visible.
    #[verifier::loop_isolation(false)]
    pub fn next<E, N>(&mut self, dag: &Dag<E, N>) -> (r: Option<(usize, Node)>)
        requires
            dag.wf(),
            old(self).valid(dag@),
        ensures
            final(self).identity() == old(self).identity(),
            final(self).version() == old(self).version(),
            final(self).valid(dag@),
            ({
                let d = dag@;
                let id = old(self).identity();
                let v = old(self).version();
                let list = d.identities[id].edges;
                match r {
                    Option::None => {
                        &&& final(self).pos() == list.len()
                        &&& forall|t: int|
                            old(self).pos() <= t < list.len() ==> !parent_edge_visible(
                                d,
                                id,
                                v,
                                #[trigger] list[t],
                            )
                    },
                    Option::Some((e, n)) => {
                        &&& old(self).pos() <= final(self).pos() - 1 < list.len()
                        &&& e as int == list[final(self).pos() - 1]
                        &&& parent_edge_visible(d, id, v, e as int)
                        &&& forall|t: int|
                            old(self).pos() <= t < final(self).pos() - 1 ==> !parent_edge_visible(
                                d,
                                id,
                                v,
                                #[trigger] list[t],
                            )
                        &&& n.identity() == d.edges[e as int].parent
                        &&& n.version() == v
                        &&& n.valid(d)
                    },
                }
            }),
    {
        proof {
            assert(dag@.identities[self.identity()] == (IdentityModel {
                data: dag.identities@[self.identity()].data as int,
                edges: dag.identities@[self.identity()].edges@.map_values(|e: usize| e as int),
            }));
        }
        let list_len = dag.identities[self.id].edges.len();
        while self.i < list_len
            invariant
                self.id == old(self).id,
                self.ver == old(self).ver,
                old(self).pos() <= self.i as int <= list_len as int,
                forall|t: int|
                    old(self).pos() <= t < self.i as int ==> !parent_edge_visible(
                        dag@,
                        old(self).identity(),
                        old(self).version(),
                        #[trigger] dag@.identities[old(self).identity()].edges[t],
                    ),
            decreases list_len - self.i,
        {
            let eid = dag.identities[self.id].edges[self.i];
            proof {
                assert(dag@.identities[self.identity()].edges[self.pos()] == eid as int);
                assert((eid as int) < dag@.edges.len());
                assert(dag@.edges[eid as int] == (EdgeModel {
                    data: dag.edges@[eid as int].data,
                    parent: dag.edges@[eid as int].parent as int,
                    child: dag.edges@[eid as int].child as int,
                    origin: dag.edges@[eid as int].origin,
                }));
            }
            self.i = self.i + 1;
            if dag.edges[eid].child == self.id {
                if self.ver.is_derivative_of(&dag.lineage, &dag.edges[eid].origin) {
                    return Some((eid, Node { id: dag.edges[eid].parent, ver: self.ver }));
                }
            }
        }
        None
    }
}

impl Node {
    /// Every edge a children traversal from this handle yields, eagerly
    /// collected: exactly [`visible_children`] of this handle's identity
    /// and version.
    #[verifier::loop_isolation(false)]
    pub fn children_edges<E, N>(&self, dag: &Dag<E, N>) -> (r: Vec<usize>)
        requires
            dag.wf(),
            self.valid(dag@),
        ensures
            r@.map_values(|x: usize| x as int) == visible_children(
                dag@,
                self.identity(),
                self.version(),
            ),
    {
        proof {
            assert(dag@.identities[self.identity()] == (IdentityModel {
                data: dag.identities@[self.identity()].data as int,
                edges: dag.identities@[self.identity()].edges@.map_values(|e: usize| e as int),
            }));
        }
        let ghost list = dag@.identities[self.identity()].edges;
        let ghost vis = |x: int| child_edge_visible(dag@, self.identity(), self.version(), x);
        let mut r: Vec<usize> = Vec::new();
        let list_len = dag.identities[self.id].edges.len();
        let mut t: usize = 0;
        while t < list_len
            invariant
                t <= list_len,
                r@.map_values(|x: usize| x as int) == visible_upto(list, vis, t as int),
            decreases list_len - t,
        {
            let eid = dag.identities[self.id].edges[t];
            proof {
                assert(list[t as int] == eid as int);
                assert((eid as int) < dag@.edges.len());
                assert(dag@.edges[eid as int] == (EdgeModel {
                    data: dag.edges@[eid as int].data,
                    parent: dag.edges@[eid as int].parent as int,
                    child: dag.edges@[eid as int].child as int,
                    origin: dag.edges@[eid as int].origin,
                }));
            }
            if dag.edges[eid].parent == self.id && self.ver.is_derivative_of(
                &dag.lineage,
                &dag.edges[eid].origin,
            ) {
                let ghost before = r@;
                r.push(eid);
                proof {
                    assert(r@.map_values(|x: usize| x as int) =~= before.map_values(
                        |x: usize| x as int,
                    ).push(eid as int));
                }
            }
            t = t + 1;
        }
        proof {
            assert(visible_children(dag@, self.identity(), self.version()) == visible_upto(
                list,
                vis,
                list.len() as int,
            ));
        }
        r
    }

    /// Every edge a parents traversal from this handle yields, eagerly
    /// collected: exactly [`visible_parents`] of this handle's identity
    /// and version.
    #[verifier::loop_isolation(false)]
    pub fn parents_edges<E, N>(&self, dag: &Dag<E, N>) -> (r: Vec<usize>)
        requires
            dag.wf(),
            self.valid(dag@),
        ensures
            r@.map_values(|x: usize| x as int) == visible_parents(
                dag@,
                self.identity(),
                self.version(),
            ),
    {
        proof {
            assert(dag@.identities[self.identity()] == (IdentityModel {
                data: dag.identities@[self.identity()].data as int,
                edges: dag.identities@[self.identity()].edges@.map_values(|e: usize| e as int),
            }));
        }
        let ghost list = dag@.identities[self.identity()].edges;
        let ghost vis = |x: int| parent_edge_visible(dag@, self.identity(), self.version(), x);
        let mut r: Vec<usize> = Vec::new();
        let list_len = dag.identities[self.id].edges.len();
        let mut t: usize = 0;
        while t < list_len
            invariant
                t <= list_len,
                r@.map_values(|x: usize| x as int) == visible_upto(list, vis, t as int),
            decreases list_len - t,
        {
            let eid = dag.identities[self.id].edges[t];
            proof {
                assert(list[t as int] == eid as int);
                assert((eid as int) < dag@.edges.len());
                assert(dag@.edges[eid as int] == (EdgeModel {
                    data: dag.edges@[eid as int].data,
                    parent: dag.edges@[eid as int].parent as int,
                    child: dag.edges@[eid as int].child as int,
                    origin: dag.edges@[eid as int].origin,
                }));
            }
            if dag.edges[eid].child == self.id && self.ver.is_derivative_of(
                &dag.lineage,
                &dag.edges[eid].origin,
            ) {
                let ghost before = r@;
                r.push(eid);
                proof {
                    assert(r@.map_values(|x: usize| x as int) =~= before.map_values(
                        |x: usize| x as int,
                    ).push(eid as int));
                }
            }
            t = t + 1;
        }
        proof {
            assert(visible_parents(dag@, self.identity(), self.version()) == visible_upto(
                list,
                vis,
                list.len() as int,
            ));
        }
        r
    }

    /// Begin a children traversal from this handle.
    pub fn children(&self) -> (it: ChildrenIterator)
        ensures
            it.identity() == self.identity(),
            it.version() == self.version(),
            it.pos() == 0,
    {
        ChildrenIterator { id: self.id, ver: self.ver, i: 0 }
    }

    /// Begin a parents traversal from this handle.
    pub fn parents(&self) -> (it: ParentsIterator)
        ensures
            it.identity() == self.identity(),
            it.version() == self.version(),
            it.pos() == 0,
    {
        ParentsIterator { id: self.id, ver: self.ver, i: 0 }
    }
}

/// A fresh vector holding the same edge identifiers.
fn copy_edge_list(src: &Vec<usize>) -> (r: Vec<usize>)
    ensures
        r@ == src@,
{
    let mut r: Vec<usize> = Vec::new();
    let mut k: usize = 0;
    while k < src.len()
        invariant
            k <= src@.len(),
            r@ == src@.subrange(0, k as int),
        decreases src@.len() - k,
    {
        r.push(src[k]);
        proof {
            assert(r@ =~= src@.subrange(0, k + 1));
        }
        k = k + 1;
    }
    proof {
        assert(r@ =~= src@);
    }
    r
}

/// A graph image that only grew—same or extended lineage, payloads,
/// identities and edges, with every added part internally in range—stays
/// consistent.
proof fn lemma_dag_grow_wf<E, N>(d1: DagModel<E, N>, d2: DagModel<E, N>)
    requires
        dag_wf(d1),
        lineage_wf(d2.lineage),
        d1.lineage.len() <= d2.lineage.len(),
        forall|i: int| 0 <= i < d1.lineage.len() ==> d1.lineage[i] == d2.lineage[i],
        d1.payloads.len() <= d2.payloads.len(),
        d1.identities.len() <= d2.identities.len(),
        d1.edges.len() <= d2.edges.len(),
        forall|i: int| 0 <= i < d1.edges.len() ==> d1.edges[i] == d2.edges[i],
        forall|i: int|
            d1.identities.len() <= i < d2.identities.len() ==> 0 <= (
            #[trigger] d2.identities[i]).data < d2.payloads.len(),
        forall|i: int|
            0 <= i < d1.identities.len() ==> (#[trigger] d2.identities[i]).data
                == d1.identities[i].data,
        forall|i: int, k: int|
            d1.identities.len() <= i < d2.identities.len() && 0 <= k < d2.identities[i].edges.len()
                ==> 0 <= #[trigger] d2.identities[i].edges[k] < d2.edges.len(),
        forall|i: int|
            0 <= i < d1.identities.len() ==> (#[trigger] d2.identities[i]).edges
                == d1.identities[i].edges,
        forall|e: int|
            d1.edges.len() <= e < d2.edges.len() ==> {
                let ed = #[trigger] d2.edges[e];
                &&& 0 <= ed.parent < d2.identities.len()
                &&& 0 <= ed.child < d2.identities.len()
                &&& ed.origin.valid(d2.lineage)
            },
    ensures
        dag_wf(d2),
{
}

/// The entries among the first `n` of `list` that satisfy `vis`, in order.
pub open spec fn visible_upto(list: Seq<int>, vis: spec_fn(int) -> bool, n: int) -> Seq<int>
    decreases n,
{
    if n <= 0 {
        Seq::empty()
    } else if vis(list[n - 1]) {
        visible_upto(list, vis, n - 1).push(list[n - 1])
    } else {
        visible_upto(list, vis, n - 1)
    }
}

/// The full sequence of edge identifiers a children traversal from
/// identity `id` under version `v` yields, in registration order.
pub open spec fn visible_children<E, N>(d: DagModel<E, N>, id: int, v: Version) -> Seq<int> {
    visible_upto(
        d.identities[id].edges,
        |e: int| child_edge_visible(d, id, v, e),
        d.identities[id].edges.len() as int,
    )
}

/// The full sequence of edge identifiers a parents traversal from identity
/// `id` under version `v` yields, in registration order.
pub open spec fn visible_parents<E, N>(d: DagModel<E, N>, id: int, v: Version) -> Seq<int> {
    visible_upto(
        d.identities[id].edges,
        |e: int| parent_edge_visible(d, id, v, e),
        d.identities[id].edges.len() as int,
    )
}

/// Two walks over pointwise-equal prefixes with pointwise-equal visibility
/// yield the same sequence.
proof fn lemma_visible_upto_congruence(
    l1: Seq<int>,
    f1: spec_fn(int) -> bool,
    l2: Seq<int>,
    f2: spec_fn(int) -> bool,
    n: int,
)
    requires
        n <= l1.len(),
        n <= l2.len(),
        forall|t: int| 0 <= t < n ==> l1[t] == l2[t],
        forall|t: int| 0 <= t < n ==> f1(#[trigger] l1[t]) == f2(l1[t]),
    ensures
        visible_upto(l1, f1, n) == visible_upto(l2, f2, n),
    decreases n,
{
    if n > 0 {
        lemma_visible_upto_congruence(l1, f1, l2, f2, n - 1);
    }
}

/// A walk never yields a value its visibility predicate rejects.
proof fn lemma_visible_upto_not_contains(list: Seq<int>, vis: spec_fn(int) -> bool, n: int, x: int)
    requires
        !vis(x),
    ensures
        !visible_upto(list, vis, n).contains(x),
    decreases n,
{
    if n > 0 {
        lemma_visible_upto_not_contains(list, vis, n - 1, x);
        let prefix = visible_upto(list, vis, n - 1);
        if vis(list[n - 1]) {
            let whole = prefix.push(list[n - 1]);
            if whole.contains(x) {
                let i = choose|i: int| 0 <= i < whole.len() && whole[i] == x;
                if i < prefix.len() {
                    assert(prefix[i] == x);
                    assert(prefix.contains(x));
                } else {
                    assert(list[n - 1] == x);
                }
            }
        }
    }
}

/// Copy-on-write isolation, the pure-growth half: an operation that only
/// appends payloads and identities (`new`, `set`, `clone`) and leaves the
/// recorded history, the edges and every existing identity's edge list
/// unchanged cannot change any traversal result of any existing handle.
pub proof fn lemma_growth_preserves_traversal<E, N>(
    d1: DagModel<E, N>,
    d2: DagModel<E, N>,
    id: int,
    u: Version,
)
    requires
        dag_wf(d1),
        dag_wf(d2),
        d1.lineage.len() <= d2.lineage.len(),
        forall|i: int| 0 <= i < d1.lineage.len() ==> d1.lineage[i] == d2.lineage[i],
        d2.edges == d1.edges,
        d1.identities.len() <= d2.identities.len(),
        forall|i: int| 0 <= i < d1.identities.len() ==> d2.identities[i] == d1.identities[i],
        0 <= id < d1.identities.len(),
        u.valid(d1.lineage),
    ensures
        visible_children(d2, id, u) == visible_children(d1, id, u),
        visible_parents(d2, id, u) == visible_parents(d1, id, u),
        forall|e: int| child_edge_visible(d2, id, u, e) == child_edge_visible(d1, id, u, e),
        forall|e: int| parent_edge_visible(d2, id, u, e) == parent_edge_visible(d1, id, u, e),
{
    assert forall|e: int| child_edge_visible(d2, id, u, e) == child_edge_visible(
        d1,
        id,
        u,
        e,
    ) by {
        if 0 <= e < d1.edges.len() {
            lemma_derivative_grow(d1.lineage, d2.lineage, u, d1.edges[e].origin);
        }
    }
    assert forall|e: int| parent_edge_visible(d2, id, u, e) == parent_edge_visible(
        d1,
        id,
        u,
        e,
    ) by {
        if 0 <= e < d1.edges.len() {
            lemma_derivative_grow(d1.lineage, d2.lineage, u, d1.edges[e].origin);
        }
    }
    let list = d1.identities[id].edges;
    assert(d2.identities[id].edges == list);
    lemma_visible_upto_congruence(
        list,
        |e: int| child_edge_visible(d1, id, u, e),
        list,
        |e: int| child_edge_visible(d2, id, u, e),
        list.len() as int,
    );
    lemma_visible_upto_congruence(
        list,
        |e: int| parent_edge_visible(d1, id, u, e),
        list,
        |e: int| parent_edge_visible(d2, id, u, e),
        list.len() as int,
    );
}

/// Copy-on-write isolation, the `add_child` half: the graph image after
/// `add_child` (related to the image before it exactly as that contract
/// states) shows every handle that existed before the call—any identity,
/// under any version of the old history—the very same traversal results.
/// In particular a clone of the mutated node, living on a sibling fork, is
/// unaffected.
pub proof fn lemma_add_child_preserves_traversal<E, N>(
    d1: DagModel<E, N>,
    d2: DagModel<E, N>,
    sid: int,
    cid: int,
    e: int,
    mv: Version,
    id: int,
    u: Version,
)
    requires
        dag_wf(d1),
        dag_wf(d2),
        0 <= sid < d1.identities.len(),
        0 <= cid < d1.identities.len(),
        e == d1.edges.len(),
        d1.lineage.len() <= d2.lineage.len(),
        forall|i: int| 0 <= i < d1.lineage.len() ==> d1.lineage[i] == d2.lineage[i],
        mv.lineage_node() >= d1.lineage.len(),
        d2.edges.len() == d1.edges.len() + 1,
        forall|i: int| 0 <= i < d1.edges.len() ==> d2.edges[i] == d1.edges[i],
        d2.edges[e].origin == mv,
        d2.identities == register_edge(register_edge(d1.identities, sid, e), cid, e),
        0 <= id < d1.identities.len(),
        u.valid(d1.lineage),
    ensures
        visible_children(d2, id, u) == visible_children(d1, id, u),
        visible_parents(d2, id, u) == visible_parents(d1, id, u),
{
    assert forall|x: int|
        0 <= x < d1.edges.len() implies child_edge_visible(d2, id, u, x) == child_edge_visible(
        d1,
        id,
        u,
        x,
    ) && parent_edge_visible(d2, id, u, x) == parent_edge_visible(d1, id, u, x) by {
        lemma_derivative_grow(d1.lineage, d2.lineage, u, d1.edges[x].origin);
    }
    // the fresh edge is authored by a version no old version descends from
    if derivative(d2.lineage, u, mv) {
        assert(u.lineage_node() != mv.lineage_node());
        assert(reaches(d2.lineage, u.lineage_node(), mv.lineage_node()));
        lemma_reaches_bound(d2.lineage, u.lineage_node(), mv.lineage_node());
        assert(false);
    }
    let list1 = d1.identities[id].edges;
    let list2 = d2.identities[id].edges;
    let f1c = |x: int| child_edge_visible(d1, id, u, x);
    let f2c = |x: int| child_edge_visible(d2, id, u, x);
    let f1p = |x: int| parent_edge_visible(d1, id, u, x);
    let f2p = |x: int| parent_edge_visible(d2, id, u, x);
    assert forall|t: int| 0 <= t < list1.len() implies f1c(#[trigger] list1[t]) == f2c(list1[t])
        && f1p(list1[t]) == f2p(list1[t]) by {
        assert(0 <= list1[t] < d1.edges.len());
    }
    lemma_visible_upto_congruence(list1, f1c, list2, f2c, list1.len() as int);
    lemma_visible_upto_congruence(list1, f1p, list2, f2p, list1.len() as int);
    if id != sid && id != cid {
        assert(list2 == list1);
    } else {
        // the appended entries name the fresh, invisible edge, so the walk
        // skips them
        assert(!f2c(e) && !f2p(e));
        if id == sid && id == cid {
            assert(list2 == list1.push(e).push(e));
            assert(list2.len() == list1.len() + 2);
            assert(list2[list2.len() - 1] == e);
            assert(list2[list2.len() - 2] == e);
            assert(visible_upto(list2, f2c, list2.len() as int) == visible_upto(
                list2,
                f2c,
                list2.len() as int - 1,
            ));
            assert(visible_upto(list2, f2c, list2.len() as int - 1) == visible_upto(
                list2,
                f2c,
                list1.len() as int,
            ));
            assert(visible_upto(list2, f2p, list2.len() as int) == visible_upto(
                list2,
                f2p,
                list2.len() as int - 1,
            ));
            assert(visible_upto(list2, f2p, list2.len() as int - 1) == visible_upto(
                list2,
                f2p,
                list1.len() as int,
            ));
        } else {
            assert(list2 == list1.push(e));
        }
    }
}

/// Edge visibility monotonicity: the edge `add_child` creates appears in
/// the children of the parent identity, and in the parents of the child
/// identity, exactly for handles whose version is a derivative of the
/// authoring merge version—the post-call version of the mutated handle.
/// Any version that predates the call, or lives on an unrelated fork, is
/// not such a derivative and never sees the edge.
pub proof fn lemma_new_edge_visibility<E, N>(
    d1: DagModel<E, N>,
    d2: DagModel<E, N>,
    sid: int,
    cid: int,
    e: int,
    mv: Version,
    u: Version,
)
    requires
        dag_wf(d1),
        dag_wf(d2),
        0 <= sid < d1.identities.len(),
        0 <= cid < d1.identities.len(),
        e == d1.edges.len(),
        d2.edges.len() == d1.edges.len() + 1,
        d2.edges[e].origin == mv,
        d2.edges[e].parent == sid,
        d2.edges[e].child == cid,
        d2.identities == register_edge(register_edge(d1.identities, sid, e), cid, e),
        u.valid(d2.lineage),
    ensures
        derivative(d2.lineage, u, mv) ==> visible_children(d2, sid, u).contains(e),
        derivative(d2.lineage, u, mv) ==> visible_parents(d2, cid, u).contains(e),
        !derivative(d2.lineage, u, mv) ==> !visible_children(d2, sid, u).contains(e),
        !derivative(d2.lineage, u, mv) ==> !visible_parents(d2, cid, u).contains(e),
{
    let f2c = |x: int| child_edge_visible(d2, sid, u, x);
    let f2p = |x: int| parent_edge_visible(d2, cid, u, x);
    let slist = d2.identities[sid].edges;
    let clist = d2.identities[cid].edges;
    assert(slist.last() == e);
    assert(clist.last() == e);
    if derivative(d2.lineage, u, mv) {
        assert(f2c(e) && f2p(e));
        let vc = visible_children(d2, sid, u);
        assert(vc == visible_upto(slist, f2c, slist.len() as int - 1).push(e));
        assert(vc[vc.len() - 1] == e);
        assert(vc.contains(e));
        let vp = visible_parents(d2, cid, u);
        assert(vp == visible_upto(clist, f2p, clist.len() as int - 1).push(e));
        assert(vp[vp.len() - 1] == e);
        assert(vp.contains(e));
    } else {
        assert(!f2c(e) && !f2p(e));
        lemma_visible_upto_not_contains(slist, f2c, slist.len() as int, e);
        lemma_visible_upto_not_contains(clist, f2p, clist.len() as int, e);
    }
}

} // verus!
