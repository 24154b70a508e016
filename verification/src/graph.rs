use vstd::prelude::*;

use crate::types::{DNSRecord, DNSRecordV, Domain, EmailAddress, IpAddress, PhoneNumber};

verus! {

/// A node of the graph: one variant per kind of entity an investigation
/// can record. Building a node performs no validation of its payload.
#[derive(Clone, Debug, PartialEq, Eq)]
pub enum Node {
    SocialMedia { social_media_url: String, account_url: String },
    Website { url: String },
    IP(IpAddress),
    PhoneNumber(PhoneNumber),
    EmailAddress(EmailAddress),
    Person(String),
    Organization(String),
    Domain(Domain),
    DNSEntry { nameserver: Domain, record: DNSRecord },
}

/// The mathematical value of a `Node`.
#[verifier::ext_equal]
pub enum NodeV {
    SocialMedia { social_media_url: Seq<char>, account_url: Seq<char> },
    Website { url: Seq<char> },
    IP { addr: IpAddress },
    PhoneNumber { number: Seq<char> },
    EmailAddress { email: Seq<char> },
    Person { name: Seq<char> },
    Organization { name: Seq<char> },
    Domain { domain: Seq<char> },
    DNSEntry { nameserver: Seq<char>, record: DNSRecordV },
}

impl View for Node {
    type V = NodeV;

    open spec fn view(&self) -> NodeV {
        match self {
            Node::SocialMedia { social_media_url, account_url } => NodeV::SocialMedia {
                social_media_url: social_media_url@,
                account_url: account_url@,
            },
            Node::Website { url } => NodeV::Website { url: url@ },
            Node::IP(addr) => NodeV::IP { addr: *addr },
            Node::PhoneNumber(number) => NodeV::PhoneNumber { number: number@ },
            Node::EmailAddress(email) => NodeV::EmailAddress { email: email@ },
            Node::Person(name) => NodeV::Person { name: name@ },
            Node::Organization(name) => NodeV::Organization { name: name@ },
            Node::Domain(domain) => NodeV::Domain { domain: domain@ },
            Node::DNSEntry { nameserver, record } => NodeV::DNSEntry {
                nameserver: nameserver@,
                record: record@,
            },
        }
    }
}

/// A directed edge between two vertices of one graph, named by their
/// indices, with an optional string label.
#[derive(Clone, Debug, PartialEq, Eq)]
pub struct Edge {
    pub from: usize,
    pub to: usize,
    pub label: Option<String>,
}

/// The mathematical value of an `Edge`.
#[verifier::ext_equal]
pub struct EdgeV {
    pub from: int,
    pub to: int,
    pub label: Option<Seq<char>>,
}

impl View for Edge {
    type V = EdgeV;

    open spec fn view(&self) -> EdgeV {
        EdgeV {
            from: self.from as int,
            to: self.to as int,
            label: match &self.label {
                Some(s) => Some(s@),
                None => None,
            },
        }
    }
}

/// The mathematical value of a `Graph`.
#[verifier::ext_equal]
pub struct GraphV {
    pub nodes: Seq<NodeV>,
    pub edges: Seq<EdgeV>,
}

impl GraphV {
    /// Every edge points at vertices that are present in this graph.
    pub open spec fn wf(self) -> bool {
        forall|i: int|
            0 <= i < self.edges.len() ==> 0 <= (#[trigger] self.edges[i]).from
                < self.nodes.len() && 0 <= self.edges[i].to < self.nodes.len()
    }
}

/// A directed graph of `Node` vertices. Vertices are addressed by the
/// index `add_node` returned; an index stays valid for the life of the
/// graph, and edges only ever name vertices of the same graph.
#[derive(Clone, Debug, PartialEq, Eq)]
pub struct Graph {
    pub(crate) nodes: Vec<Node>,
    pub(crate) edges: Vec<Edge>,
}

impl View for Graph {
    type V = GraphV;

    open(crate) spec fn view(&self) -> GraphV {
        GraphV {
            nodes: self.nodes@.map_values(|n: Node| n@),
            edges: self.edges@.map_values(|e: Edge| e@),
        }
    }
}

impl Graph {
    /// Every edge of this graph points at vertices it holds.
    pub open spec fn wf(&self) -> bool {
        self@.wf()
    }

    /// The empty graph.
    pub fn new() -> (r: Graph)
        ensures
            r@.nodes.len() == 0,
            r@.edges.len() == 0,
            r.wf(),
    {
        Graph { nodes: Vec::new(), edges: Vec::new() }
    }

    pub fn node_count(&self) -> (r: usize)
        ensures
            r == self@.nodes.len(),
    {
        self.nodes.len()
    }

    pub fn edge_count(&self) -> (r: usize)
        ensures
            r == self@.edges.len(),
    {
        self.edges.len()
    }

    /// Append a vertex and hand back its index. Indices already handed
    /// out keep naming the vertex they named before.
    pub fn add_node(&mut self, node: Node) -> (r: usize)
        ensures
            final(self)@.nodes == old(self)@.nodes.push(node@),
            final(self)@.edges == old(self)@.edges,
            r == old(self)@.nodes.len(),
            old(self).wf() ==> final(self).wf(),
    {
        let r = self.nodes.len();
        self.nodes.push(node);
        proof {
            assert(final(self)@.nodes =~= old(self)@.nodes.push(node@));
            assert(final(self)@.edges =~= old(self)@.edges);
        }
        r
    }

    /// Connect two vertices of this graph, in the given direction, with
    /// an optional label.
    pub fn add_edge(&mut self, from: usize, to: usize, label: Option<String>)
        requires
            from < old(self)@.nodes.len(),
            to < old(self)@.nodes.len(),
        ensures
            final(self)@.nodes == old(self)@.nodes,
            final(self)@.edges == old(self)@.edges.push(
                EdgeV {
                    from: from as int,
                    to: to as int,
                    label: match label {
                        Some(s) => Some(s@),
                        None => None,
                    },
                },
            ),
            old(self).wf() ==> final(self).wf(),
    {
        let ghost prev = self@;
        self.edges.push(Edge { from, to, label });
        proof {
            assert(final(self)@.nodes =~= prev.nodes);
            assert(final(self)@.edges =~= prev.edges.push(
                EdgeV {
                    from: from as int,
                    to: to as int,
                    label: match label {
                        Some(s) => Some(s@),
                        None => None,
                    },
                },
            ));
        }
    }

    /// Read a vertex by its index.
    pub fn get_node(&self, index: usize) -> (r: &Node)
        requires
            index < self@.nodes.len(),
        ensures
            r@ == self@.nodes[index as int],
    {
        &self.nodes[index]
    }

    /// Read an edge by its index.
    pub fn get_edge(&self, index: usize) -> (r: &Edge)
        requires
            index < self@.edges.len(),
        ensures
            r@ == self@.edges[index as int],
    {
        &self.edges[index]
    }

    /// Merge a fragment into this graph: the fragment's vertices are
    /// appended, and its edges are re-mapped onto the new indices. The
    /// fragment's indices are never assumed compatible with this graph's.
    pub fn merge_from(&mut self, fragment: Graph)
        requires
            fragment.wf(),
            old(self)@.nodes.len() + fragment@.nodes.len() <= usize::MAX,
        ensures
            final(self)@.nodes == old(self)@.nodes + fragment@.nodes,
            final(self)@.edges.len() == old(self)@.edges.len() + fragment@.edges.len(),
            forall|i: int|
                0 <= i < old(self)@.edges.len() ==> final(self)@.edges[i] == old(
                    self,
                )@.edges[i],
            forall|i: int|
                0 <= i < fragment@.edges.len() ==> #[trigger] final(self)@.edges[old(
                    self,
                )@.edges.len() + i] == (EdgeV {
                    from: fragment@.edges[i].from + old(self)@.nodes.len(),
                    to: fragment@.edges[i].to + old(self)@.nodes.len(),
                    label: fragment@.edges[i].label,
                }),
            old(self).wf() ==> final(self).wf(),
    {
        let offset = self.nodes.len();
        let ghost frag = fragment@;
        let Graph { nodes: mut frag_nodes, edges: mut frag_edges } = fragment;
        let ghost prev = self@;
        let ghost n = frag.nodes.len() as int;
        while frag_nodes.len() > 0
            invariant
                frag_nodes@.len() <= n == frag.nodes.len(),
                forall|i: int|
                    0 <= i < frag_nodes@.len() ==> (#[trigger] frag_nodes@[i])@ == frag.nodes[n
                        - frag_nodes@.len() + i],
                self@.nodes == prev.nodes + frag.nodes.take(n - frag_nodes@.len()),
                self@.edges == prev.edges,
            decreases frag_nodes.len(),
        {
            let ghost k = n - frag_nodes@.len();
            let node = frag_nodes.remove(0);
            proof {
                assert(node@ == frag.nodes[k]);
            }
            let ghost pre_nodes = self.nodes@;
            let ghost pre_view = self@.nodes;
            self.nodes.push(node);
            proof {
                assert(self.nodes@ == pre_nodes.push(node));
                assert(pre_view == prev.nodes + frag.nodes.take(k));
                assert forall|i: int| 0 <= i < self@.nodes.len() implies self@.nodes[i]
                    == pre_view.push(node@)[i] by {
                    assert(self@.nodes[i] == self.nodes@[i]@);
                    if i < pre_nodes.len() {
                        assert(self.nodes@[i] == pre_nodes[i]);
                        assert(pre_view[i] == pre_nodes[i]@);
                    } else {
                        assert(self.nodes@[i] == node);
                    }
                }
                assert(self@.nodes =~= pre_view.push(node@));
                assert((prev.nodes + frag.nodes.take(k)).push(frag.nodes[k]) =~= prev.nodes
                    + frag.nodes.take(k + 1));
                assert(self@.nodes == prev.nodes + frag.nodes.take(k + 1));
            }
        }
        proof {
            assert(frag.nodes.take(n) =~= frag.nodes);
        }
        let ghost m = frag.edges.len() as int;
        while frag_edges.len() > 0
            invariant
                frag_edges@.len() <= m == frag.edges.len(),
                forall|i: int|
                    0 <= i < frag_edges@.len() ==> (#[trigger] frag_edges@[i])@ == frag.edges[m
                        - frag_edges@.len() + i],
                offset == prev.nodes.len(),
                offset + frag.nodes.len() <= usize::MAX,
                frag.wf(),
                self@.nodes == prev.nodes + frag.nodes,
                self@.edges.len() == prev.edges.len() + m - frag_edges@.len(),
                forall|k: int|
                    0 <= k < prev.edges.len() ==> self@.edges[k] == prev.edges[k],
                forall|k: int|
                    0 <= k < m - frag_edges@.len() ==> #[trigger] self@.edges[prev.edges.len()
                        + k] == (EdgeV {
                        from: frag.edges[k].from + prev.nodes.len(),
                        to: frag.edges[k].to + prev.nodes.len(),
                        label: frag.edges[k].label,
                    }),
            decreases frag_edges.len(),
        {
            let ghost k = m - frag_edges@.len();
            let edge = frag_edges.remove(0);
            proof {
                assert(edge@ == frag.edges[k]);
                assert(0 <= edge@.from < frag.nodes.len());
                assert(0 <= edge@.to < frag.nodes.len());
            }
            let new_edge = Edge {
                from: edge.from + offset,
                to: edge.to + offset,
                label: edge.label,
            };
            let ghost pre_edges = self.edges@;
            let ghost pre_view = self@.edges;
            let ghost target = EdgeV {
                from: frag.edges[k].from + prev.nodes.len(),
                to: frag.edges[k].to + prev.nodes.len(),
                label: frag.edges[k].label,
            };
            self.edges.push(new_edge);
            proof {
                assert(self.edges@ == pre_edges.push(new_edge));
                assert(new_edge@ == target);
                assert forall|j: int| 0 <= j < self@.edges.len() implies self@.edges[j]
                    == pre_view.push(target)[j] by {
                    assert(self@.edges[j] == self.edges@[j]@);
                    if j < pre_edges.len() {
                        assert(self.edges@[j] == pre_edges[j]);
                        assert(pre_view[j] == pre_edges[j]@);
                    } else {
                        assert(self.edges@[j] == new_edge);
                    }
                }
                assert(self@.edges =~= pre_view.push(target));
            }
        }
        proof {
            if prev.wf() {
                assert forall|i: int|
                    0 <= i < self@.edges.len() implies 0 <= (#[trigger] self@.edges[i]).from
                    < self@.nodes.len() && 0 <= self@.edges[i].to < self@.nodes.len() by {
                    if i < prev.edges.len() {
                        assert(self@.edges[i] == prev.edges[i]);
                        assert(0 <= prev.edges[i].from < prev.nodes.len());
                        assert(0 <= prev.edges[i].to < prev.nodes.len());
                    } else {
                        let j = i - prev.edges.len();
                        assert(self@.edges[prev.edges.len() + j] == EdgeV {
                            from: frag.edges[j].from + prev.nodes.len(),
                            to: frag.edges[j].to + prev.nodes.len(),
                            label: frag.edges[j].label,
                        });
                        assert(self@.edges[i] == EdgeV {
                            from: frag.edges[j].from + prev.nodes.len(),
                            to: frag.edges[j].to + prev.nodes.len(),
                            label: frag.edges[j].label,
                        });
                        assert(0 <= frag.edges[j].from < frag.nodes.len());
                        assert(0 <= frag.edges[j].to < frag.nodes.len());
                    }
                }
            }
        }
    }
}

} // verus!
