use vstd::prelude::*;
use vstd::string::*;

use crate::keyed::{
    distinct_keys, keyed, lemma_keyed_absent, lemma_keyed_at, lemma_keyed_finite, lemma_keyed_push,
    lemma_keyed_update,
};
use crate::score::Node;
use crate::text::same_text;

verus! {

/// The children listed for one node, in the order they were added.
struct Adjacency {
    from: String,
    to: Vec<String>,
}

/// Candidate nodes keyed by id, and for each id an ordered list of child ids.
///
/// Child ids need not name a node, and lists may repeat ids or point back
/// to their own node.
pub struct Graph {
    nodes: Vec<Node>,
    edges: Vec<Adjacency>,
}

/// What a graph holds: its nodes by id, and each id's list of child ids.
pub struct GraphView {
    pub nodes: Map<Seq<char>, Node>,
    pub edges: Map<Seq<char>, Seq<Seq<char>>>,
}

pub open spec fn ids_of(s: Seq<String>) -> Seq<Seq<char>> {
    s.map_values(|t: String| t@)
}

spec fn node_entries(s: Seq<Node>) -> Seq<(Seq<char>, Node)> {
    s.map_values(|n: Node| (n.id@, n))
}

spec fn edge_entries(s: Seq<Adjacency>) -> Seq<(Seq<char>, Seq<Seq<char>>)> {
    s.map_values(|a: Adjacency| (a.from@, ids_of(a.to@)))
}

impl View for Graph {
    type V = GraphView;

    closed spec fn view(&self) -> GraphView {
        GraphView { nodes: keyed(node_entries(self.nodes@)), edges: keyed(edge_entries(self.edges@)) }
    }
}

impl Graph {
    #[verifier::type_invariant]
    spec fn well_formed(self) -> bool {
        &&& distinct_keys(node_entries(self.nodes@))
        &&& distinct_keys(edge_entries(self.edges@))
    }

    /// A graph holds finitely many nodes.
    pub proof fn lemma_nodes_finite(&self)
        ensures
            self@.nodes.dom().finite(),
    {
        lemma_keyed_finite(node_entries(self.nodes@));
    }

    /// An empty graph.
    pub fn new() -> (g: Graph)
        ensures
            g@.nodes == Map::<Seq<char>, Node>::empty(),
            g@.edges == Map::<Seq<char>, Seq<Seq<char>>>::empty(),
    {
        let g = Graph { nodes: Vec::new(), edges: Vec::new() };
        assert(node_entries(g.nodes@) =~= Seq::empty());
        assert(edge_entries(g.edges@) =~= Seq::empty());
        g
    }

    /// Where the node with this id stands in `nodes`.
    fn node_index(&self, id: &str) -> (r: Option<usize>)
        ensures
            match r {
                Some(i) => i < self.nodes@.len() && self.nodes@[i as int].id@ == id@,
                None => forall|i: int| 0 <= i < self.nodes@.len() ==> self.nodes@[i].id@ != id@,
            },
    {
        let mut i: usize = 0;
        while i < self.nodes.len()
            invariant
                i <= self.nodes@.len(),
                forall|j: int| 0 <= j < i ==> self.nodes@[j].id@ != id@,
            decreases self.nodes@.len() - i,
        {
            if same_text(self.nodes[i].id.as_str(), id) {
                return Some(i);
            }
            i = i + 1;
        }
        None
    }

    /// Where the child list of this id stands in `edges`.
    fn edge_index(&self, id: &str) -> (r: Option<usize>)
        ensures
            match r {
                Some(i) => i < self.edges@.len() && self.edges@[i as int].from@ == id@,
                None => forall|i: int| 0 <= i < self.edges@.len() ==> self.edges@[i].from@ != id@,
            },
    {
        let mut i: usize = 0;
        while i < self.edges.len()
            invariant
                i <= self.edges@.len(),
                forall|j: int| 0 <= j < i ==> self.edges@[j].from@ != id@,
            decreases self.edges@.len() - i,
        {
            if same_text(self.edges[i].from.as_str(), id) {
                return Some(i);
            }
            i = i + 1;
        }
        None
    }

    /// The node with this id, if there is one.
    pub fn node(&self, id: &str) -> (r: Option<&Node>)
        ensures
            match r {
                Some(n) => self@.nodes.contains_key(id@) && *n == self@.nodes[id@],
                None => !self@.nodes.contains_key(id@),
            },
    {
        proof {
            use_type_invariant(self);
        }
        match self.node_index(id) {
            Some(i) => {
                proof {
                    lemma_keyed_at(node_entries(self.nodes@), i as int);
                }
                Some(&self.nodes[i])
            },
            None => {
                proof {
                    let s = node_entries(self.nodes@);
                    assert forall|j: int| 0 <= j < s.len() implies s[j].0 != id@ by {
                        assert(s[j].0 == self.nodes@[j].id@);
                    }
                    lemma_keyed_absent(s, id@);
                }
                None
            },
        }
    }

    /// The child ids listed for this id, if any list was ever started.
    pub fn children(&self, id: &str) -> (r: Option<&Vec<String>>)
        ensures
            match r {
                Some(kids) => self@.edges.contains_key(id@) && ids_of(kids@) == self@.edges[id@],
                None => !self@.edges.contains_key(id@),
            },
    {
        proof {
            use_type_invariant(self);
        }
        match self.edge_index(id) {
            Some(i) => {
                proof {
                    lemma_keyed_at(edge_entries(self.edges@), i as int);
                }
                Some(&self.edges[i].to)
            },
            None => {
                proof {
                    let s = edge_entries(self.edges@);
                    assert forall|j: int| 0 <= j < s.len() implies s[j].0 != id@ by {
                        assert(s[j].0 == self.edges@[j].from@);
                    }
                    lemma_keyed_absent(s, id@);
                }
                None
            },
        }
    }

    /// Adds a node, replacing any node with the same id.
    pub fn add_node(&mut self, node: Node)
        ensures
            final(self)@.nodes == old(self)@.nodes.insert(node.id@, node),
            final(self)@.edges == old(self)@.edges,
    {
        proof {
            use_type_invariant(&*self);
        }
        let ghost s = node_entries(self.nodes@);
        let ghost k = node.id@;
        let found = self.node_index(node.id.as_str());
        let mut nodes: Vec<Node> = Vec::new();
        std::mem::swap(&mut nodes, &mut self.nodes);
        assert(nodes@ == old(self).nodes@);
        match found {
            Some(i) => {
                nodes.remove(i);
                nodes.insert(i, node);
                proof {
                    assert(nodes@ =~= old(self).nodes@.update(i as int, node));
                    assert(node_entries(nodes@) =~= s.update(i as int, (s[i as int].0, node)));
                    lemma_keyed_update(s, i as int, node);
                }
            },
            None => {
                nodes.push(node);
                proof {
                    assert(node_entries(nodes@) =~= s.push((k, node)));
                    lemma_keyed_push(s, (k, node));
                    assert forall|a: int, b: int|
                        0 <= a < b < node_entries(nodes@).len() implies node_entries(
                        nodes@,
                    )[a].0 != node_entries(nodes@)[b].0 by {
                        if b == s.len() {
                            assert(old(self).nodes@[a].id@ != k);
                        } else {
                            assert(s[a].0 != s[b].0);
                        }
                    }
                }
            },
        }
        self.nodes = nodes;
    }

    /// Appends `to` to the child list of `from`, starting the list where
    /// there is none. Nothing is checked or removed.
    pub fn add_edge(&mut self, from: &str, to: &str)
        ensures
            final(self)@.nodes == old(self)@.nodes,
            final(self)@.edges == old(self)@.edges.insert(
                from@,
                if old(self)@.edges.contains_key(from@) {
                    old(self)@.edges[from@].push(to@)
                } else {
                    seq![to@]
                },
            ),
    {
        proof {
            use_type_invariant(&*self);
        }
        let ghost s = edge_entries(self.edges@);
        let ghost k = from@;
        let found = self.edge_index(from);
        let mut edges: Vec<Adjacency> = Vec::new();
        std::mem::swap(&mut edges, &mut self.edges);
        assert(edges@ == old(self).edges@);
        match found {
            Some(i) => {
                let mut adj = edges.remove(i);
                proof {
                    lemma_keyed_at(s, i as int);
                }
                let ghost before = ids_of(adj.to@);
                adj.to.push(String::from_str(to));
                assert(ids_of(adj.to@) =~= before.push(to@));
                edges.insert(i, adj);
                proof {
                    assert(edges@ =~= old(self).edges@.update(i as int, adj));
                    assert(edge_entries(edges@) =~= s.update(i as int, (k, ids_of(adj.to@))));
                    lemma_keyed_update(s, i as int, ids_of(adj.to@));
                }
            },
            None => {
                let mut list: Vec<String> = Vec::new();
                list.push(String::from_str(to));
                let adj = Adjacency { from: String::from_str(from), to: list };
                assert(ids_of(adj.to@) =~= seq![to@]);
                edges.push(adj);
                proof {
                    assert forall|j: int| 0 <= j < s.len() implies s[j].0 != k by {
                        assert(s[j].0 == old(self).edges@[j].from@);
                    }
                    lemma_keyed_absent(s, k);
                    assert(edge_entries(edges@) =~= s.push((k, ids_of(adj.to@))));
                    lemma_keyed_push(s, (k, ids_of(adj.to@)));
                    assert forall|a: int, b: int|
                        0 <= a < b < edge_entries(edges@).len() implies edge_entries(
                        edges@,
                    )[a].0 != edge_entries(edges@)[b].0 by {
                        if b == s.len() {
                            assert(s[a].0 != k);
                        } else {
                            assert(s[a].0 != s[b].0);
                        }
                    }
                }
            },
        }
        self.edges = edges;
    }
}

} // verus!
