use vstd::prelude::*;
use vstd::set_lib::*;
use vstd::string::*;

use crate::graph::{ids_of, Graph, GraphView};
use crate::score::{combined_of, Node};
use crate::text::same_text;
use crate::version::{newer_triple, triple_greater};

verus! {

/// Scores closer than this (one millionth of `SCALE`) count as a tie.
pub const TIE_TOLERANCE: u128 = 1_000_000_000_000;

/// Whether a candidate displaces the child held so far: a strictly higher
/// score, or a tie with a greater version triple.
pub open spec fn displaces(candidate: Node, held: Node) -> bool {
    let sc = combined_of(candidate);
    let bsc = combined_of(held);
    sc > bsc || (bsc - sc < TIE_TOLERANCE && triple_greater(candidate.version, held.version))
}

/// The child picked from `kids`, taken in order: ids that name no node are
/// skipped, and each remaining one replaces the held choice where it
/// displaces it.
pub open spec fn best_among(nodes: Map<Seq<char>, Node>, kids: Seq<Seq<char>>) -> Option<
    Seq<char>,
>
    decreases kids.len(),
{
    if kids.len() == 0 {
        None
    } else {
        let held = best_among(nodes, kids.drop_last());
        let c = kids.last();
        if !nodes.contains_key(c) {
            held
        } else {
            match held {
                None => Some(c),
                Some(b) => if displaces(nodes[c], nodes[b]) {
                    Some(c)
                } else {
                    held
                },
            }
        }
    }
}

/// The node the resolver moves to from `cur`; `None` where `cur` has no
/// child list or none of its children names a node.
pub open spec fn next_hop(g: GraphView, cur: Seq<char>) -> Option<Seq<char>> {
    if g.edges.contains_key(cur) {
        best_among(g.nodes, g.edges[cur])
    } else {
        None
    }
}

/// `p` begins at `start`, follows `next_hop` at every step and never repeats an id.
pub open spec fn is_walk(g: GraphView, start: Seq<char>, p: Seq<Seq<char>>) -> bool {
    &&& p.len() >= 1
    &&& p[0] == start
    &&& forall|i: int| 0 <= i < p.len() - 1 ==> next_hop(g, #[trigger] p[i]) == Some(p[i + 1])
    &&& p.no_duplicates()
}

/// `p` is the resolution path from `start`: a walk that stops where there is
/// no next hop, or where the next hop is already on the path.
pub open spec fn is_resolution(g: GraphView, start: Seq<char>, p: Seq<Seq<char>>) -> bool {
    &&& is_walk(g, start, p)
    &&& match next_hop(g, p.last()) {
        None => true,
        Some(n) => p.contains(n),
    }
}

proof fn lemma_best_is_node(nodes: Map<Seq<char>, Node>, kids: Seq<Seq<char>>)
    ensures
        best_among(nodes, kids) matches Some(b) ==> nodes.contains_key(b),
    decreases kids.len(),
{
    if kids.len() > 0 {
        lemma_best_is_node(nodes, kids.drop_last());
    }
}

proof fn lemma_walk_bound(p: Seq<Seq<char>>, dom: Set<Seq<char>>)
    requires
        p.len() >= 1,
        p.no_duplicates(),
        dom.finite(),
        forall|i: int| 1 <= i < p.len() ==> dom.contains(#[trigger] p[i]),
    ensures
        p.len() <= dom.len() + 1,
{
    let rest = p.drop_first();
    assert(rest.no_duplicates()) by {
        assert forall|a: int, b: int| 0 <= a < rest.len() && 0 <= b < rest.len() && a != b implies rest[a]
            != rest[b] by {
            assert(rest[a] == p[a + 1] && rest[b] == p[b + 1]);
        }
    }
    rest.unique_seq_to_set();
    assert(rest.to_set().subset_of(dom)) by {
        assert forall|x: Seq<char>| rest.to_set().contains(x) implies dom.contains(x) by {
            let i = choose|i: int| 0 <= i < rest.len() && rest[i] == x;
            assert(p[i + 1] == x);
        }
    }
    lemma_len_subset(rest.to_set(), dom);
}

/// Whether `id` is one of the ids in `list`.
fn holds_id(list: &Vec<String>, id: &str) -> (r: bool)
    ensures
        r == ids_of(list@).contains(id@),
{
    let mut i: usize = 0;
    while i < list.len()
        invariant
            i <= list@.len(),
            forall|j: int| 0 <= j < i ==> list@[j]@ != id@,
        decreases list@.len() - i,
    {
        if same_text(list[i].as_str(), id) {
            assert(ids_of(list@)[i as int] == id@);
            return true;
        }
        i = i + 1;
    }
    assert forall|j: int| 0 <= j < ids_of(list@).len() implies ids_of(list@)[j] != id@ by {
        assert(ids_of(list@)[j] == list@[j]@);
    }
    false
}

impl Graph {
    /// The child that resolution moves to from `cur`, if any.
    fn best_child(&self, cur: &str) -> (r: Option<String>)
        ensures
            match r {
                Some(s) => next_hop(self@, cur@) == Some(s@),
                None => next_hop(self@, cur@) is None,
            },
    {
        let kids = match self.children(cur) {
            None => {
                return None;
            },
            Some(kids) => kids,
        };
        let ghost ks = ids_of(kids@);
        let ghost nodes = self@.nodes;
        let mut best: Option<(usize, &Node, u128)> = None;
        let mut i: usize = 0;
        while i < kids.len()
            invariant
                i <= kids@.len(),
                ks == ids_of(kids@),
                nodes == self@.nodes,
                ks == self@.edges[cur@],
                match best {
                    None => best_among(nodes, ks.subrange(0, i as int)) is None,
                    Some((j, held, sc)) => {
                        &&& j < i
                        &&& best_among(nodes, ks.subrange(0, i as int)) == Some(ks[j as int])
                        &&& nodes.contains_key(ks[j as int])
                        &&& *held == nodes[ks[j as int]]
                        &&& sc == combined_of(*held)
                    },
                },
            decreases kids@.len() - i,
        {
            let ghost prev = ks.subrange(0, i as int);
            assert(ks.subrange(0, i + 1).drop_last() =~= prev);
            assert(ks.subrange(0, i + 1).last() == ks[i as int]);
            assert(ks[i as int] == kids@[i as int]@);
            match self.node(kids[i].as_str()) {
                None => {},
                Some(node) => {
                    let sc = node.combined_score();
                    match best {
                        None => {
                            best = Some((i, node, sc));
                        },
                        Some((j, held, bsc)) => {
                            if sc > bsc {
                                best = Some((i, node, sc));
                            } else if bsc - sc < TIE_TOLERANCE && newer_triple(
                                &node.version,
                                &held.version,
                            ) {
                                best = Some((i, node, sc));
                            }
                        },
                    }
                },
            }
            i = i + 1;
        }
        assert(ks.subrange(0, kids@.len() as int) =~= ks);
        match best {
            None => None,
            Some((j, _, _)) => {
                let id = kids[j].clone();
                assert(id@ == ks[j as int]);
                Some(id)
            },
        }
    }

    /// The resolution path from `start`: from the start id, repeatedly move
    /// to the best-scoring child that names a node, until a node has no such
    /// child or the chosen child is already on the path.
    ///
    /// Among a node's children the first with the highest score wins; a later
    /// child within `TIE_TOLERANCE` of the held one wins where its version
    /// triple is greater. The start id need not name a node.
    pub fn resolve_best_path(&self, start: &str) -> (path: Vec<String>)
        ensures
            is_resolution(self@, start@, ids_of(path@)),
    {
        proof {
            self.lemma_nodes_finite();
        }
        let ghost dom = self@.nodes.dom();
        let mut path: Vec<String> = Vec::new();
        path.push(String::from_str(start));
        let mut cur = String::from_str(start);
        assert(ids_of(path@) =~= seq![start@]);
        loop
            invariant
                dom == self@.nodes.dom(),
                dom.finite(),
                is_walk(self@, start@, ids_of(path@)),
                cur@ == ids_of(path@).last(),
                forall|i: int| 1 <= i < path@.len() ==> dom.contains(#[trigger] ids_of(path@)[i]),
                path@.len() <= dom.len() + 1,
            decreases dom.len() + 1 - path@.len(),
        {
            let next = match self.best_child(cur.as_str()) {
                None => {
                    return path;
                },
                Some(next) => next,
            };
            if holds_id(&path, next.as_str()) {
                return path;
            }
            proof {
                lemma_best_is_node(self@.nodes, self@.edges[cur@]);
            }
            let ghost before = ids_of(path@);
            path.push(next.clone());
            let ghost after = ids_of(path@);
            assert(after =~= before.push(next@));
            proof {
                assert(after.no_duplicates()) by {
                    assert forall|a: int, b: int|
                        0 <= a < after.len() && 0 <= b < after.len() && a != b implies after[a]
                        != after[b] by {
                        if a < before.len() && b < before.len() {
                            assert(before[a] != before[b]);
                        } else if a < before.len() {
                            assert(before.contains(before[a]));
                        } else {
                            assert(before.contains(before[b]));
                        }
                    }
                }
                assert forall|i: int| 0 <= i < after.len() - 1 implies next_hop(
                    self@,
                    #[trigger] after[i],
                ) == Some(after[i + 1]) by {
                    if i < before.len() - 1 {
                        assert(next_hop(self@, before[i]) == Some(before[i + 1]));
                    }
                }
                lemma_walk_bound(after, dom);
            }
            cur = next;
        }
    }
}

/// Resolution is deterministic: from one start in one graph there is exactly
/// one resolution path, so resolving twice gives the same path.
pub proof fn lemma_resolution_unique(
    g: GraphView,
    start: Seq<char>,
    p: Seq<Seq<char>>,
    q: Seq<Seq<char>>,
)
    requires
        is_resolution(g, start, p),
        is_resolution(g, start, q),
    ensures
        p == q,
{
    assert forall|i: int| 0 <= i < p.len() && i < q.len() implies p[i] == q[i] by {
        lemma_walks_agree(g, start, p, q, i);
    }
    if p.len() < q.len() {
        lemma_walk_within(g, start, p, q);
    } else if q.len() < p.len() {
        lemma_walk_within(g, start, q, p);
    }
    assert(p =~= q);
}

proof fn lemma_walks_agree(g: GraphView, start: Seq<char>, p: Seq<Seq<char>>, q: Seq<Seq<char>>, i: int)
    requires
        is_walk(g, start, p),
        is_walk(g, start, q),
        0 <= i < p.len(),
        i < q.len(),
    ensures
        p[i] == q[i],
    decreases i,
{
    if i > 0 {
        lemma_walks_agree(g, start, p, q, i - 1);
        assert(next_hop(g, p[i - 1]) == Some(p[i]));
        assert(next_hop(g, q[i - 1]) == Some(q[i]));
    }
}

/// A walk that agrees with a resolution path is no longer than it.
proof fn lemma_walk_within(g: GraphView, start: Seq<char>, p: Seq<Seq<char>>, q: Seq<Seq<char>>)
    requires
        is_resolution(g, start, p),
        is_walk(g, start, q),
        forall|i: int| 0 <= i < p.len() && i < q.len() ==> p[i] == q[i],
    ensures
        q.len() <= p.len(),
{
    if p.len() >= q.len() {
        return;
    }
    let m = p.len() - 1;
    assert(next_hop(g, q[m]) == Some(q[m + 1]));
    assert(p.last() == q[m]);
    let j = choose|j: int| 0 <= j < p.len() && p[j] == q[m + 1];
    assert(q[j] == q[m + 1]);
}

proof fn lemma_single_child(nodes: Map<Seq<char>, Node>, c: Seq<char>)
    ensures
        best_among(nodes, seq![c]) == (if nodes.contains_key(c) {
            Some(c)
        } else {
            None::<Seq<char>>
        }),
{
    assert(seq![c].drop_last() =~= Seq::<Seq<char>>::empty());
    assert(best_among(nodes, Seq::<Seq<char>>::empty()) is None);
}

/// A node whose only child is itself ends the path: a self-loop is never
/// followed around.
pub proof fn lemma_self_loop_ends_path(g: GraphView, start: Seq<char>, p: Seq<Seq<char>>, i: int)
    requires
        is_resolution(g, start, p),
        0 <= i < p.len(),
        g.edges.contains_key(p[i]),
        g.edges[p[i]] == seq![p[i]],
    ensures
        i == p.len() - 1,
{
    lemma_single_child(g.nodes, p[i]);
    if i < p.len() - 1 {
        assert(next_hop(g, p[i]) == Some(p[i + 1]));
    }
}

/// A node whose only child names no node is a leaf: the path ends there.
pub proof fn lemma_dangling_child_ends_path(
    g: GraphView,
    start: Seq<char>,
    p: Seq<Seq<char>>,
    i: int,
    child: Seq<char>,
)
    requires
        is_resolution(g, start, p),
        0 <= i < p.len(),
        g.edges.contains_key(p[i]),
        g.edges[p[i]] == seq![child],
        !g.nodes.contains_key(child),
    ensures
        i == p.len() - 1,
{
    lemma_single_child(g.nodes, child);
    if i < p.len() - 1 {
        assert(next_hop(g, p[i]) == Some(p[i + 1]));
    }
}

} // verus!
