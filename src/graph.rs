use vstd::prelude::*;

use petgraph::graphmap::{DiGraphMap, GraphMap};

use crate::extract::{Edge, EdgeView};

verus! {

#[verifier::external_type_specification]
#[verifier::external_body]
#[verifier::reject_recursive_types(N)]
#[verifier::reject_recursive_types(E)]
#[verifier::reject_recursive_types(Ty)]
#[verifier::reject_recursive_types(S)]
pub struct ExGraphMap<N, E, Ty, S>(GraphMap<N, E, Ty, S>) where S: std::hash::BuildHasher;

#[verifier::external_type_specification]
#[verifier::external_body]
pub struct ExDirected(petgraph::Directed);

/// The nodes of a graph.
pub uninterp spec fn graph_nodes(g: DiGraphMap<usize, i32>) -> Set<usize>;

/// The edges of a graph, from source and target to weight.
pub uninterp spec fn graph_edges(g: DiGraphMap<usize, i32>) -> Map<(usize, usize), i32>;

/// Relies on `GraphMap::new`: a graph with no nodes and no edges.
#[verifier::external_body]
fn new_graph() -> (r: DiGraphMap<usize, i32>)
    ensures
        graph_nodes(r) =~= Set::empty(),
        graph_edges(r) =~= Map::empty(),
{
    DiGraphMap::new()
}

/// Relies on `GraphMap::add_edge`: adds the nodes `a` and `b` where they are
/// missing, and sets the weight of the edge from `a` to `b`.
#[verifier::external_body]
fn graph_add_edge(g: &mut DiGraphMap<usize, i32>, a: usize, b: usize, w: i32)
    ensures
        graph_nodes(*final(g)) == graph_nodes(*old(g)).insert(a).insert(b),
        graph_edges(*final(g)) == graph_edges(*old(g)).insert((a, b), w),
{
    g.add_edge(a, b, w);
}

/// The weight that every edge of a class graph carries.
pub const EDGE_WEIGHT: i32 = -1;

/// A directed graph of classes: node `i` stands for the class `names[i]`, and
/// an edge goes from each parent to each of its children.
pub struct ClassGraph {
    pub names: Vec<String>,
    pub graph: DiGraphMap<usize, i32>,
}

impl ClassGraph {
    /// Each name stands once; the nodes are the indices of the names; each
    /// edge joins two of them and carries the placeholder weight.
    pub open spec fn wf(&self) -> bool {
        &&& self.names.deep_view().no_duplicates()
        &&& graph_nodes(self.graph) == Set::new(|i: usize| i < self.names.len())
        &&& forall|pc: (usize, usize)| #[trigger]
            graph_edges(self.graph).contains_key(pc) ==> pc.0 < self.names.len() && pc.1
                < self.names.len() && graph_edges(self.graph)[pc] == EDGE_WEIGHT
    }

    /// Whether a class of that name is a node.
    pub open spec fn has_node(&self, name: Seq<char>) -> bool {
        self.names.deep_view().contains(name)
    }

    /// Whether an edge goes from the class `parent` to the class `child`.
    pub open spec fn has_link(&self, parent: Seq<char>, child: Seq<char>) -> bool {
        linked(self.names@, self.graph, parent, child)
    }
}

/// Whether `g` has an edge from the node named `parent` to the node named
/// `child`, nodes being named by their index in `names`.
pub open spec fn linked(
    names: Seq<String>,
    g: DiGraphMap<usize, i32>,
    parent: Seq<char>,
    child: Seq<char>,
) -> bool {
    exists|p: usize, c: usize|
        #![trigger graph_edges(g).contains_key((p, c))]
        p < names.len() && c < names.len() && names[p as int]@ == parent && names[c as int]@ == child
            && graph_edges(g).contains_key((p, c))
}

/// The position of a string equal to `s` in `names`, if there is one.
fn index_of(names: &Vec<String>, s: &String) -> (r: Option<usize>)
    ensures
        match r {
            Some(i) => i < names.len() && names@[i as int]@ == s@,
            None => !names.deep_view().contains(s@),
        },
{
    let mut i: usize = 0;
    while i < names.len()
        invariant
            i <= names.len(),
            forall|j: int| 0 <= j < i ==> names.deep_view()[j] != s@,
        decreases names.len() - i,
    {
        if names[i] == *s {
            return Some(i);
        }
        i = i + 1;
    }
    None
}

/// The node of the class `s`, added at the end of `names` when it is new.
fn intern(names: &mut Vec<String>, s: &String) -> (r: usize)
    requires
        old(names).deep_view().no_duplicates(),
    ensures
        final(names).deep_view().no_duplicates(),
        r < final(names).len(),
        final(names)@[r as int]@ == s@,
        old(names).deep_view().contains(s@) ==> final(names)@ == old(names)@,
        !old(names).deep_view().contains(s@) ==> final(names).len() == old(names).len() + 1
            && r == old(names).len() && final(names)@.take(r as int) == old(names)@,
        final(names).deep_view() == if old(names).deep_view().contains(s@) {
            old(names).deep_view()
        } else {
            old(names).deep_view().push(s@)
        },
{
    match index_of(names, s) {
        Some(i) => {
            proof {
                assert(names.deep_view()[i as int] == s@);
            }
            i
        },
        None => {
            let ghost n0 = names.deep_view();
            names.push(s.clone());
            assert(names.deep_view() =~= n0.push(s@));
            names.len() - 1
        },
    }
}

/// Builds the class graph of a list of `(child, parent)` edges: one node per
/// distinct name, and an edge from each parent to its child.
pub fn build_class_graph(edges: &Vec<Edge>) -> (r: ClassGraph)
    ensures
        r.wf(),
        forall|parent: Seq<char>, child: Seq<char>|
            r.has_link(parent, child) <==> edges.deep_view().contains((child, parent)),
        forall|x: Seq<char>|
            r.has_node(x) <==> exists|k: int|
                0 <= k < edges.len() && ((#[trigger] edges.deep_view()[k]).0 == x || edges.deep_view()[k].1 == x),
{
    let ghost es = edges.deep_view();
    let mut names: Vec<String> = Vec::new();
    let mut graph = new_graph();
    let mut k: usize = 0;
    assert(graph_nodes(graph) =~= Set::new(|i: usize| i < names.len()));
    while k < edges.len()
        invariant
            k <= edges.len(),
            es == edges.deep_view(),
            (ClassGraph { names, graph }).wf(),
            forall|pc: (usize, usize)| #[trigger]
                graph_edges(graph).contains_key(pc) ==> exists|j: int|
                    0 <= j < k && names@[pc.0 as int]@ == (#[trigger] es[j]).1 && names@[pc.1 as int]@
                        == es[j].0,
            forall|j: int| 0 <= j < k ==> linked(names@, graph, (#[trigger] es[j]).1, es[j].0),
            forall|x: Seq<char>|
                names.deep_view().contains(x) <==> exists|j: int|
                    0 <= j < k && ((#[trigger] es[j]).0 == x || es[j].1 == x),
        decreases edges.len() - k,
    {
        let ghost n0 = names@;
        let ghost g0 = graph;
        let ghost nd0 = names.deep_view();
        assert(es[k as int] == (edges@[k as int].0@, edges@[k as int].1@));
        let p = intern(&mut names, &edges[k].1);
        let ghost nd1 = names.deep_view();
        let c = intern(&mut names, &edges[k].0);
        proof {
            broadcast use vstd::seq_lib::lemma_seq_contains_after_push;

            assert forall|x: Seq<char>| #[trigger] names.deep_view().contains(x) <==> nd0.contains(x)
                || x == es[k as int].1 || x == es[k as int].0 by {
                assert(nd1.contains(x) <==> nd0.contains(x) || x == es[k as int].1);
            }
        }
        let ghost n1 = names@;
        graph_add_edge(&mut graph, p, c, EDGE_WEIGHT);
        proof {
            assert(forall|i: int| 0 <= i < n0.len() ==> n1[i] == n0[i]);
            assert(n1.len() <= n0.len() + 2);
            assert(graph_nodes(graph) =~= Set::new(|i: usize| i < names.len())) by {
                assert forall|i: usize| graph_nodes(graph).contains(i) implies i < names.len() by {}
                assert forall|i: usize| i < names.len() implies graph_nodes(graph).contains(i) by {
                    if i >= n0.len() {
                        assert(i == p || i == c);
                    }
                }
            }
            assert forall|pc: (usize, usize)| #[trigger]
                graph_edges(graph).contains_key(pc) implies exists|j: int|
                    0 <= j < k + 1 && names@[pc.0 as int]@ == (#[trigger] es[j]).1 && names@[pc.1 as int]@
                        == es[j].0 by {
                if pc != (p, c) {
                    assert(graph_edges(g0).contains_key(pc));
                    let j = choose|j: int|
                        0 <= j < k && n0[pc.0 as int]@ == (#[trigger] es[j]).1 && n0[pc.1 as int]@
                            == es[j].0;
                    assert(names@[pc.0 as int]@ == es[j].1);
                } else {
                    assert(names@[pc.0 as int]@ == es[k as int].1);
                }
            }
            assert forall|j: int| 0 <= j < k + 1 implies linked(names@, graph, (#[trigger] es[j]).1, es[j].0) by {
                if j < k {
                    assert(linked(n0, g0, es[j].1, es[j].0));
                    let (p1, c1) = choose|p1: usize, c1: usize|
                        #![trigger graph_edges(g0).contains_key((p1, c1))]
                        p1 < n0.len() && c1 < n0.len() && n0[p1 as int]@ == es[j].1 && n0[c1 as int]@ == es[j].0
                            && graph_edges(g0).contains_key((p1, c1));
                    assert(graph_edges(graph).contains_key((p1, c1)));
                } else {
                    assert(graph_edges(graph).contains_key((p, c)));
                }
            }
            assert forall|x: Seq<char>|
                names.deep_view().contains(x) <==> exists|j: int|
                    0 <= j < k + 1 && ((#[trigger] es[j]).0 == x || es[j].1 == x) by {
                if names.deep_view().contains(x) && !nd0.contains(x) {
                    assert(x == es[k as int].0 || x == es[k as int].1);
                }
                if nd0.contains(x) {
                    let j = choose|j: int| 0 <= j < k && ((#[trigger] es[j]).0 == x || es[j].1 == x);
                    assert(0 <= j < k + 1);
                }
                if exists|j: int| 0 <= j < k + 1 && ((#[trigger] es[j]).0 == x || es[j].1 == x) {
                    let j = choose|j: int| 0 <= j < k + 1 && ((#[trigger] es[j]).0 == x || es[j].1 == x);
                    if j < k {
                        assert(nd0.contains(x));
                    } else {
                        assert(names.deep_view()[p as int] == es[k as int].1);
                        assert(names.deep_view()[c as int] == es[k as int].0);
                    }
                }
            }
        }
        k = k + 1;
    }
    let r = ClassGraph { names, graph };
    proof {
        assert forall|parent: Seq<char>, child: Seq<char>|
            r.has_link(parent, child) implies edges.deep_view().contains((child, parent)) by {
            let (p1, c1) = choose|p1: usize, c1: usize|
                #![trigger graph_edges(r.graph).contains_key((p1, c1))]
                p1 < r.names.len() && c1 < r.names.len() && r.names@[p1 as int]@ == parent
                    && r.names@[c1 as int]@ == child && graph_edges(r.graph).contains_key((p1, c1));
            let j = choose|j: int|
                0 <= j < k && r.names@[p1 as int]@ == (#[trigger] es[j]).1 && r.names@[c1 as int]@ == es[j].0;
            assert(es[j] == (child, parent));
        }
        assert forall|parent: Seq<char>, child: Seq<char>|
            edges.deep_view().contains((child, parent)) implies r.has_link(parent, child) by {
            let j = choose|j: int| 0 <= j < es.len() && es[j] == (child, parent);
            assert(linked(r.names@, r.graph, es[j].1, es[j].0));
        }
    }
    r
}

} // verus!
