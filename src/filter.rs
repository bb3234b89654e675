use vstd::prelude::*;

use std::collections::VecDeque;

use crate::extract::{Edge, EdgeView};

verus! {

/// `b` descends from `a` in at most `n` steps along the edges of `g`, each
/// step going from a parent to one of its children.
pub open spec fn reach_in(g: Set<EdgeView>, a: Seq<char>, b: Seq<char>, n: nat) -> bool
    decreases n,
{
    if n == 0 {
        a == b
    } else {
        reach_in(g, a, b, (n - 1) as nat) || exists|e: EdgeView|
            #![trigger g.contains(e)]
            g.contains(e) && e.0 == b && reach_in(g, a, e.1, (n - 1) as nat)
    }
}

/// `b` is `a` or one of its transitive descendants in `g`.
pub open spec fn descends(g: Set<EdgeView>, a: Seq<char>, b: Seq<char>) -> bool {
    exists|n: nat| reach_in(g, a, b, n)
}

/// An edge is kept when its child or its parent descends from the anchor.
pub open spec fn keeps(g: Set<EdgeView>, anchor: Seq<char>, e: EdgeView) -> bool {
    descends(g, anchor, e.0) || descends(g, anchor, e.1)
}

/// The edges among the first `n` of `es` that `keeps` accepts, in order.
pub open spec fn kept(es: Seq<EdgeView>, g: Set<EdgeView>, anchor: Seq<char>, n: int) -> Seq<
    EdgeView,
>
    decreases n,
{
    if n <= 0 || n > es.len() {
        seq![]
    } else {
        kept(es, g, anchor, n - 1) + if keeps(g, anchor, es[n - 1]) {
            seq![es[n - 1]]
        } else {
            seq![]
        }
    }
}

/// The edges that the filter keeps: all of them without an anchor, else those
/// that touch the anchor or one of its descendants.
pub open spec fn filtered(es: Seq<EdgeView>, class: Option<Seq<char>>) -> Seq<EdgeView> {
    match class {
        None => es,
        Some(a) => kept(es, es.to_set(), a, es.len() as int),
    }
}

/// The names held by a queue of strings.
pub open spec fn names(q: Seq<String>) -> Seq<Seq<char>> {
    q.map_values(|s: String| s@)
}

/// Whether `v` holds a string equal to `s`.
pub fn contains_name(v: &Vec<String>, s: &String) -> (r: bool)
    ensures
        r == v.deep_view().contains(s@),
{
    let mut i: usize = 0;
    while i < v.len()
        invariant
            i <= v.len(),
            forall|j: int| 0 <= j < i ==> v.deep_view()[j] != s@,
        decreases v.len() - i,
    {
        if v[i] == *s {
            assert(v.deep_view()[i as int] == s@);
            return true;
        }
        i = i + 1;
    }
    false
}

/// One step down an edge keeps a name among the descendants.
proof fn lemma_step(g: Set<EdgeView>, a: Seq<char>, e: EdgeView)
    requires
        g.contains(e),
        descends(g, a, e.1),
    ensures
        descends(g, a, e.0),
{
    let n = choose|n: nat| reach_in(g, a, e.1, n);
    assert(reach_in(g, a, e.0, n + 1));
}

/// A set of names that holds `a` and the children of each of its names holds
/// every descendant of `a`.
proof fn lemma_closed_holds_descendants(
    g: Set<EdgeView>,
    a: Seq<char>,
    vs: Seq<Seq<char>>,
    x: Seq<char>,
    n: nat,
)
    requires
        vs.contains(a),
        forall|e: EdgeView| #[trigger] g.contains(e) && vs.contains(e.1) ==> vs.contains(e.0),
        reach_in(g, a, x, n),
    ensures
        vs.contains(x),
    decreases n,
{
    if n > 0 {
        if reach_in(g, a, x, (n - 1) as nat) {
            lemma_closed_holds_descendants(g, a, vs, x, (n - 1) as nat);
        } else {
            let e = choose|e: EdgeView|
                #![trigger g.contains(e)]
                g.contains(e) && e.0 == x && reach_in(g, a, e.1, (n - 1) as nat);
            lemma_closed_holds_descendants(g, a, vs, e.1, (n - 1) as nat);
        }
    }
}

/// The anchor and all of its descendants, found breadth first: a name is
/// marked when it leaves the queue, and the children of a newly marked name
/// that are not marked yet join the queue. The children of a name are found
/// by a pass over the edge list.
pub fn descendants(edges: &Vec<Edge>, anchor: &String) -> (r: Vec<String>)
    ensures
        forall|x: Seq<char>| r.deep_view().contains(x) <==> descends(edges.deep_view().to_set(), anchor@, x),
{
    let ghost es = edges.deep_view();
    let ghost g = es.to_set();
    let ghost a = anchor@;
    let ghost all = seq![a] + es.map_values(|e: EdgeView| e.0);
    let ghost universe = all.to_set();
    proof {
        assert(reach_in(g, a, a, 0));
        all.lemma_cardinality_of_set();
    }
    let mut visited: Vec<String> = Vec::new();
    let mut queue: VecDeque<String> = VecDeque::new();
    queue.push_back(anchor.clone());
    assert(names(queue@) =~= seq![a]);
    proof {
        assert(descends(g, a, a));
        assert(all[0] == a);
        assert(universe.contains(a));
        assert(names(queue@)[0] == a);
    }
    while queue.len() > 0
        invariant
            es == edges.deep_view(),
            g == es.to_set(),
            universe == all.to_set(),
            all == seq![a] + es.map_values(|e: EdgeView| e.0),
            universe.finite(),
            visited.deep_view().no_duplicates(),
            forall|x: Seq<char>| #[trigger] visited.deep_view().contains(x) ==> descends(g, a, x) && universe.contains(x),
            forall|x: Seq<char>| #[trigger] names(queue@).contains(x) ==> descends(g, a, x) && universe.contains(x),
            visited.deep_view().contains(a) || names(queue@).contains(a),
            forall|e: EdgeView|
                #[trigger] g.contains(e) && visited.deep_view().contains(e.1) ==> visited.deep_view().contains(e.0)
                    || names(queue@).contains(e.0),
        decreases universe.len() - visited.len(), queue.len(),
    {
        proof {
            visited.deep_view().unique_seq_to_set();
            vstd::set_lib::lemma_len_subset(visited.deep_view().to_set(), universe);
        }
        let ghost q0 = names(queue@);
        let ghost v0 = visited.deep_view();
        let cur = queue.pop_front().unwrap();
        proof {
            assert(q0[0] == cur@);
            assert(forall|x: Seq<char>| #[trigger] q0.contains(x) ==> x == cur@ || names(queue@).contains(x)) by {
                assert forall|x: Seq<char>| #[trigger] q0.contains(x) implies x == cur@ || names(queue@).contains(x) by {
                    let j = choose|j: int| 0 <= j < q0.len() && q0[j] == x;
                    if j > 0 {
                        assert(names(queue@)[j - 1] == x);
                    }
                }
            }
            assert(forall|x: Seq<char>| #[trigger] names(queue@).contains(x) ==> q0.contains(x)) by {
                assert forall|x: Seq<char>| #[trigger] names(queue@).contains(x) implies q0.contains(x) by {
                    let j = choose|j: int| 0 <= j < names(queue@).len() && names(queue@)[j] == x;
                    assert(q0[j + 1] == x);
                }
            }
        }
        if !contains_name(&visited, &cur) {
            visited.push(cur.clone());
            assert(visited.deep_view() =~= v0.push(cur@));
            proof {
                assert(q0.contains(cur@));
                assert(!v0.contains(cur@));
                assert forall|x: Seq<char>| #[trigger] visited.deep_view().contains(x) implies descends(g, a, x) && universe.contains(x) by {
                    let j = choose|j: int| 0 <= j < visited.deep_view().len() && visited.deep_view()[j] == x;
                    if j < v0.len() {
                        assert(v0[j] == x);
                        assert(v0.contains(x));
                    } else {
                        assert(x == cur@);
                        assert(q0.contains(x));
                    }
                }
                visited.deep_view().unique_seq_to_set();
                vstd::set_lib::lemma_len_subset(visited.deep_view().to_set(), universe);
            }
            let ghost q1 = names(queue@);
            let mut k: usize = 0;
            while k < edges.len()
                invariant
                    es == edges.deep_view(),
                    g == es.to_set(),
                    universe == all.to_set(),
                    all == seq![a] + es.map_values(|e: EdgeView| e.0),
                    k <= edges.len(),
                    visited.deep_view() == v0.push(cur@),
                    descends(g, a, cur@),
                    forall|x: Seq<char>| #[trigger] q1.contains(x) ==> names(queue@).contains(x),
                    forall|x: Seq<char>| #[trigger] names(queue@).contains(x) ==> descends(g, a, x) && universe.contains(x),
                    forall|j: int|
                        0 <= j < k && (#[trigger] es[j]).1 == cur@ ==> visited.deep_view().contains(es[j].0)
                            || names(queue@).contains(es[j].0),
                decreases edges.len() - k,
            {
                let ghost qk = names(queue@);
                if edges[k].1 == cur && !contains_name(&visited, &edges[k].0) {
                    proof {
                        assert(es[k as int] == (edges@[k as int].0@, edges@[k as int].1@));
                        assert(g.contains(es[k as int]));
                        lemma_step(g, a, es[k as int]);
                        assert(all[k + 1] == es[k as int].0);
                    }
                    queue.push_back(edges[k].0.clone());
                    assert(names(queue@) =~= qk.push(es[k as int].0));
                    assert(all.contains(es[k as int].0));
                    assert forall|x: Seq<char>| #[trigger] names(queue@).contains(x) implies descends(g, a, x) && universe.contains(x) by {
                        let j = choose|j: int| 0 <= j < names(queue@).len() && names(queue@)[j] == x;
                        if j < qk.len() {
                            assert(qk[j] == x);
                            assert(qk.contains(x));
                        } else {
                            assert(x == es[k as int].0);
                        }
                    }
                    assert(forall|x: Seq<char>| #[trigger] qk.contains(x) ==> names(queue@).contains(x)) by {
                        assert forall|x: Seq<char>| #[trigger] qk.contains(x) implies names(queue@).contains(x) by {
                            let j = choose|j: int| 0 <= j < qk.len() && qk[j] == x;
                            assert(names(queue@)[j] == x);
                        }
                    }
                    assert(names(queue@)[qk.len() as int] == es[k as int].0);
                }
                k = k + 1;
            }
            proof {
                assert forall|e: EdgeView|
                    #[trigger] g.contains(e) && visited.deep_view().contains(e.1) implies visited.deep_view().contains(e.0)
                        || names(queue@).contains(e.0) by {
                    assert(es.contains(e));
                    if e.1 == cur@ {
                        let j = choose|j: int| 0 <= j < es.len() && es[j] == e;
                        assert(es[j].1 == cur@);
                    } else {
                        let j = choose|j: int| 0 <= j < visited.deep_view().len() && visited.deep_view()[j] == e.1;
                        assert(v0[j] == e.1);
                        assert(v0.contains(e.1));
                        if v0.contains(e.0) {
                            let i = choose|i: int| 0 <= i < v0.len() && v0[i] == e.0;
                            assert(visited.deep_view()[i] == e.0);
                        } else {
                            assert(q0.contains(e.0));
                            if e.0 == cur@ {
                                assert(visited.deep_view()[v0.len() as int] == e.0);
                            } else {
                                assert(q1.contains(e.0));
                            }
                        }
                    }
                }
                assert(visited.deep_view()[v0.len() as int] == cur@);
                if v0.contains(a) {
                    let i = choose|i: int| 0 <= i < v0.len() && v0[i] == a;
                    assert(visited.deep_view()[i] == a);
                } else if a != cur@ {
                    assert(q0.contains(a));
                    assert(q1.contains(a));
                }
            }
        } else {
            proof {
                assert forall|e: EdgeView|
                    #[trigger] g.contains(e) && visited.deep_view().contains(e.1) implies visited.deep_view().contains(e.0)
                        || names(queue@).contains(e.0) by {
                    if !v0.contains(e.0) {
                        assert(q0.contains(e.0));
                    }
                }
                if !v0.contains(a) {
                    assert(q0.contains(a));
                }
            }
        }
    }
    proof {
        assert(names(queue@) =~= seq![]);
        assert forall|x: Seq<char>| descends(g, a, x) implies #[trigger] visited.deep_view().contains(x) by {
            let n = choose|n: nat| reach_in(g, a, x, n);
            lemma_closed_holds_descendants(g, a, visited.deep_view(), x, n);
        }
    }
    visited
}

/// Restricts `edges` to the neighbourhood of `class`: the edges whose child or
/// parent is the anchor or one of its descendants. Without an anchor the edges
/// are returned as they are.
pub fn filter_edges_by_class(edges: Vec<Edge>, class: Option<String>) -> (r: Vec<Edge>)
    ensures
        r.deep_view() == filtered(edges.deep_view(), class.deep_view()),
{
    match class {
        None => edges,
        Some(anchor) => {
            let ghost es = edges.deep_view();
            let ghost g = es.to_set();
            let visited = descendants(&edges, &anchor);
            let mut r: Vec<Edge> = Vec::new();
            let mut k: usize = 0;
            while k < edges.len()
                invariant
                    es == edges.deep_view(),
                    g == es.to_set(),
                    k <= edges.len(),
                    forall|x: Seq<char>| visited.deep_view().contains(x) <==> descends(g, anchor@, x),
                    r.deep_view() == kept(es, g, anchor@, k as int),
                decreases edges.len() - k,
            {
                let ghost r0 = r.deep_view();
                assert(es[k as int] == (edges@[k as int].0@, edges@[k as int].1@));
                if contains_name(&visited, &edges[k].0) || contains_name(&visited, &edges[k].1) {
                    r.push((edges[k].0.clone(), edges[k].1.clone()));
                    assert(r.deep_view() =~= r0 + seq![es[k as int]]);
                } else {
                    assert(r0 =~= r0 + Seq::<EdgeView>::empty());
                }
                k = k + 1;
            }
            r
        },
    }
}

} // verus!
