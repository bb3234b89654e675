use vstd::multiset::Multiset;
use vstd::prelude::*;

use crate::extract::{build_edges, child_decls, edges_of, get_child_classes, Edge, EdgeView};
use crate::filter::{descends, filter_edges_by_class, filtered, keeps, kept, reach_in};
use crate::scan::{get_pascal_case, headers_of};
use crate::text::{tokenize, tokens_of};

verus! {

/// The edges declared in one source text.
pub open spec fn file_edges(text: Seq<char>) -> Seq<EdgeView> {
    edges_of(child_decls(headers_of(tokens_of(text))))
}

/// The lists of `ls` one after the other.
pub open spec fn concat_all(ls: Seq<Seq<EdgeView>>) -> Seq<EdgeView>
    decreases ls.len(),
{
    if ls.len() == 0 {
        seq![]
    } else {
        concat_all(ls.drop_last()) + ls.last()
    }
}

/// The edges of several texts, merged in the given order, then filtered.
pub open spec fn merged(texts: Seq<Seq<char>>, class: Option<Seq<char>>) -> Seq<EdgeView> {
    filtered(concat_all(texts.map_values(|t: Seq<char>| file_edges(t))), class)
}

/// The inheritance edges declared in one source text, as `(child, parent)`.
pub fn parse_file(contents: String) -> (r: Vec<Edge>)
    ensures
        r.deep_view() == file_edges(contents@),
{
    let tokens = tokenize(contents);
    let classes = get_pascal_case(&tokens);
    let child_classes = get_child_classes(classes);
    build_edges(child_classes)
}

/// Merges the edge lists of several files, in the order given, and restricts
/// the result to the neighbourhood of `class` when there is one.
pub fn merge_file_edges(per_file: Vec<Vec<Edge>>, class: Option<String>) -> (r: Vec<Edge>)
    ensures
        r.deep_view() == filtered(concat_all(per_file.deep_view()), class.deep_view()),
{
    let ghost ls = per_file.deep_view();
    let mut all: Vec<Edge> = Vec::new();
    let mut i: usize = 0;
    while i < per_file.len()
        invariant
            i <= per_file.len(),
            ls == per_file.deep_view(),
            all.deep_view() == concat_all(ls.take(i as int)),
        decreases per_file.len() - i,
    {
        let list = &per_file[i];
        let ghost a0 = all.deep_view();
        let mut j: usize = 0;
        while j < list.len()
            invariant
                i < per_file.len(),
                ls == per_file.deep_view(),
                list == per_file@[i as int],
                j <= list.len(),
                all.deep_view() == a0 + list.deep_view().take(j as int),
            decreases list.len() - j,
        {
            assert(list.deep_view()[j as int] == (list@[j as int].0@, list@[j as int].1@));
            let ghost all0 = all.deep_view();
            all.push((list[j].0.clone(), list[j].1.clone()));
            assert(all.deep_view() =~= all0.push(list.deep_view()[j as int]));
            assert(list.deep_view().take(j + 1) =~= list.deep_view().take(j as int).push(
                list.deep_view()[j as int],
            ));
            assert(all.deep_view() =~= a0 + list.deep_view().take(j + 1));
            j = j + 1;
        }
        assert(ls.take(i + 1).drop_last() =~= ls.take(i as int));
        assert(list.deep_view().take(j as int) =~= ls[i as int]);
        i = i + 1;
    }
    assert(ls.take(i as int) =~= ls);
    filter_edges_by_class(all, class)
}

/// What the filter keeps of the first `n` edges, as membership.
pub proof fn lemma_kept_contains(es: Seq<EdgeView>, g: Set<EdgeView>, a: Seq<char>, n: int, e: EdgeView)
    requires
        0 <= n <= es.len(),
    ensures
        kept(es, g, a, n).contains(e) <==> es.take(n).contains(e) && keeps(g, a, e),
    decreases n,
{
    if n > 0 {
        lemma_kept_contains(es, g, a, n - 1, e);
        let p = kept(es, g, a, n - 1);
        let tail: Seq<EdgeView> = if keeps(g, a, es[n - 1]) { seq![es[n - 1]] } else { seq![] };
        assert(kept(es, g, a, n) == p + tail);
        assert(es.take(n) =~= es.take(n - 1).push(es[n - 1]));
        if (p + tail).contains(e) {
            let k = choose|k: int| 0 <= k < (p + tail).len() && (p + tail)[k] == e;
            if k < p.len() {
                assert(p[k] == e);
                assert(p.contains(e));
                let t = es.take(n - 1);
                assert(t.contains(e));
                let m = choose|m: int| 0 <= m < t.len() && t[m] == e;
                assert(es.take(n)[m] == e);
            } else {
                assert(tail[k - p.len()] == e);
                assert(e == es[n - 1]);
                assert(es.take(n)[n - 1] == e);
            }
            assert(es.take(n).contains(e));
        }
        if es.take(n).contains(e) && keeps(g, a, e) {
            let k = choose|k: int| 0 <= k < es.take(n).len() && es.take(n)[k] == e;
            if k < n - 1 {
                assert(es.take(n - 1)[k] == e);
                assert(es.take(n - 1).contains(e));
                assert(p.contains(e));
                let j = choose|j: int| 0 <= j < p.len() && p[j] == e;
                assert((p + tail)[j] == e);
            } else {
                assert(e == es[n - 1]);
                assert((p + tail)[p.len() as int] == e);
            }
            assert((p + tail).contains(e));
        }
    }
}

/// Taking one list out of a concatenation takes its edges out of the whole.
pub proof fn lemma_concat_remove(ls: Seq<Seq<EdgeView>>, j: int)
    requires
        0 <= j < ls.len(),
    ensures
        concat_all(ls).to_multiset() == concat_all(ls.remove(j)).to_multiset().add(
            ls[j].to_multiset(),
        ),
    decreases ls.len(),
{
    broadcast use vstd::seq_lib::lemma_multiset_commutative, vstd::multiset::group_multiset_axioms;

    let init = ls.drop_last();
    if j == ls.len() - 1 {
        assert(ls.remove(j) =~= init);
        assert(concat_all(ls).to_multiset() =~= concat_all(ls.remove(j)).to_multiset().add(
            ls[j].to_multiset(),
        ));
    } else {
        lemma_concat_remove(init, j);
        assert(ls.remove(j).drop_last() =~= init.remove(j));
        assert(ls.remove(j).last() == ls.last());
        assert(init[j] == ls[j]);
        assert(concat_all(ls).to_multiset() =~= concat_all(ls.remove(j)).to_multiset().add(
            ls[j].to_multiset(),
        ));
    }
}

/// The edges of texts merged in any order, counted with repetition, are the
/// same.
pub proof fn lemma_concat_permuted(texts: Seq<Seq<char>>, done: Seq<Seq<char>>)
    requires
        done.to_multiset() == texts.to_multiset(),
    ensures
        concat_all(done.map_values(|t: Seq<char>| file_edges(t))).to_multiset() == concat_all(
            texts.map_values(|t: Seq<char>| file_edges(t)),
        ).to_multiset(),
    decreases done.len(),
{
    broadcast use vstd::seq_lib::group_to_multiset_ensures, vstd::seq_lib::lemma_multiset_commutative, vstd::multiset::group_multiset_axioms;

    let f = |t: Seq<char>| file_edges(t);
    done.to_multiset_ensures();
    texts.to_multiset_ensures();
    if done.len() == 0 {
        assert(texts.len() == 0);
        assert(done.map_values(f) =~= texts.map_values(f));
    } else {
        let x = done.last();
        let rest = done.drop_last();
        assert(rest.push(x) =~= done);
        assert(done.contains(x));
        assert(done.to_multiset().count(x) > 0);
        assert(texts.contains(x));
        let j = choose|j: int| 0 <= j < texts.len() && texts[j] == x;
        assert(rest.to_multiset() =~= done.to_multiset().remove(x));
        assert(texts.remove(j).to_multiset() =~= texts.to_multiset().remove(x));
        lemma_concat_permuted(texts.remove(j), rest);
        lemma_concat_remove(texts.map_values(f), j);
        assert(texts.map_values(f).remove(j) =~= texts.remove(j).map_values(f));
        assert(done.map_values(f).drop_last() =~= rest.map_values(f));
        assert(concat_all(done.map_values(f)).to_multiset() =~= concat_all(
            texts.map_values(f),
        ).to_multiset());
    }
}

/// How often the filter keeps an edge among the first `n`: as often as it
/// occurs there when it is kept at all.
pub proof fn lemma_kept_count(es: Seq<EdgeView>, g: Set<EdgeView>, a: Seq<char>, n: int, e: EdgeView)
    requires
        0 <= n <= es.len(),
    ensures
        kept(es, g, a, n).to_multiset().count(e) == if keeps(g, a, e) {
            es.take(n).to_multiset().count(e)
        } else {
            0
        },
    decreases n,
{
    broadcast use vstd::seq_lib::group_to_multiset_ensures, vstd::seq_lib::lemma_multiset_commutative, vstd::multiset::group_multiset_axioms;

    if n == 0 {
        assert(es.take(0) =~= Seq::<EdgeView>::empty());
        assert(kept(es, g, a, 0) =~= Seq::<EdgeView>::empty());
    } else {
        lemma_kept_count(es, g, a, n - 1, e);
        assert(es.take(n) =~= es.take(n - 1).push(es[n - 1]));
        let tail: Seq<EdgeView> = if keeps(g, a, es[n - 1]) { seq![es[n - 1]] } else { seq![] };
        assert(kept(es, g, a, n) == kept(es, g, a, n - 1) + tail);
        assert(seq![es[n - 1]] =~= Seq::<EdgeView>::empty().push(es[n - 1]));
        assert(Seq::<EdgeView>::empty().to_multiset() =~= Multiset::empty());
    }
}

/// How often the filter keeps each edge depends on how often it occurs, not
/// on the order of the edges.
pub proof fn lemma_filtered_by_multiset(es1: Seq<EdgeView>, es2: Seq<EdgeView>, class: Option<Seq<char>>)
    requires
        es1.to_multiset() == es2.to_multiset(),
    ensures
        filtered(es1, class).to_multiset() == filtered(es2, class).to_multiset(),
{
    broadcast use vstd::seq_lib::group_to_multiset_ensures;

    if let Some(a) = class {
        assert(es1.to_set() =~= es2.to_set()) by {
            es1.to_multiset_ensures();
            es2.to_multiset_ensures();
            assert forall|e: EdgeView| es1.contains(e) <==> es2.contains(e) by {
                assert(es1.contains(e) <==> es1.to_multiset().count(e) > 0);
                assert(es2.contains(e) <==> es2.to_multiset().count(e) > 0);
            }
        }
        assert(es1.take(es1.len() as int) =~= es1);
        assert(es2.take(es2.len() as int) =~= es2);
        assert forall|e: EdgeView| filtered(es1, class).to_multiset().count(e) == filtered(es2, class).to_multiset().count(e) by {
            lemma_kept_count(es1, es1.to_set(), a, es1.len() as int, e);
            lemma_kept_count(es2, es2.to_set(), a, es2.len() as int, e);
        }
        assert(filtered(es1, class).to_multiset() =~= filtered(es2, class).to_multiset());
    }
}

/// Files parsed in any order of completion give the same edges: when `done`
/// holds the texts of `texts` in another order, merging their edge lists in
/// that order, filtered or not, yields the same edges, each as often.
pub proof fn lemma_merge_order_irrelevant(
    texts: Seq<Seq<char>>,
    done: Seq<Seq<char>>,
    class: Option<Seq<char>>,
)
    requires
        done.to_multiset() == texts.to_multiset(),
    ensures
        merged(done, class).to_multiset() == merged(texts, class).to_multiset(),
        merged(done, class).to_set() == merged(texts, class).to_set(),
{
    broadcast use vstd::seq_lib::group_to_multiset_ensures;

    let f = |t: Seq<char>| file_edges(t);
    lemma_concat_permuted(texts, done);
    lemma_filtered_by_multiset(concat_all(done.map_values(f)), concat_all(texts.map_values(f)), class);
    let m1 = merged(done, class);
    let m2 = merged(texts, class);
    m1.to_multiset_ensures();
    m2.to_multiset_ensures();
    assert forall|e: EdgeView| m1.contains(e) <==> m2.contains(e) by {
        assert(m1.contains(e) <==> m1.to_multiset().count(e) > 0);
        assert(m2.contains(e) <==> m2.to_multiset().count(e) > 0);
    }
    assert(m1.to_set() =~= m2.to_set());
}

/// Nothing descends from a name that is no edge's parent but the name itself.
proof fn lemma_no_children_no_descendants(g: Set<EdgeView>, a: Seq<char>, x: Seq<char>, n: nat)
    requires
        forall|e: EdgeView| #[trigger] g.contains(e) ==> e.1 != a,
        reach_in(g, a, x, n),
    ensures
        x == a,
    decreases n,
{
    if n > 0 {
        if reach_in(g, a, x, (n - 1) as nat) {
            lemma_no_children_no_descendants(g, a, x, (n - 1) as nat);
        } else {
            let e = choose|e: EdgeView|
                #![trigger g.contains(e)]
                g.contains(e) && e.0 == x && reach_in(g, a, e.1, (n - 1) as nat);
            lemma_no_children_no_descendants(g, a, e.1, (n - 1) as nat);
        }
    }
}

/// Filtering on an anchor that has no children keeps exactly the edges that
/// name the anchor as their child.
pub proof fn lemma_leaf_anchor(es: Seq<EdgeView>, a: Seq<char>)
    requires
        forall|k: int| 0 <= k < es.len() ==> (#[trigger] es[k]).1 != a,
    ensures
        filtered(es, Some(a)).to_set() == es.to_set().filter(|e: EdgeView| e.0 == a),
{
    let g = es.to_set();
    assert forall|e: EdgeView| #[trigger] g.contains(e) implies e.1 != a by {
        let k = choose|k: int| 0 <= k < es.len() && es[k] == e;
    }
    assert(reach_in(g, a, a, 0));
    assert forall|e: EdgeView| filtered(es, Some(a)).to_set().contains(e) <==> es.to_set().filter(
        |e: EdgeView| e.0 == a,
    ).contains(e) by {
        lemma_kept_contains(es, g, a, es.len() as int, e);
        assert(es.take(es.len() as int) =~= es);
        if descends(g, a, e.0) {
            let n = choose|n: nat| reach_in(g, a, e.0, n);
            lemma_no_children_no_descendants(g, a, e.0, n);
        }
        if descends(g, a, e.1) {
            let n = choose|n: nat| reach_in(g, a, e.1, n);
            lemma_no_children_no_descendants(g, a, e.1, n);
        }
        if e.0 == a {
            assert(descends(g, a, e.0));
        }
    }
    assert(filtered(es, Some(a)).to_set() =~= es.to_set().filter(|e: EdgeView| e.0 == a));
}

/// Filtering on an anchor that no edge names keeps nothing.
pub proof fn lemma_absent_anchor(es: Seq<EdgeView>, a: Seq<char>)
    requires
        forall|k: int| 0 <= k < es.len() ==> (#[trigger] es[k]).0 != a && es[k].1 != a,
    ensures
        filtered(es, Some(a)) == Seq::<EdgeView>::empty(),
{
    lemma_leaf_anchor(es, a);
    let r = filtered(es, Some(a));
    if r.len() > 0 {
        assert(r.to_set().contains(r[0]));
        let k = choose|k: int| 0 <= k < es.len() && es[k] == r[0];
    }
}

} // verus!
