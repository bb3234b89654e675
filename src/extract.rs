use vstd::prelude::*;

use crate::text::{chars_of, push_char};

verus! {

/// An inheritance relation as `(child, parent)`.
pub type Edge = (String, String);

/// The model of an [`Edge`].
pub type EdgeView = (Seq<char>, Seq<char>);

/// The tokens of a header joined by single spaces.
pub open spec fn join_space(parts: Seq<Seq<char>>) -> Seq<char>
    decreases parts.len(),
{
    if parts.len() == 0 {
        seq![]
    } else if parts.len() == 1 {
        parts[0]
    } else {
        join_space(parts.drop_last()) + seq![' '] + parts.last()
    }
}

/// Whether `s` holds the character `c`.
pub open spec fn has_char(s: Seq<char>, c: char) -> bool {
    exists|i: int| 0 <= i < s.len() && s[i] == c
}

/// Whether `s` declares parents: it holds both an opening and a closing
/// parenthesis.
pub open spec fn has_parens(s: Seq<char>) -> bool {
    has_char(s, '(') && has_char(s, ')')
}

/// The first index at or after `i` at which `s` holds `c`, or `s.len()`.
pub open spec fn find_from(s: Seq<char>, c: char, i: int) -> int
    decreases s.len() - i,
{
    if i < 0 || i >= s.len() {
        s.len() as int
    } else if s[i] == c {
        i
    } else {
        find_from(s, c, i + 1)
    }
}

/// The part of a declaration before its first `)`.
pub open spec fn before_close(s: Seq<char>) -> Seq<char> {
    s.take(find_from(s, ')', 0))
}

/// The declared name: what stands before the first `(`.
pub open spec fn child_of(s: Seq<char>) -> Seq<char> {
    let h = before_close(s);
    h.take(find_from(h, '(', 0))
}

/// The parent list: what stands between the first `(` and the first `)`.
pub open spec fn parent_list(s: Seq<char>) -> Seq<char> {
    let h = before_close(s);
    let o = find_from(h, '(', 0);
    if o < h.len() {
        h.skip(o + 1)
    } else {
        seq![]
    }
}

/// The pieces of `s[i..]` between the separators `", "`, where `cur` holds the
/// characters of a piece begun before `i`.
pub open spec fn split_from(s: Seq<char>, i: int, cur: Seq<char>) -> Seq<Seq<char>>
    decreases s.len() - i,
{
    if i < 0 || i >= s.len() {
        seq![cur]
    } else if s[i] == ',' && i + 1 < s.len() && s[i + 1] == ' ' {
        seq![cur] + split_from(s, i + 2, seq![])
    } else {
        split_from(s, i + 1, cur.push(s[i]))
    }
}

/// The parent names of a declaration, in the order written.
pub open spec fn parents_of(s: Seq<char>) -> Seq<Seq<char>> {
    split_from(parent_list(s), 0, seq![])
}

/// The headers that declare parents, each joined into one string.
pub open spec fn child_decls(hs: Seq<Seq<Seq<char>>>) -> Seq<Seq<char>>
    decreases hs.len(),
{
    if hs.len() == 0 {
        seq![]
    } else {
        let j = join_space(hs.last());
        child_decls(hs.drop_last()) + if has_parens(j) { seq![j] } else { seq![] }
    }
}

/// One edge from the declared name to each of its parents; none when the
/// parent list is empty.
pub open spec fn decl_edges(d: Seq<char>) -> Seq<EdgeView> {
    if parent_list(d).len() == 0 {
        seq![]
    } else {
        parents_of(d).map_values(|p: Seq<char>| (child_of(d), p))
    }
}

/// The edges of a sequence of child declarations, declaration by declaration.
pub open spec fn edges_of(ds: Seq<Seq<char>>) -> Seq<EdgeView>
    decreases ds.len(),
{
    if ds.len() == 0 {
        seq![]
    } else {
        edges_of(ds.drop_last()) + decl_edges(ds.last())
    }
}

/// The characters `cs[lo..hi]` as a string.
fn string_of(cs: &Vec<char>, lo: usize, hi: usize) -> (r: String)
    requires
        lo <= hi <= cs.len(),
    ensures
        r@ == cs@.subrange(lo as int, hi as int),
{
    let mut r = String::new();
    let mut i = lo;
    while i < hi
        invariant
            lo <= i <= hi <= cs.len(),
            r@ == cs@.subrange(lo as int, i as int),
        decreases hi - i,
    {
        push_char(&mut r, cs[i]);
        assert(cs@.subrange(lo as int, i + 1) =~= cs@.subrange(lo as int, i as int).push(cs[i as int]));
        i = i + 1;
    }
    r
}

/// The first index at or after `from` at which `cs` holds `c`, or its length.
fn find_char(cs: &Vec<char>, c: char, from: usize) -> (r: usize)
    requires
        from <= cs.len(),
    ensures
        r == find_from(cs@, c, from as int),
        from <= r <= cs.len(),
{
    let mut i = from;
    while i < cs.len() && cs[i] != c
        invariant
            from <= i <= cs.len(),
            find_from(cs@, c, i as int) == find_from(cs@, c, from as int),
        decreases cs.len() - i,
    {
        i = i + 1;
    }
    i
}

/// Joins the tokens of a header with single spaces.
pub fn join_tokens(parts: &Vec<String>) -> (r: String)
    ensures
        r@ == join_space(parts.deep_view()),
{
    let ghost ps = parts.deep_view();
    let mut r = String::new();
    let mut i: usize = 0;
    while i < parts.len()
        invariant
            i <= parts.len(),
            ps == parts.deep_view(),
            r@ == join_space(ps.take(i as int)),
        decreases parts.len() - i,
    {
        assert(ps.take(i + 1).drop_last() =~= ps.take(i as int));
        if i > 0 {
            push_char(&mut r, ' ');
        }
        r.append(parts[i].as_str());
        if i == 0 {
            assert(r@ =~= join_space(ps.take(1)));
        }
        i = i + 1;
    }
    assert(ps.take(i as int) =~= ps);
    r
}

/// Whether a declaration declares parents: it holds both `(` and `)`.
pub fn is_sinlge_inheritance_child(class: &String) -> (r: bool)
    ensures
        r == has_parens(class@),
{
    let cs = chars_of(class.as_str());
    let mut open = false;
    let mut close = false;
    let mut i: usize = 0;
    while i < cs.len()
        invariant
            i <= cs.len(),
            cs@ == class@,
            open == exists|j: int| 0 <= j < i && cs@[j] == '(',
            close == exists|j: int| 0 <= j < i && cs@[j] == ')',
        decreases cs.len() - i,
    {
        if cs[i] == '(' {
            open = true;
        } else if cs[i] == ')' {
            close = true;
        }
        proof {
            assert(cs@[i as int] == '(' ==> exists|j: int| 0 <= j < i + 1 && cs@[j] == '(');
            assert(cs@[i as int] == ')' ==> exists|j: int| 0 <= j < i + 1 && cs@[j] == ')');
        }
        i = i + 1;
    }
    open && close
}

/// Joins each header into one string and keeps those that declare parents.
pub fn get_child_classes(classes: Vec<Vec<String>>) -> (r: Vec<String>)
    ensures
        r.deep_view() == child_decls(classes.deep_view()),
{
    let ghost hs = classes.deep_view();
    let mut r: Vec<String> = Vec::new();
    let mut i: usize = 0;
    while i < classes.len()
        invariant
            i <= classes.len(),
            hs == classes.deep_view(),
            r.deep_view() == child_decls(hs.take(i as int)),
        decreases classes.len() - i,
    {
        let joined = join_tokens(&classes[i]);
        assert(hs.take(i + 1).drop_last() =~= hs.take(i as int));
        assert(hs.take(i + 1).last() == hs[i as int]);
        let ghost r0 = r.deep_view();
        if is_sinlge_inheritance_child(&joined) {
            r.push(joined);
            assert(r.deep_view() =~= r0 + seq![joined@]);
        } else {
            assert(r0 =~= r0 + Seq::<Seq<char>>::empty());
        }
        i = i + 1;
    }
    assert(hs.take(i as int) =~= hs);
    r
}

/// Splits `cs` on the separator `", "`.
fn split_pieces(cs: &Vec<char>) -> (r: Vec<String>)
    ensures
        r.deep_view() == split_from(cs@, 0, seq![]),
{
    let mut r: Vec<String> = Vec::new();
    let mut cur = String::new();
    let mut i: usize = 0;
    while i < cs.len()
        invariant
            i <= cs.len(),
            r.deep_view() + split_from(cs@, i as int, cur@) == split_from(cs@, 0, seq![]),
        decreases cs.len() - i,
    {
        let ghost r0 = r.deep_view();
        let ghost c0 = cur@;
        if cs[i] == ',' && i + 1 < cs.len() && cs[i + 1] == ' ' {
            r.push(cur);
            cur = String::new();
            assert(r.deep_view() =~= r0 + seq![c0]);
            assert(r0 + (seq![c0] + split_from(cs@, i + 2, seq![])) =~= (r0 + seq![c0])
                + split_from(cs@, i + 2, seq![]));
            assert(cur@ =~= seq![]);
            i = i + 2;
        } else {
            push_char(&mut cur, cs[i]);
            i = i + 1;
        }
    }
    let ghost r0 = r.deep_view();
    r.push(cur);
    assert(r.deep_view() =~= r0 + split_from(cs@, i as int, cur@));
    r
}

/// Splits a child declaration into its declared name and its parent names.
/// The name is what stands before the first `(`, the parents what stands
/// between it and the first `)`, split on `", "`.
pub fn separate_child_and_parent_class(class: &String) -> (r: (String, Vec<String>))
    ensures
        r.0@ == child_of(class@),
        r.1.deep_view() == parents_of(class@),
{
    let (child, plist) = split_declaration(class);
    (child, split_pieces(&plist))
}

/// The declared name and the characters of the parent list.
fn split_declaration(class: &String) -> (r: (String, Vec<char>))
    ensures
        r.0@ == child_of(class@),
        r.1@ == parent_list(class@),
{
    let cs = chars_of(class.as_str());
    let close = find_char(&cs, ')', 0);
    let ghost h = before_close(cs@);
    let open = find_char(&cs, '(', 0);
    proof {
        lemma_find_in_prefix(cs@, '(', close as int, 0);
    }
    let open = if open < close { open } else { close };
    assert(open as int == find_from(h, '(', 0));
    let child = string_of(&cs, 0, open);
    assert(cs@.subrange(0, open as int) =~= h.take(open as int));
    let plist = if open < close {
        let mut p: Vec<char> = Vec::new();
        let mut i = open + 1;
        while i < close
            invariant
                open < close <= cs.len(),
                open + 1 <= i <= close,
                p@ == cs@.subrange(open + 1, i as int),
            decreases close - i,
        {
            p.push(cs[i]);
            assert(cs@.subrange(open + 1, i + 1) =~= cs@.subrange(open + 1, i as int).push(cs@[i as int]));
            i = i + 1;
        }
        assert(p@ =~= h.skip(open + 1));
        p
    } else {
        assert(parent_list(cs@) =~= seq![]);
        Vec::new()
    };
    assert(plist@ =~= parent_list(class@));
    (child, plist)
}

/// The first occurrence of `c` in a prefix of `s` is found where it is in `s`,
/// or at the prefix's end.
proof fn lemma_find_in_prefix(s: Seq<char>, c: char, n: int, i: int)
    requires
        0 <= i <= n <= s.len(),
    ensures
        find_from(s.take(n), c, i) == if find_from(s, c, i) < n { find_from(s, c, i) } else { n },
    decreases n - i,
{
    lemma_find_bounds(s, c, i);
    if i < n {
        assert(s.take(n)[i] == s[i]);
        lemma_find_in_prefix(s, c, n, i + 1);
    }
}

/// A search from `i` ends between `i` and the end.
proof fn lemma_find_bounds(s: Seq<char>, c: char, i: int)
    requires
        0 <= i <= s.len(),
    ensures
        i <= find_from(s, c, i) <= s.len(),
    decreases s.len() - i,
{
    if i < s.len() {
        lemma_find_bounds(s, c, i + 1);
    }
}

/// The parent names of a child declaration, in the order written.
pub fn get_parent_class(class: &String) -> (r: Vec<String>)
    ensures
        r.deep_view() == parents_of(class@),
{
    separate_child_and_parent_class(class).1
}

/// One `(child, parent)` edge for each parent of each child declaration, in
/// order.
pub fn build_edges(child_classes: Vec<String>) -> (r: Vec<Edge>)
    ensures
        r.deep_view() == edges_of(child_classes.deep_view()),
{
    let ghost ds = child_classes.deep_view();
    let mut edges: Vec<Edge> = Vec::new();
    let mut i: usize = 0;
    while i < child_classes.len()
        invariant
            i <= child_classes.len(),
            ds == child_classes.deep_view(),
            edges.deep_view() == edges_of(ds.take(i as int)),
        decreases child_classes.len() - i,
    {
        let (child_class, plist) = split_declaration(&child_classes[i]);
        let ghost e0 = edges.deep_view();
        let ghost d = ds[i as int];
        if plist.len() > 0 {
            let parent_classes = split_pieces(&plist);
            let mut j: usize = 0;
            while j < parent_classes.len()
                invariant
                    i < child_classes.len(),
                    j <= parent_classes.len(),
                    ds.len() == child_classes.len(),
                    d == ds[i as int],
                    parent_list(d).len() > 0,
                    child_class@ == child_of(d),
                    parent_classes.deep_view() == parents_of(d),
                    edges.deep_view() == e0 + decl_edges(d).take(j as int),
                decreases parent_classes.len() - j,
            {
                let ghost p = parent_classes.deep_view()[j as int];
                assert(p == parent_classes@[j as int]@);
                edges.push((child_class.clone(), parent_classes[j].clone()));
                assert(edges.deep_view() =~= e0 + decl_edges(d).take(j as int) + seq![(child_of(d), p)]);
                assert(decl_edges(d).take(j + 1) =~= decl_edges(d).take(j as int).push(
                    (child_of(d), parents_of(d)[j as int]),
                ));
                assert(edges.deep_view() =~= e0 + decl_edges(d).take(j + 1));
                j = j + 1;
            }
            assert(decl_edges(d).take(j as int) =~= decl_edges(d));
        } else {
            assert(edges.deep_view() =~= e0 + decl_edges(d));
        }
        assert(ds.take(i + 1).drop_last() =~= ds.take(i as int));
        i = i + 1;
    }
    assert(ds.take(i as int) =~= ds);
    edges
}

} // verus!
