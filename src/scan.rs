use vstd::prelude::*;

use crate::naming::{is_pascal_case, pascal};
use crate::text::chars_of;

verus! {

/// The declaration keyword.
pub open spec fn keyword() -> Seq<char> {
    seq!['c', 'l', 'a', 's', 's']
}

/// Whether `t` is non-empty and ends with `c`.
pub open spec fn ends_with(t: Seq<char>, c: char) -> bool {
    t.len() > 0 && t.last() == c
}

/// The declaration headers found in `toks[i..]`. `after_kw` says that the
/// token before `i` was the keyword; `acc` holds the tokens of a multi-token
/// header still waiting for its terminating `:`. A header left open when the
/// tokens run out is dropped.
pub open spec fn headers_from(
    toks: Seq<Seq<char>>,
    i: int,
    after_kw: bool,
    acc: Option<Seq<Seq<char>>>,
) -> Seq<Seq<Seq<char>>>
    decreases toks.len() - i,
{
    if i < 0 || i >= toks.len() {
        seq![]
    } else {
        let t = toks[i];
        match acc {
            Some(a) => if ends_with(t, ':') {
                seq![a.push(t)] + headers_from(toks, i + 1, false, None)
            } else {
                headers_from(toks, i + 1, false, Some(a.push(t)))
            },
            None => if after_kw && pascal(t) && ends_with(t, ':') {
                seq![seq![t]] + headers_from(toks, i + 1, false, None)
            } else if after_kw && pascal(t) && ends_with(t, ',') {
                headers_from(toks, i + 1, false, Some(seq![t]))
            } else {
                headers_from(toks, i + 1, t == keyword(), None)
            },
        }
    }
}

/// The declaration headers of a token stream, in order.
pub open spec fn headers_of(toks: Seq<Seq<char>>) -> Seq<Seq<Seq<char>>> {
    headers_from(toks, 0, false, None)
}

/// Whether `t` ends with `c`.
pub fn ends_with_char(t: &String, c: char) -> (r: bool)
    ensures
        r == ends_with(t@, c),
{
    let cs = chars_of(t.as_str());
    cs.len() > 0 && cs[cs.len() - 1] == c
}

/// Whether `t` is the declaration keyword.
pub fn is_keyword(t: &String) -> (r: bool)
    ensures
        r == (t@ == keyword()),
{
    let cs = chars_of(t.as_str());
    let r = cs.len() == 5 && cs[0] == 'c' && cs[1] == 'l' && cs[2] == 'a' && cs[3] == 's'
        && cs[4] == 's';
    proof {
        if r {
            assert(t@ =~= keyword());
        }
    }
    r
}

/// Finds the declaration headers in a token stream. A header starts at a token
/// right after the keyword that follows the naming convention; it is that one
/// token when it ends with `:`, and runs on to the first token that ends with
/// `:` when it ends with `,`.
pub fn get_pascal_case(tokens: &Vec<String>) -> (r: Vec<Vec<String>>)
    ensures
        r.deep_view() == headers_of(tokens.deep_view()),
{
    let ghost toks = tokens.deep_view();
    let mut classes: Vec<Vec<String>> = Vec::new();
    let mut prev_token_class = false;
    let mut collecting = false;
    let mut acc: Vec<String> = Vec::new();
    let mut i: usize = 0;
    while i < tokens.len()
        invariant
            i <= tokens.len(),
            toks == tokens.deep_view(),
            !(collecting && prev_token_class),
            classes.deep_view() + headers_from(
                toks,
                i as int,
                prev_token_class,
                if collecting { Some(acc.deep_view()) } else { None },
            ) == headers_of(toks),
        decreases tokens.len() - i,
    {
        let token = &tokens[i];
        let ghost c0 = classes.deep_view();
        let ghost a0 = acc.deep_view();
        assert(toks[i as int] == token@);
        if collecting {
            acc.push(token.clone());
            assert(acc.deep_view() =~= a0.push(token@));
            if ends_with_char(token, ':') {
                classes.push(acc);
                acc = Vec::new();
                collecting = false;
                assert(classes.deep_view() =~= c0 + seq![a0.push(token@)]);
                assert(c0 + (seq![a0.push(token@)] + headers_from(toks, i + 1, false, None))
                    =~= (c0 + seq![a0.push(token@)]) + headers_from(toks, i + 1, false, None));
            }
            prev_token_class = false;
        } else if prev_token_class && is_pascal_case(token) && ends_with_char(token, ':') {
            let mut one: Vec<String> = Vec::new();
            one.push(token.clone());
            assert(one.deep_view() =~= seq![token@]);
            classes.push(one);
            assert(classes.deep_view() =~= c0 + seq![seq![token@]]);
            assert(c0 + (seq![seq![token@]] + headers_from(toks, i + 1, false, None))
                =~= (c0 + seq![seq![token@]]) + headers_from(toks, i + 1, false, None));
            prev_token_class = false;
        } else if prev_token_class && is_pascal_case(token) && ends_with_char(token, ',') {
            acc = Vec::new();
            acc.push(token.clone());
            assert(acc.deep_view() =~= seq![token@]);
            collecting = true;
            prev_token_class = false;
        } else {
            prev_token_class = is_keyword(token);
        }
        i = i + 1;
    }
    assert(headers_from(
        toks,
        i as int,
        prev_token_class,
        if collecting { Some(acc.deep_view()) } else { None },
    ) =~= seq![]);
    assert(classes.deep_view() =~= classes.deep_view() + seq![]);
    classes
}

} // verus!
