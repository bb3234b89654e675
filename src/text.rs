use vstd::prelude::*;

verus! {

/// The characters that Rust's `char::is_whitespace` accepts: those with the
/// Unicode `White_Space` property.
pub open spec fn is_ws(c: char) -> bool {
    ('\t' <= c && c <= '\r') || c == ' ' || c == '\u{85}' || c == '\u{a0}' || c == '\u{1680}'
        || ('\u{2000}' <= c && c <= '\u{200a}') || c == '\u{2028}' || c == '\u{2029}'
        || c == '\u{202f}' || c == '\u{205f}' || c == '\u{3000}'
}

/// Whether `c` is a whitespace character.
pub fn is_whitespace_char(c: char) -> (r: bool)
    ensures
        r == is_ws(c),
{
    ('\t' <= c && c <= '\r') || c == ' ' || c == '\u{85}' || c == '\u{a0}' || c == '\u{1680}'
        || ('\u{2000}' <= c && c <= '\u{200a}') || c == '\u{2028}' || c == '\u{2029}'
        || c == '\u{202f}' || c == '\u{205f}' || c == '\u{3000}'
}

/// The characters of `s`, in order.
pub fn chars_of(s: &str) -> (r: Vec<char>)
    ensures
        r@ == s@,
{
    let mut r: Vec<char> = Vec::new();
    for c in it: s.chars()
        invariant
            r@ == it.seq().take(it.index() as int),
    {
        r.push(c);
    }
    r
}

/// Relies on `String::push`: appends one character at the end.
#[verifier::external_body]
pub(crate) fn push_char(s: &mut String, c: char)
    ensures
        final(s)@ == old(s)@.push(c),
{
    s.push(c)
}


/// The whitespace-delimited tokens of `s[i..]`, where `cur` holds the
/// characters of a token begun before `i`.
pub open spec fn tokens_from(s: Seq<char>, i: int, cur: Seq<char>) -> Seq<Seq<char>>
    decreases s.len() - i,
{
    if i >= s.len() {
        if cur.len() > 0 { seq![cur] } else { seq![] }
    } else if is_ws(s[i]) {
        (if cur.len() > 0 { seq![cur] } else { seq![] }) + tokens_from(s, i + 1, seq![])
    } else {
        tokens_from(s, i + 1, cur.push(s[i]))
    }
}

/// The maximal runs of non-whitespace characters of `s`, in order.
pub open spec fn tokens_of(s: Seq<char>) -> Seq<Seq<char>> {
    tokens_from(s, 0, seq![])
}

/// Splits `content` into its whitespace-delimited tokens. Punctuation and case
/// are kept as they are.
pub fn tokenize(content: String) -> (r: Vec<String>)
    ensures
        r.deep_view() == tokens_of(content@),
{
    let cs = chars_of(content.as_str());
    let mut r: Vec<String> = Vec::new();
    let mut cur = String::new();
    let mut i: usize = 0;
    while i < cs.len()
        invariant
            i <= cs.len(),
            cs@ == content@,
            r.deep_view() + tokens_from(cs@, i as int, cur@) == tokens_of(content@),
        decreases cs.len() - i,
    {
        let c = cs[i];
        let ghost r0 = r.deep_view();
        let ghost c0 = cur@;
        if is_whitespace_char(c) {
            let ghost front: Seq<Seq<char>> = if c0.len() > 0 { seq![c0] } else { seq![] };
            if !cur.as_str().is_empty() {
                let tok = cur;
                r.push(tok);
                cur = String::new();
                proof {
                    assert(r.deep_view() =~= r0 + front);
                }
            }
            proof {
                assert(r.deep_view() =~= r0 + front);
                assert(r0 + (front + tokens_from(cs@, i + 1, seq![])) =~= (r0 + front)
                    + tokens_from(cs@, i + 1, seq![]));
                assert(cur@ =~= seq![]);
            }
        } else {
            push_char(&mut cur, c);
        }
        i = i + 1;
    }
    if !cur.as_str().is_empty() {
        r.push(cur);
    }
    r
}

} // verus!
