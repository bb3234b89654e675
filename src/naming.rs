use vstd::prelude::*;

use crate::text::chars_of;

verus! {

/// What `char::is_uppercase` returns: the Unicode `Uppercase` property.
pub uninterp spec fn upper_char(c: char) -> bool;

/// What `char::is_lowercase` returns: the Unicode `Lowercase` property.
pub uninterp spec fn lower_char(c: char) -> bool;

/// Relies on `char::is_uppercase`: whether `c` has the `Uppercase` property.
#[verifier::external_body]
fn char_is_uppercase(c: char) -> (r: bool)
    ensures
        r == upper_char(c),
{
    c.is_uppercase()
}

/// Relies on `char::is_lowercase`: whether `c` has the `Lowercase` property.
#[verifier::external_body]
fn char_is_lowercase(c: char) -> (r: bool)
    ensures
        r == lower_char(c),
{
    c.is_lowercase()
}

/// How the naming heuristic sees one character.
#[derive(Clone, Copy, Debug, PartialEq, Eq, Structural)]
pub enum CharClass {
    Upper,
    Lower,
    Other,
}

/// The class of `c`: uppercase wins over lowercase, the rest is inert.
pub open spec fn class_of(c: char) -> CharClass {
    if upper_char(c) {
        CharClass::Upper
    } else if lower_char(c) {
        CharClass::Lower
    } else {
        CharClass::Other
    }
}

/// Whether the last cased character among the first `n` of `k` is uppercase.
pub open spec fn upper_before(k: Seq<CharClass>, n: int) -> bool
    decreases n,
{
    if n <= 0 {
        false
    } else if k[n - 1] == CharClass::Upper {
        true
    } else if k[n - 1] == CharClass::Lower {
        false
    } else {
        upper_before(k, n - 1)
    }
}

/// The naming convention over character classes: the first character is
/// uppercase, and no uppercase character follows another uppercase one with
/// only inert characters between them.
pub open spec fn pascal_classes(k: Seq<CharClass>) -> bool {
    &&& k.len() > 0 ==> k[0] == CharClass::Upper
    &&& forall|i: int| 0 <= i < k.len() && k[i] == CharClass::Upper ==> !upper_before(k, i)
}

/// The naming convention over the characters of a token.
pub open spec fn pascal(t: Seq<char>) -> bool {
    pascal_classes(t.map_values(|c: char| class_of(c)))
}

/// Classifies one character.
pub fn classify(c: char) -> (r: CharClass)
    ensures
        r == class_of(c),
{
    if char_is_uppercase(c) {
        CharClass::Upper
    } else if char_is_lowercase(c) {
        CharClass::Lower
    } else {
        CharClass::Other
    }
}

/// Decides the naming convention on a token already classified character by
/// character.
pub fn is_pascal_case_classes(k: &Vec<CharClass>) -> (r: bool)
    ensures
        r == pascal_classes(k@),
{
    let mut prev_is_upper = false;
    let mut i: usize = 0;
    while i < k.len()
        invariant
            i <= k.len(),
            prev_is_upper == upper_before(k@, i as int),
            i > 0 ==> k@[0] == CharClass::Upper,
            forall|j: int| 0 <= j < i && k@[j] == CharClass::Upper ==> !upper_before(k@, j),
        decreases k.len() - i,
    {
        let c = k[i];
        if i == 0 && c != CharClass::Upper {
            return false;
        }
        if c == CharClass::Upper {
            if prev_is_upper {
                return false;
            }
            prev_is_upper = true;
        } else if c == CharClass::Lower {
            prev_is_upper = false;
        }
        i = i + 1;
    }
    true
}

/// Whether `token` looks like a class name: it starts with an uppercase
/// character and holds no two uppercase characters in a row (characters that
/// are neither upper- nor lowercase do not break a row).
pub fn is_pascal_case(token: &String) -> (r: bool)
    ensures
        r == pascal(token@),
{
    let cs = chars_of(token.as_str());
    let mut k: Vec<CharClass> = Vec::new();
    for c in it: cs.iter()
        invariant
            k@ == it.seq().take(it.index() as int).map_values(|c: &char| class_of(*c)),
    {
        k.push(classify(*c));
    }
    assert(k@ =~= token@.map_values(|c: char| class_of(c)));
    is_pascal_case_classes(&k)
}

} // verus!
