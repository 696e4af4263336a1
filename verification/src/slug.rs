//! URL-safe identifiers.
use vstd::prelude::*;
use crate::text::chars_of;

verus! {

/// A character of a slug: a lower-case letter, a digit or a dash.
pub open spec fn is_slug_char(c: char) -> bool {
    ('a' <= c <= 'z') || ('0' <= c <= '9') || c == '-'
}

/// A nonempty text of slug characters.
pub open spec fn is_slug(s: Seq<char>) -> bool {
    s.len() > 0 && forall|i: int| 0 <= i < s.len() ==> is_slug_char(#[trigger] s[i])
}

/// Tells whether a text is a slug.
pub fn parse_slug(value: &str) -> (r: bool)
    ensures
        r == is_slug(value@),
{
    let chars = chars_of(value);
    let mut i: usize = 0;
    while i < chars.len()
        invariant
            i <= chars@.len(),
            chars@ == value@,
            forall|j: int| 0 <= j < i ==> is_slug_char(#[trigger] chars@[j]),
        decreases chars.len() - i,
    {
        let c = chars[i];
        if !(('a' <= c && c <= 'z') || ('0' <= c && c <= '9') || c == '-') {
            assert(!is_slug_char(chars@[i as int]));
            return false;
        }
        i += 1;
    }
    chars.len() > 0
}

} // verus!
