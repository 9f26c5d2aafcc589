//! Strings as sequences of characters.
//!
//! Every position and every length in this library counts characters, never
//! bytes, so a string is first laid out as a vector of its characters.

use vstd::prelude::*;

verus! {

/// The texts of a sequence of string slices, in order.
pub open spec fn texts(items: Seq<&str>) -> Seq<Seq<char>> {
    Seq::new(items.len(), |i: int| items[i]@)
}

/// The characters of `s`, in order.
pub fn chars_of(s: &str) -> (chars: Vec<char>)
    ensures
        chars@ == s@,
{
    let mut chars: Vec<char> = Vec::new();
    for c in it: s.chars()
        invariant
            chars@ == it.seq().take(it.index()),
            it.seq() == s@,
    {
        chars.push(c);
    }
    chars
}

} // verus!
