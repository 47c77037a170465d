//! Character-level helpers: every word travels through the engine as a
//! `String`, but the trie and the dictionary work character by character.
use vstd::prelude::*;
use vstd::std_specs::iter::IteratorSpec;

verus! {

/// The characters of a string slice, in order.
pub fn chars_of(s: &str) -> (r: Vec<char>)
    ensures
        r@ == s@,
{
    broadcast use vstd::string::next_postcondition;
    broadcast use vstd::string::axiom_spec_iter;

    let mut r: Vec<char> = Vec::new();
    let mut it = s.chars();
    loop
        invariant
            it.obeys_prophetic_iter_laws(),
            it.decrease() is Some,
            r@ + it.remaining() == s@,
        ensures
            r@ + it.remaining() == s@,
            it.remaining().len() == 0,
        decreases it.decrease()->0,
    {
        match it.next() {
            Some(c) => {
                r.push(c);
            },
            None => {
                break ;
            },
        }
    }
    assert(r@ =~= r@ + it.remaining());
    r
}

/// Builds the string whose characters are exactly `v`, in order.
///
/// Relies on core's `FromIterator<char> for String`: collecting an
/// iterator of characters yields the string of those characters.
#[verifier::external_body]
pub fn string_of(v: &Vec<char>) -> (r: String)
    ensures
        r@ == v@,
{
    v.iter().collect()
}

/// Whether `c` occurs in `v`.
pub fn contains_char(v: &Vec<char>, c: char) -> (b: bool)
    ensures
        b == v@.contains(c),
{
    let n = v.len();
    for i in 0..n
        invariant
            n == v@.len(),
            forall|k: int| 0 <= k < i ==> v@[k] != c,
    {
        if v[i] == c {
            return true;
        }
    }
    false
}

/// `c` put before the characters of `s`.
pub fn cons_char(c: char, s: &Vec<char>) -> (r: Vec<char>)
    ensures
        r@ == seq![c] + s@,
{
    let mut r: Vec<char> = Vec::new();
    r.push(c);
    r.extend_from_slice(s.as_slice());
    assert(r@ =~= seq![c] + s@);
    r
}

/// `v` reversed.
pub fn rev_chars(v: &Vec<char>) -> (r: Vec<char>)
    ensures
        r@ == v@.reverse(),
{
    let mut r: Vec<char> = Vec::new();
    let n = v.len();
    for k in 0..n
        invariant
            n == v@.len(),
            r@.len() == k,
            forall|j: int| 0 <= j < k ==> r@[j] == v@[n - 1 - j],
    {
        r.push(v[n - 1 - k]);
    }
    assert(r@ =~= v@.reverse());
    r
}

} // verus!
