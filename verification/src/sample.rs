//! Marker-text generation for tests and benchmarks: a string of the
//! requested length in which every character is one of the two markers,
//! each drawn independently with equal probability.

use vstd::prelude::*;

verus! {

/// Relies on rand::random::<bool>(): a fair draw from the thread-local
/// generator. Nothing is promised of the value.
#[verifier::external_body]
fn random_marker_choice() -> bool {
    rand::random()
}

/// Relies on String::push: appends the given character to the end of the
/// string.
#[verifier::external_body]
fn push_char(s: &mut String, c: char)
    ensures
        final(s)@ == old(s)@.push(c),
{
    s.push(c);
}

/// A string of `size` characters, each drawn as marker `'s'` or marker
/// `'p'` with equal probability. Whatever the draws, the result has exactly
/// the requested length and holds marker characters alone.
pub fn gen_random_input(size: usize) -> (r: String)
    ensures
        r@.len() == size,
        forall|i: int| 0 <= i < size ==> r@[i] == 's' || r@[i] == 'p',
{
    let mut out = String::new();
    let mut i: usize = 0;
    while i < size
        invariant
            i <= size,
            out@.len() == i,
            forall|k: int| 0 <= k < i ==> out@[k] == 's' || out@[k] == 'p',
        decreases size - i,
    {
        if random_marker_choice() {
            push_char(&mut out, 's');
        } else {
            push_char(&mut out, 'p');
        }
        i = i + 1;
    }
    out
}

} // verus!
