//! Text as a sequence of symbols, and the windows cut from it.

use crate::chain::window_at;
use vstd::prelude::*;
use vstd::std_specs::iter::IteratorSpec;

verus! {

/// `String::push`: the string with `ch` appended behind its symbols.
pub assume_specification[ String::push ](s: &mut String, ch: char)
    ensures
        final(s)@ == old(s)@.push(ch),
;

/// The symbols of `s`, in order.
pub fn symbols(s: &str) -> (v: Vec<char>)
    ensures
        v@ == s@,
{
    broadcast use vstd::string::axiom_spec_iter, vstd::string::next_postcondition;

    let mut v: Vec<char> = Vec::new();
    let mut it = s.chars();
    loop
        invariant
            v@ + it.remaining() == s@,
            it.decrease() is Some,
        ensures
            v@ == s@,
        decreases it.decrease()->0,
    {
        let ghost before = it.remaining();
        match it.next() {
            Some(c) => {
                assert(before == seq![c] + it.remaining());
                assert(v@.push(c) + it.remaining() =~= v@ + before);
                v.push(c);
            },
            None => {
                assert(v@ + before =~= v@);
                break ;
            },
        }
    }
    v
}

/// The window of `k` symbols that starts at `start`, as a string.
pub fn window(chars: &Vec<char>, start: usize, k: usize) -> (w: String)
    requires
        start + k <= chars.len(),
    ensures
        w@ == window_at(chars@, start as int, k as nat),
{
    let mut w = String::new();
    let mut j: usize = 0;
    while j < k
        invariant
            j <= k,
            start + k <= chars.len(),
            w@ == chars@.subrange(start as int, start + j),
        decreases k - j,
    {
        w.push(chars[start + j]);
        assert(chars@.subrange(start as int, start + j).push(chars@[start + j])
            =~= chars@.subrange(start as int, start + j + 1));
        j += 1;
    }
    w
}

} // verus!
