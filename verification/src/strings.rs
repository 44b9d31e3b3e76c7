//! Building strings.
use vstd::prelude::*;
use vstd::string::*;

verus! {

/// Calls `String::push`, trusted to append `c` after the characters of `s` and change
/// nothing else.
#[verifier::external_body]
pub(crate) fn push_char(s: &mut String, c: char)
    ensures
        final(s)@ == old(s)@.push(c),
{
    s.push(c);
}

/// `n` copies of `s`, one after the other.
pub open spec fn repeat_seq(s: Seq<char>, n: nat) -> Seq<char>
    decreases n,
{
    if n == 0 {
        Seq::empty()
    } else {
        repeat_seq(s, (n - 1) as nat) + s
    }
}

/// `n` copies of `text`, one after the other.
pub fn repeat(text: &str, n: usize) -> (out: String)
    ensures
        out@ == repeat_seq(text@, n as nat),
{
    let mut out = String::new();
    let mut i: usize = 0;
    while i < n
        invariant
            i <= n,
            out@ == repeat_seq(text@, i as nat),
        decreases n - i,
    {
        out.append(text);
        i = i + 1;
    }
    out
}

} // verus!
