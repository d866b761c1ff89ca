//! The one string primitive that vstd does not specify.

use vstd::prelude::*;

verus! {

/// Relies on `String::push` of std: appends the single character `c` at the
/// end of the string.
#[verifier::external_body]
pub fn push_char(s: &mut String, c: char)
    ensures
        final(s)@ == old(s)@.push(c),
{
    s.push(c)
}

} // verus!
