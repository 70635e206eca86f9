use vstd::prelude::*;

verus! {

/// Relies on `Vec::shrink_to_fit`: it lowers the capacity and leaves the items
/// as they are.
#[verifier::external_body]
pub(crate) fn shrink_vec<T>(v: &mut Vec<T>)
    ensures
        final(v)@ == old(v)@,
{
    v.shrink_to_fit();
}

} // verus!
