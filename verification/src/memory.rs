//! Fallible reservation of vector capacity.
use crate::error::{ErrorView, NewtonError};
use vstd::prelude::*;

verus! {

/// `Vec::try_reserve_exact`: asks the allocator for room for `additional`
/// more elements. Whether it succeeds depends on the allocator; the contents
/// are left unchanged either way. Asking for no more room needs no
/// allocation: the capacity is already sufficient, and the call does nothing
/// and succeeds.
#[verifier::external_body]
fn try_reserve_exact<T>(values: &mut Vec<T>, additional: usize) -> (r: Result<
    (),
    std::collections::TryReserveError,
>)
    ensures
        final(values)@ == old(values)@,
        additional == 0 ==> r is Ok,
{
    values.try_reserve_exact(additional)
}

/// Reserve room for `count` more elements, reporting a refusal of the
/// allocator as [`NewtonError::AllocationFailed`] for `field`.
pub fn reserve_exact<T>(values: &mut Vec<T>, count: usize, field: &'static str) -> (r: Result<
    (),
    NewtonError,
>)
    ensures
        final(values)@ == old(values)@,
        r matches Err(e) ==> e@ == (ErrorView::AllocationFailed { field: field@ }),
        count == 0 ==> r is Ok,
{
    match try_reserve_exact(values, count) {
        Ok(()) => Ok(()),
        Err(source) => Err(NewtonError::AllocationFailed { field, source }),
    }
}

} // verus!
