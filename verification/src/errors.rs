//! A handler that has nothing to say fails with the don't-care marker, which
//! the dispatch layer drops silently instead of reporting.

use vstd::prelude::*;

use crate::respond::Failure;

verus! {

/// The marker failure that means "drop this answer silently".
#[derive(Clone, Copy, Debug, PartialEq, Eq, Structural)]
pub struct DontCare;

/// The name of the marker, for reporting.
pub fn dont_care_text() -> (r: String)
    ensures
        r@ =~= seq!['D', 'o', 'n', 't', 'C', 'a', 'r', 'e'],
{
    proof {
        reveal_strlit("DontCare");
    }
    let s: &str = "DontCare";
    s.to_owned()
}

/// The don't-care failure itself.
pub fn dont_care_failure() -> (r: Failure)
    ensures
        r.message@ =~= seq!['D', 'o', 'n', 't', 'C', 'a', 'r', 'e'],
{
    Failure { message: dont_care_text() }
}

/// Turns an absent value into the don't-care failure.
pub fn option_dont_care<T>(v: Option<T>) -> (r: Result<T, Failure>)
    ensures
        v is Some <==> r is Ok,
        v is Some ==> r.unwrap() == v.unwrap(),
{
    match v {
        Some(ok) => Ok(ok),
        None => Err(dont_care_failure()),
    }
}

/// Turns any failure into the don't-care failure.
pub fn result_dont_care<T, E>(v: Result<T, E>) -> (r: Result<T, Failure>)
    ensures
        v is Ok <==> r is Ok,
        forall|x: T| v == Result::<T, E>::Ok(x) ==> r == Result::<T, Failure>::Ok(x),
{
    match v {
        Ok(ok) => Ok(ok),
        Err(_) => Err(dont_care_failure()),
    }
}

/// A failed result that asks to be dropped silently.
pub fn dont_care<T>() -> (r: Result<T, Failure>)
    ensures
        r is Err,
{
    Err(dont_care_failure())
}

} // verus!
