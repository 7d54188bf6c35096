use vstd::prelude::*;

verus! {

/// The two failure kinds an operation can report.
///
/// Every fallible operation returns one of these as an explicit result value:
/// `NotFound` when a referenced property or matching listing does not exist,
/// `InsufficientBalance` when a requested amount exceeds the shares
/// available, an owner's balance, or what a listing offers. No operation
/// panics; on any error the state is left exactly as it was.
#[derive(Clone, Copy, Debug, PartialEq, Eq, Structural)]
pub enum LedgerError {
    NotFound,
    InsufficientBalance,
}

} // verus!
