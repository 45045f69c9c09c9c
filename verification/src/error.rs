//! What can go wrong in the ledger.

use vstd::prelude::*;
use vstd::string::StringExecFns;

verus! {

/// The outcomes that the ledger reports instead of a result. None of them
/// leaves a portfolio changed.
#[derive(Clone, Copy, Debug, PartialEq, Eq, Structural)]
pub enum LedgerError {
    /// No envelope has the name that was looked up.
    UnknownEnvelope,
    /// An envelope with this name, or a reserved name, exists already.
    DuplicateName,
    /// The envelope is the default envelope or a reserved one.
    NotRemovable,
    /// The amount does not exceed what a paycheck has to exceed.
    InsufficientPaycheck,
    /// A stored transaction does not have the form of a transaction token.
    MalformedTransactionToken,
    /// A date or an amount of money could not be read.
    ParseFailure,
    /// A balance or a total would be more than an amount can hold.
    AmountOutOfRange,
    /// The weights of a weighted split add up to zero.
    ZeroWeight,
}

impl LedgerError {
    /// A short description of the error.
    pub fn to_string(&self) -> (s: String)
        ensures
            s@ == self.description(),
    {
        match self {
            LedgerError::UnknownEnvelope => String::from_str("unknown envelope"),
            LedgerError::DuplicateName => String::from_str("duplicate envelope name"),
            LedgerError::NotRemovable => String::from_str("envelope cannot be removed"),
            LedgerError::InsufficientPaycheck => String::from_str("insufficient paycheck"),
            LedgerError::MalformedTransactionToken => String::from_str(
                "malformed transaction token",
            ),
            LedgerError::ParseFailure => String::from_str("text could not be read"),
            LedgerError::AmountOutOfRange => String::from_str("amount out of range"),
            LedgerError::ZeroWeight => String::from_str("weights add up to zero"),
        }
    }

    /// The text of `to_string`.
    pub open spec fn description(&self) -> Seq<char> {
        match self {
            LedgerError::UnknownEnvelope => "unknown envelope"@,
            LedgerError::DuplicateName => "duplicate envelope name"@,
            LedgerError::NotRemovable => "envelope cannot be removed"@,
            LedgerError::InsufficientPaycheck => "insufficient paycheck"@,
            LedgerError::MalformedTransactionToken => "malformed transaction token"@,
            LedgerError::ParseFailure => "text could not be read"@,
            LedgerError::AmountOutOfRange => "amount out of range"@,
            LedgerError::ZeroWeight => "weights add up to zero"@,
        }
    }
}

} // verus!
