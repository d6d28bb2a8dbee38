use vstd::prelude::*;

verus! {

/// Errors that the registry reports to its callers.
#[derive(Clone, Copy, Debug, PartialEq, Eq, PartialOrd, Ord, Structural)]
pub enum ContractError {
    /// A soulbound token cannot change hands, and an owner holds at most one
    /// token per credential.
    SoulboundNonTransferable,
}

impl ContractError {
    /// The numeric code under which the contract reports this error.
    pub fn code(&self) -> (c: u32)
        ensures
            c == 1,
    {
        match self {
            ContractError::SoulboundNonTransferable => 1,
        }
    }
}

} // verus!
