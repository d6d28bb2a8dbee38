mod address;
mod assoc;
mod error;

pub use address::Address;
pub use error::ContractError;
mod registry;

pub use registry::{RegistryCall, RegistryState, SbtRegistryContract, SoulboundToken, TokenView};
mod zk;

pub use zk::{ClaimType, ProofRequest, ZkVerifierContract};
pub mod laws;
