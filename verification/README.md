# quorum_contracts

Verified logic of two Soroban contracts of the QuorumProof platform:

- a soulbound token registry (`SbtRegistryContract`): minting one
  non-transferable token per (owner, credential), reading tokens and each
  owner's list, refusing transfers, and burning;
- a claim verifier (`ZkVerifierContract`): building proof requests and
  checking proofs.

Layout:

- `src/registry.rs` — the registry state, its view as plain maps
  (`RegistryState`), the effect of each call on that view (`RegistryCall`,
  `step`, `run`), and the operations with their contracts;
- `src/laws.rs` — properties of the registry proved over `RegistryState`
  (consistency kept by every operation, read-after-mint, one live token per
  credential and re-minting after a burn, consecutive identifiers, burn
  removes the token, and over any sequence of calls: identifiers never
  reused, tokens and owners unchanged while they exist);
- `src/assoc.rs` — the map that a list of keyed entries stands for, and
  the lemmas for updating, appending and removing an entry;
- `src/zk.rs`, `src/address.rs`, `src/error.rs` — the verifier, addresses as
  bytes, and the error type;
- `app/` — the Soroban contracts themselves: host storage, authorisation,
  events and upgrades, calling the library for every decision;
- `tests/` — tests of the library on concrete values.

Scope: the library holds the registry and the verifier. The platform's
credential and quorum-slice contract (issuing, revocation, attestation) is
not part of it.
