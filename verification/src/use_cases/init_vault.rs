//! InitVault: the state of a new vault (genesis manifest, empty graph, empty names).
//! Nothing is read; the adapter writes the returned manifest and graph, and an empty
//! name index.

use vstd::prelude::*;

use crate::events::VaultInitialized;
use crate::ids::new_uuid;
use crate::types::{BlockGraph, Manifest};

verus! {

/// The checksum of a vault with no blocks, edges or documents: the SHA-256 of empty
/// input.
pub const GENESIS_CHECKSUM: &'static str = "sha256:e3b0c44298fc1c149afbf4c8996fb92427ae41e4649b934ca495991b7852b855";

/// The genesis state of a vault.
pub struct InitVaultResult {
    pub manifest: Manifest,
    pub graph: BlockGraph,
    pub event: VaultInitialized,
}

/// Produce the genesis vault state, with the given vault id or a fresh random one.
pub fn execute(vault_id: Option<u128>) -> (r: InitVaultResult)
    ensures
        vault_id matches Some(id) ==> r.manifest.vault_id == id,
        r.event.vault_id == r.manifest.vault_id,
        r.manifest.spec_version@ == "0.1.0"@,
        r.manifest.format@ == "markdown"@,
        r.manifest.checksum@ == GENESIS_CHECKSUM@,
        r.manifest.previous_checksum is None,
        r.graph.version@ == "0.1.0"@,
        r.graph.edges@.len() == 0,
{
    let vault_id = match vault_id {
        Some(id) => id,
        None => new_uuid(),
    };
    let manifest = Manifest {
        vault_id,
        spec_version: "0.1.0".to_owned(),
        format: "markdown".to_owned(),
        checksum: GENESIS_CHECKSUM.to_owned(),
        previous_checksum: None,
    };
    let graph = BlockGraph { version: "0.1.0".to_owned(), edges: Vec::new() };
    InitVaultResult { manifest, graph, event: VaultInitialized { vault_id } }
}

} // verus!
