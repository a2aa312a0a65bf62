//! The commit boundary: the manifest a commit writes after its writes are applied.
//! Without it the vault is inconsistent (computed checksum ≠ manifest).

use vstd::prelude::*;

use crate::checksum::{checksum_of, compute, law_checksum_ignores_timestamps, same_sources};
use crate::journal::{apply_writes, lemma_writes_keep_manifest};
use crate::ports::ManifestStore;
use crate::results::WriteView;
use crate::types::{Manifest, ManifestView, Vault, VaultView};

verus! {

/// The manifest that records `v` as the new commit point: its checksum is the vault's
/// computed checksum and the previous checksum is the one the manifest held. A commit
/// always sets the previous checksum; only the genesis manifest has none.
pub open spec fn committed(v: VaultView) -> ManifestView {
    ManifestView {
        checksum: checksum_of(v),
        previous_checksum: Some(v.manifest.checksum),
        ..v.manifest
    }
}

/// The manifest to persist after the writes of a commit were applied to `vault`.
pub fn committed_manifest(vault: &Vault) -> (r: Manifest)
    ensures
        r@ == committed(vault@),
{
    let new_checksum = compute(vault);
    let mut manifest = vault.manifest.clone();
    let old_checksum = manifest.checksum.clone();
    manifest.previous_checksum = Some(old_checksum);
    manifest.checksum = new_checksum;
    manifest
}

/// Persist the manifest with the current vault state as the new commit point. Call
/// after the writes are applied.
pub fn write_manifest_after_writes<S: ManifestStore>(vault: &Vault, store: &S) {
    let manifest = committed_manifest(vault);
    store.write(&manifest);
}


/// A committed vault is not drifted: once the commit's manifest is in place, the
/// checksum it records is the vault's computed checksum, and it remembers the checksum
/// it replaced.
pub proof fn law_committed_vault_not_drifted(v: VaultView)
    ensures
        ({
            let c = VaultView { manifest: committed(v), ..v };
            &&& checksum_of(c) == c.manifest.checksum
            &&& c.manifest.previous_checksum == Some(v.manifest.checksum)
        }),
{
    let c = VaultView { manifest: committed(v), ..v };
    assert(same_sources(v.blocks, c.blocks));
    law_checksum_ignores_timestamps(v, c);
}


/// Commits chain: when a second commit follows the first, the second manifest's
/// previous checksum is the checksum the first recorded, which is the computed checksum
/// of the vault the first commit left; and the second records its own vault's checksum.
pub proof fn law_commits_chain(v: VaultView, first: Seq<WriteView>, second: Seq<WriteView>)
    ensures
        ({
            let a = apply_writes(v, first);
            let c1 = VaultView { manifest: committed(a), ..a };
            let b = apply_writes(c1, second);
            let c2 = VaultView { manifest: committed(b), ..b };
            &&& c2.manifest.previous_checksum == Some(c1.manifest.checksum)
            &&& c1.manifest.checksum == checksum_of(c1)
            &&& c2.manifest.checksum == checksum_of(c2)
        }),
{
    let a = apply_writes(v, first);
    let c1 = VaultView { manifest: committed(a), ..a };
    let b = apply_writes(c1, second);
    law_committed_vault_not_drifted(a);
    law_committed_vault_not_drifted(b);
    lemma_writes_keep_manifest(c1, second);
}

} // verus!
