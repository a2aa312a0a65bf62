//! The mutation gate: optional optimistic-concurrency check, then the drift check, then
//! full validation when the vault drifted from its manifest.
//!
//! Given the checksum of the state a caller works from, a mutation is allowed only if
//! the manifest still records that checksum.

use vstd::prelude::*;

use crate::checksum::{checksum_of, is_drifted};
use crate::error::{DomainError, DomainFailure};
use crate::invariants::{validate_vault, vault_violations};
use crate::ports::MutationGate;
use crate::types::{Vault, VaultView};

verus! {

/// The mutation gate's answer for vault `v`, given the checksum `expected` of the
/// caller's state.
pub open spec fn gate_outcome(v: VaultView, expected: Option<Seq<char>>) -> Option<DomainFailure> {
    match expected {
        Some(e) if v.manifest.checksum != e => Some(
            DomainFailure::StaleState { expected: e, actual: v.manifest.checksum },
        ),
        _ => if checksum_of(v) == v.manifest.checksum {
            None
        } else if vault_violations(v).len() == 0 {
            None
        } else {
            Some(DomainFailure::RemediationRequired(vault_violations(v).len() as usize))
        },
    }
}

pub open spec fn opt_str(s: Option<&str>) -> Option<Seq<char>> {
    match s {
        Some(t) => Some(t@),
        None => None,
    }
}

pub open spec fn unit_result(r: Result<(), DomainError>) -> Option<DomainFailure> {
    match r {
        Ok(_) => None,
        Err(e) => Some(e@),
    }
}

/// Whether a mutation may proceed: `StaleState` when the client's checksum is not the
/// manifest's, `RemediationRequired` with the violation count when the vault drifted
/// and is invalid, `Ok` otherwise.
pub fn mutation_gate(vault: &Vault, expected_checksum: Option<&str>) -> (r: Result<(), DomainError>)
    ensures
        unit_result(r) == gate_outcome(vault@, opt_str(expected_checksum)),
{
    if let Some(exp) = expected_checksum {
        let e = exp.to_owned();
        if vault.manifest.checksum != e {
            return Err(DomainError::StaleState { expected: e, actual: vault.manifest.checksum.clone() });
        }
    }
    if !is_drifted(vault) {
        return Ok(());
    }
    let violations = validate_vault(vault);
    proof {
        assert(crate::invariants::violations_view(violations@).len() == violations@.len());
    }
    if violations.len() == 0 {
        Ok(())
    } else {
        Err(DomainError::RemediationRequired(violations.len()))
    }
}

impl MutationGate for Vault {
    fn allow_mutation(&self, expected_checksum: Option<String>) -> (r: Result<(), DomainError>)
        ensures
            unit_result(r) == gate_outcome(
                self@,
                match expected_checksum {
                    Some(e) => Some(e@),
                    None => None,
                },
            ),
    {
        match &expected_checksum {
            Some(e) => mutation_gate(self, Some(e.as_str())),
            None => mutation_gate(self, None),
        }
    }
}

} // verus!
