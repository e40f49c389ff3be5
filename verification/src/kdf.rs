//! Key-derivation parameters recorded for the backing file, and the fixed
//! policy that classifies a parameter set as weak.

use vstd::prelude::*;

use crate::data::KdfInfo;

verus! {

/// The key-derivation function configured for the backing file, as plain
/// values.  The binary codec owns the real configuration; the store keeps
/// only what the policy reads.
#[derive(Clone, Copy, PartialEq, Eq, Structural)]
pub enum KdfParams {
    Aes { rounds: u64 },
    Argon2 { iterations: u64, memory: u64, parallelism: u32 },
    Argon2id { iterations: u64, memory: u64, parallelism: u32 },
}

/// Whether a parameter set falls below the fixed strength thresholds:
/// fewer than 60000 rounds for AES; for the Argon2 family, fewer than 2
/// iterations, less than 64 MiB of memory (`memory` is in bytes), or fewer
/// than 2 lanes.
pub open spec fn spec_kdf_is_weak(k: KdfParams) -> bool {
    match k {
        KdfParams::Aes { rounds } => rounds < 60000,
        KdfParams::Argon2 { iterations, memory, parallelism } => iterations < 2
            || memory / 0x100000 < 64 || parallelism < 2,
        KdfParams::Argon2id { iterations, memory, parallelism } => iterations < 2
            || memory / 0x100000 < 64 || parallelism < 2,
    }
}

/// The parameters written when a database is created or its derivation is
/// upgraded: Argon2id with 2 iterations, 64 MiB, 2 lanes.
pub open spec fn spec_strong_kdf() -> KdfParams {
    KdfParams::Argon2id { iterations: 2, memory: (64 * 0x100000) as u64, parallelism: 2 }
}

/// The strong default parameter set.
pub fn strong_kdf() -> (r: KdfParams)
    ensures
        r == spec_strong_kdf(),
{
    KdfParams::Argon2id { iterations: 2, memory: 67108864, parallelism: 2 }
}

/// What `get_kdf_info` reports for a parameter set, as a predicate over the
/// returned record.
pub open spec fn kdf_info_matches(r: KdfInfo, k: KdfParams) -> bool {
    &&& r.is_weak == spec_kdf_is_weak(k)
    &&& match k {
        KdfParams::Aes { rounds } => {
            &&& r.kdf_type@ == "AES"@
            &&& r.iterations == Some(rounds)
            &&& r.memory is None
            &&& r.parallelism is None
        },
        KdfParams::Argon2 { iterations, memory, parallelism } => {
            &&& r.kdf_type@ == "Argon2d"@
            &&& r.iterations == Some(iterations)
            &&& r.memory == Some(memory)
            &&& r.parallelism == Some(parallelism)
        },
        KdfParams::Argon2id { iterations, memory, parallelism } => {
            &&& r.kdf_type@ == "Argon2id"@
            &&& r.iterations == Some(iterations)
            &&& r.memory == Some(memory)
            &&& r.parallelism == Some(parallelism)
        },
    }
}

/// Builds the report for a parameter set.
pub fn kdf_info_of(k: &KdfParams) -> (r: KdfInfo)
    ensures
        kdf_info_matches(r, *k),
{
    match k {
        KdfParams::Aes { rounds } => KdfInfo {
            kdf_type: String::from_str("AES"),
            is_weak: *rounds < 60000,
            iterations: Some(*rounds),
            memory: None,
            parallelism: None,
        },
        KdfParams::Argon2 { iterations, memory, parallelism } => {
            let memory_mb = *memory / 0x100000;
            KdfInfo {
                kdf_type: String::from_str("Argon2d"),
                is_weak: *iterations < 2 || memory_mb < 64 || *parallelism < 2,
                iterations: Some(*iterations),
                memory: Some(*memory),
                parallelism: Some(*parallelism),
            }
        },
        KdfParams::Argon2id { iterations, memory, parallelism } => {
            let memory_mb = *memory / 0x100000;
            KdfInfo {
                kdf_type: String::from_str("Argon2id"),
                is_weak: *iterations < 2 || memory_mb < 64 || *parallelism < 2,
                iterations: Some(*iterations),
                memory: Some(*memory),
                parallelism: Some(*parallelism),
            }
        },
    }
}

} // verus!
