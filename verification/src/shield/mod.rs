//! The phone-only shield, as callers import it.

pub use crate::crypto::mobile_only::{
    cache_looks_like_emulator, cloud_environment_from_pairs, enforce_device_attestation,
    enforce_observation, enforce_real_mobile, HostArch, HostObservation, ShieldError,
    CLOUD_ENV_KEYS,
};
