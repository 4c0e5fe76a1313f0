use kron_mesh::anti_bot::attestation::{
    datacenter_ipv4, is_datacenter_ipv4, min_cadence, min_duration_ns, miner_node_id,
    residential_ipv4, verify_hardware_authenticity, DeviceAttestation, ScoreFlag, SecurityError,
};
use kron_mesh::anti_bot::cadence::PacedVerifier;
use kron_mesh::anti_bot::profile::{DeviceClass, HardwareProfile};
use kron_mesh::anti_bot::reputation::{ipv4_to_slash24, ReputationLedger, START_SCORE};
use kron_mesh::anti_bot::validate_mining_cadence;
use kron_mesh::crypto::hash::{hex_hash, sha256, sha256_parts};
use kron_mesh::crypto::lattice::{
    centered_mod, expand_matrix, expand_matrix_sized, infinity_norm, matrix_vec,
    matrix_vec_scalar, CryptoError, LatticeKeyPair, LatticePublicKey, LatticeSecretKey,
    LatticeSignature, M, N, PK_LEN, Q, SCHEME_MLDSA44, SCHEME_TOY_LWE, SIG_LEN, SK_LEN,
};
use kron_mesh::crypto::mobile_only::{
    cache_looks_like_emulator, cloud_environment_from_pairs, enforce_device_attestation,
    enforce_observation, enforce_real_mobile, HostArch, HostObservation, ShieldError,
    CLOUD_ENV_KEYS,
};
use rand::rngs::StdRng;
use rand::SeedableRng;

#[test]
fn honest_phone_attestation_passes() {
    let miner = [7u8; 32];
    let att = DeviceAttestation::simulate_honest(
        &HardwareProfile::legacy_mobile(),
        miner,
        residential_ipv4(&miner),
        80_000,
    );
    let score = verify_hardware_authenticity(&att).unwrap();
    assert!(score.is_strong());
}

#[test]
fn vm_farm_is_rejected() {
    let miner = [9u8; 32];
    let att = DeviceAttestation::datacenter_bot(
        miner,
        DeviceClass::LegacyMobile,
        datacenter_ipv4(&miner),
    );
    let err = verify_hardware_authenticity(&att).unwrap_err();
    assert!(matches!(
        err,
        SecurityError::VirtualMachineFingerprint
            | SecurityError::EmulatorTiming
            | SecurityError::DatacenterCluster
            | SecurityError::ImpossibleCadence
    ));
}

#[test]
fn phone_burst_is_flagged() {
    let mut paced = PacedVerifier::new();
    let miner = [3u8; 32];
    let slow = 5_000_000u64;
    paced.commit_sample(miner, DeviceClass::LegacyMobile, slow, 0, false);
    paced.commit_sample(miner, DeviceClass::LegacyMobile, slow, 1, false);
    paced.commit_sample(miner, DeviceClass::LegacyMobile, slow, 2, false);
    let err = paced.preview(&miner, DeviceClass::LegacyMobile, 500, 3).unwrap_err();
    assert_eq!(err, SecurityError::ImpossibleCadence);
}

#[test]
fn datacenter_identities_are_stripped() {
    let ledger = ReputationLedger::new();
    let miner = [1u8; 32];
    let kept = ledger.filter_sybil_subnet(&[(miner, datacenter_ipv4(&miner))]);
    assert!(kept.is_empty());
}

#[test]
fn slash24_sybil_cap() {
    let ledger = ReputationLedger::new();
    let a = ([1u8; 32], [86, 10, 10, 1]);
    let b = ([2u8; 32], [86, 10, 10, 2]);
    let c = ([3u8; 32], [86, 10, 10, 3]);
    let kept = ledger.filter_sybil_subnet(&[a, b, c]);
    assert_eq!(kept.len(), 2);
}

#[test]
fn sign_verify_roundtrip() {
    let mut rng = StdRng::seed_from_u64(42);
    let kp = LatticeKeyPair::generate(&mut rng);
    let msg = b"iot-transfer-1";
    let sig = kp.sign(msg).expect("sign");
    assert!(kp.public.verify(msg, &sig));
    assert!(!kp.public.verify(b"tampered", &sig));
}

#[test]
fn encoding_roundtrip() {
    let mut rng = StdRng::seed_from_u64(7);
    let kp = LatticeKeyPair::generate(&mut rng);
    let sig = kp.sign(b"enc").unwrap();
    let pk2 = LatticePublicKey::from_bytes(&kp.public.to_bytes()).unwrap();
    let sk2 = LatticeSecretKey::from_bytes(&kp.secret.to_bytes()).ok().unwrap();
    let sig2 = LatticeSignature::from_bytes(&sig.to_bytes()).unwrap();
    assert_eq!(kp.public, pk2);
    assert!(kp.secret == sk2);
    assert_eq!(sig, sig2);
    assert!(pk2.verify(b"enc", &sig2));
    let restored = LatticeKeyPair { public: pk2, secret: sk2 };
    let sig3 = restored.sign(b"restored").unwrap();
    assert!(restored.public.verify(b"restored", &sig3));
}

#[test]
fn from_seed_is_deterministic() {
    let a = LatticeKeyPair::from_seed([0x4B; 32]);
    let b = LatticeKeyPair::from_seed([0x4B; 32]);
    assert_eq!(a.public, b.public);
    assert!(a.secret == b.secret);
    let other = LatticeKeyPair::from_seed([0x52; 32]);
    assert_ne!(a.public, other.public);
}

#[test]
fn many_signatures_verify() {
    let mut rng = StdRng::seed_from_u64(99);
    let kp = LatticeKeyPair::generate(&mut rng);
    for i in 0..12u32 {
        let msg = i.to_le_bytes();
        let sig = kp.sign(&msg).unwrap();
        assert!(kp.public.verify(&msg, &sig));
    }
}

#[test]
fn matrix_vec_matches_scalar_on_this_host() {
    let seed = [3u8; 32];
    let a = expand_matrix(&seed);
    let v: Vec<i64> = (0..N).map(|i| i as i64 - 8).collect();
    assert_eq!(matrix_vec(&a, &v), matrix_vec_scalar(&a, &v));
}

#[test]
fn toy_lwe_envelope_is_rejected() {
    let mut fake = vec![SCHEME_TOY_LWE];
    fake.extend_from_slice(&(32u32).to_le_bytes());
    fake.extend_from_slice(&[0u8; 32]);
    assert_eq!(LatticePublicKey::from_bytes(&fake).unwrap_err(), CryptoError::ObsoleteScheme);
    assert_eq!(LatticeSignature::from_bytes(&fake).unwrap_err(), CryptoError::ObsoleteScheme);
}

#[test]
fn x86_observation_is_critical() {
    let err = enforce_observation(&HostObservation::x86_emulator()).unwrap_err();
    assert!(err.is_critical());
    assert_eq!(err, ShieldError::PcArchitecture);
}

#[test]
fn cloud_pairs_fail_closed() {
    assert!(cloud_environment_from_pairs(&[("AWS_REGION", "us-east-1")]));
    assert!(cloud_environment_from_pairs(&[("KUBERNETES_SERVICE_HOST", "10.0.0.1")]));
    assert!(!cloud_environment_from_pairs(&[("PATH", "/usr/bin")]));
    assert!(!cloud_environment_from_pairs(&[("AWS_REGION", "")]));
}

#[test]
fn clean_cache_samples_look_like_emulator() {
    assert!(cache_looks_like_emulator(&[10, 10, 10, 10]));
    assert!(cache_looks_like_emulator(&[1, 2]));
    assert!(!cache_looks_like_emulator(&[100, 140, 90, 210, 130, 180, 70, 160]));
}

#[test]
fn this_windows_x86_host_is_rejected() {
    let arch = HostArch::detect("x86_64");
    assert!(arch.is_pc_class());
    let host = HostObservation::probe_this_process(
        arch,
        vec![100, 140, 90, 210, 130, 180, 70, 160],
        false,
    );
    let err = enforce_real_mobile(&host).unwrap_err();
    assert!(err.is_critical());
    assert_eq!(err, ShieldError::PcArchitecture);
}

#[test]
fn every_listed_cloud_key_is_a_cloud() {
    assert_eq!(CLOUD_ENV_KEYS.len(), 15);
    for key in CLOUD_ENV_KEYS {
        assert!(cloud_environment_from_pairs(&[("HOME", "/root"), (key, "x")]), "{key}");
    }
    assert!(!cloud_environment_from_pairs(&[]));
}

#[test]
fn hosts_are_refused_for_each_reason() {
    let good = vec![100, 140, 90, 210, 130, 180, 70, 160];
    let arm = HostArch::detect("aarch64");
    assert_eq!(arm, HostArch::Aarch64);
    assert_eq!(HostArch::detect("x86"), HostArch::X86);
    assert_eq!(HostArch::detect("riscv64"), HostArch::Other);
    assert_eq!(enforce_real_mobile(&HostObservation::probe_this_process(arm, good.clone(), false)), Ok(()));
    assert_eq!(
        enforce_real_mobile(&HostObservation::probe_this_process(arm, good.clone(), true)),
        Err(ShieldError::CloudEnvironment)
    );
    assert_eq!(
        enforce_real_mobile(&HostObservation::probe_this_process(arm, vec![5; 8], false)),
        Err(ShieldError::EmulatorTiming)
    );
    assert_eq!(
        enforce_real_mobile(&HostObservation::probe_this_process(HostArch::Other, good, false)),
        Err(ShieldError::PcArchitecture)
    );
    assert!(ShieldError::MinerModeRequired.is_critical());
    assert!(!ShieldError::AttachFailed.message().is_empty());
}

#[test]
fn device_attestations_pass_the_same_gate() {
    let miner = [21u8; 32];
    let phone = DeviceAttestation::simulate_honest(
        &HardwareProfile::smartphone(),
        miner,
        residential_ipv4(&miner),
        80_000,
    );
    assert_eq!(enforce_device_attestation(&phone), Ok(()));
    let bot = DeviceAttestation::datacenter_bot(
        miner,
        DeviceClass::LegacyMobile,
        datacenter_ipv4(&miner),
    );
    assert!(enforce_device_attestation(&bot).is_err());
    let desk = DeviceAttestation::simulate_honest(
        &HardwareProfile::personal_computer(),
        miner,
        residential_ipv4(&miner),
        80_000,
    );
    assert_eq!(enforce_device_attestation(&desk), Err(ShieldError::DatacenterClass));
}

#[test]
fn digests_match_the_published_vectors() {
    let abc = sha256(b"abc");
    assert_eq!(
        hex_hash(&abc),
        "ba7816bf8f01cfea414140de5dae2223b00361a396177a9cb410ff61f20015ad"
    );
    let parts: [&[u8]; 2] = [b"a", b"bc"];
    assert_eq!(sha256_parts(&parts), abc);
    assert_eq!(
        hex_hash(&sha256(b"")),
        "e3b0c44298fc1c149afbf4c8996fb92427ae41e4649b934ca495991b7852b855"
    );
}

#[test]
fn envelopes_name_their_faults() {
    let kp = LatticeKeyPair::from_seed([5; 32]);
    let pk = kp.public.to_bytes();
    assert_eq!(pk.len(), 1 + 4 + PK_LEN);
    assert_eq!(pk[0], SCHEME_MLDSA44);
    assert_eq!(kp.secret.to_bytes().len(), 1 + 4 + SK_LEN);
    assert_eq!(kp.sign(b"m").unwrap().to_bytes().len(), 1 + 4 + SIG_LEN);
    assert_eq!(LatticePublicKey::from_bytes(&[]).unwrap_err(), CryptoError::InvalidEncoding);
    assert_eq!(
        LatticePublicKey::from_bytes(&pk[..pk.len() - 1]).unwrap_err(),
        CryptoError::InvalidEncoding
    );
    let mut other = pk.clone();
    other[0] = 9;
    assert_eq!(LatticePublicKey::from_bytes(&other).unwrap_err(), CryptoError::InvalidEncoding);
    assert_eq!(LatticePublicKey::encoded_len(&pk, 0).unwrap(), pk.len());
    assert!(!kp.public.verify(b"m", &LatticeSignature::empty()));
    assert!(kp.public.same_as(&kp.public.clone()));
    assert_eq!(kp.public.address(), sha256(&pk));
    assert!(CryptoError::VerifyFailed.message().contains("ML-DSA"));
    assert!(CryptoError::SigningAborted(3).message().contains("3"));
}

#[test]
fn lattice_arithmetic_is_exact() {
    assert_eq!(centered_mod(7, 5), 2);
    assert_eq!(centered_mod(8, 5), -2);
    assert_eq!(centered_mod(-7, 5), -2);
    assert_eq!(infinity_norm(&[3, -9, 4]), 9);
    assert_eq!(infinity_norm(&[]), 0);
    let a = expand_matrix(&[1; 32]);
    assert_eq!(a.len(), M);
    assert!(a.iter().all(|row| row.len() == N && row.iter().all(|x| *x >= 0 && *x < Q)));
    let small = expand_matrix_sized(&[1; 32], 2, 3);
    assert_eq!(small.len(), 2);
    assert_eq!(small[0].len(), 3);
    assert_eq!(matrix_vec_scalar(&[vec![1, 2], vec![3, 4]], &[5, -6]), vec![-7, -9]);
}

#[test]
fn attestation_bytes_come_back() {
    let miner = [13u8; 32];
    let att = DeviceAttestation::simulate_honest(
        &HardwareProfile::iot_sensor(),
        miner,
        residential_ipv4(&miner),
        90_000,
    );
    let bytes = att.to_bytes();
    let (back, used) = DeviceAttestation::from_bytes(&bytes).unwrap();
    assert_eq!(used, bytes.len());
    assert_eq!(back, att);
    assert_eq!(
        DeviceAttestation::from_bytes(&bytes[..10]).unwrap_err(),
        SecurityError::AttestationInvalid
    );
    let mut edited = att.clone();
    edited.logical_cores += 1;
    assert_eq!(
        verify_hardware_authenticity(&edited).unwrap_err(),
        SecurityError::AttestationInvalid
    );
    edited.seal_quote();
    let parts: [&[u8]; 2] = [b"tee-quote-v1", &edited.canonical_bytes()];
    assert_eq!(edited.quote, sha256_parts(&parts));
}

#[test]
fn classes_and_limits() {
    for class in
        [DeviceClass::IotSensor, DeviceClass::LegacyMobile, DeviceClass::PersonalComputer]
    {
        assert_eq!(DeviceClass::from_u8(class.to_u8()), Some(class));
        assert_eq!(min_cadence(class), min_duration_ns(class));
    }
    assert_eq!(DeviceClass::from_u8(77), None);
    assert!(DeviceClass::LegacyMobile.is_phone_miner());
    assert!(!DeviceClass::PersonalComputer.is_phone_miner());
    assert!(is_datacenter_ipv4(datacenter_ipv4(&[4u8; 32])));
    assert!(!is_datacenter_ipv4(residential_ipv4(&[4u8; 32])));
    assert_eq!(ipv4_to_slash24([1, 2, 3, 4]), 0x0102_0300);
    assert_eq!(ScoreFlag::LowJitter.as_str().is_empty(), false);
    assert!(!SecurityError::SybilSubnet.message().is_empty());
    assert_eq!(HardwareProfile::personal_computer().class, DeviceClass::PersonalComputer);
    assert_eq!(HardwareProfile::smartphone().class, DeviceClass::LegacyMobile);
}

#[test]
fn burst_quarantines_and_time_heals() {
    let mut paced = PacedVerifier::new();
    let miner = [8u8; 32];
    assert_eq!(paced.preview(&miner, DeviceClass::IotSensor, 5_000_000, 0), Ok(()));
    paced.commit_sample(miner, DeviceClass::IotSensor, 500, 0, true);
    assert_eq!((paced.bot_flags(&miner), paced.pace_bump(&miner)), (1, 2));
    assert!(!paced.is_quarantined(&miner, 1));
    paced.commit_sample(miner, DeviceClass::IotSensor, 500, 0, true);
    assert!(paced.is_quarantined(&miner, 1));
    assert_eq!(
        paced.preview(&miner, DeviceClass::IotSensor, 5_000_000, 1),
        Err(SecurityError::Quarantined)
    );
    assert_eq!((paced.bot_flags(&miner), paced.pace_bump(&miner)), (2, 6));
    assert!(!paced.is_quarantined(&miner, 100));
    let node = miner_node_id(&miner);
    assert!(!validate_mining_cadence(&mut paced, node, 1));
}

#[test]
fn reputation_moves_with_behaviour() {
    let miner = [6u8; 32];
    let ip = residential_ipv4(&miner);
    let att = DeviceAttestation::simulate_honest(
        &HardwareProfile::legacy_mobile(),
        miner,
        ip,
        80_000,
    );
    let score = verify_hardware_authenticity(&att).unwrap();
    let mut ledger = ReputationLedger::new();
    assert_eq!(ledger.score_of(&miner), START_SCORE);
    assert!(ledger.get(&miner).is_none());
    ledger.apply_score(miner, DeviceClass::LegacyMobile, ip, &score);
    let up = ledger.score_of(&miner);
    assert!(up >= START_SCORE);
    assert_eq!(ledger.get(&miner).unwrap().last_authenticity, score.authenticity);
    ledger.penalize(miner, DeviceClass::LegacyMobile, ip, true);
    assert!(ledger.score_of(&miner) < up);
    assert_eq!(ledger.get(&miner).unwrap().subnet, ipv4_to_slash24(ip));
}

#[test]
fn quotes_are_read_from_a_stream_and_never_when_cut() {
    let miner = [3u8; 32];
    let att = DeviceAttestation::simulate_honest(
        &HardwareProfile::legacy_mobile(),
        miner,
        residential_ipv4(&miner),
        80_000,
    );
    let bytes = att.to_bytes();
    let mut stream = bytes.clone();
    stream.extend_from_slice(&[0xEE; 9]);
    let (back, used) = DeviceAttestation::from_bytes(&stream).unwrap();
    assert_eq!(back, att);
    assert_eq!(used, bytes.len());
    for k in 0..bytes.len() {
        assert_eq!(
            DeviceAttestation::from_bytes(&bytes[..k]).unwrap_err(),
            SecurityError::AttestationInvalid
        );
    }
}
