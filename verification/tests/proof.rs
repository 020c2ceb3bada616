use entangled_substrate::attestation::{
    expiry_after, issue_with_seed, signature_verdict, VALIDITY_WINDOW_SECS,
};
use entangled_substrate::clock::seconds_or_zero;
use entangled_substrate::commitment::state_commitment;
use entangled_substrate::wire::{
    encode_message, encode_proof, MESSAGE_SIZE, ML_DSA_65_PK_SIZE, ML_DSA_65_SIG_SIZE,
    PUBLIC_KEY_END, STATE_COMMITMENT_SIZE, TOTAL_WIRE_SIZE,
};
use entangled_substrate::{issue_proof, unix_now, SovereignProofView, SubstrateError};
use ml_dsa::{Generate, KeyExport, Keypair, MlDsa65, Signer, SigningKey};
use sha3::{Digest, Sha3_256};

fn build_proof(valid_until: u64) -> Vec<u8> {
    let lineage_id: u64 = 42;
    let block_height: u64 = 100;

    let mut hasher = Sha3_256::new();
    hasher.update(lineage_id.to_be_bytes());
    hasher.update(block_height.to_be_bytes());
    hasher.update(b"guzcom-sovereign-state-v1");
    let state_commitment: [u8; 32] = hasher.finalize().into();

    let signing_key = SigningKey::<MlDsa65>::generate();
    let verifying_key = signing_key.verifying_key();

    let mut message = Vec::new();
    message.extend_from_slice(&lineage_id.to_be_bytes());
    message.extend_from_slice(&block_height.to_be_bytes());
    message.extend_from_slice(&valid_until.to_be_bytes());
    message.extend_from_slice(&state_commitment);

    let signature = signing_key.sign(&message);
    let pk_bytes = verifying_key.to_bytes();
    let sig_bytes = signature.encode();

    let mut wire_buffer = Vec::with_capacity(TOTAL_WIRE_SIZE);
    wire_buffer.extend_from_slice(&lineage_id.to_be_bytes());
    wire_buffer.extend_from_slice(&block_height.to_be_bytes());
    wire_buffer.extend_from_slice(&valid_until.to_be_bytes());
    wire_buffer.extend_from_slice(&state_commitment);
    wire_buffer.extend_from_slice(pk_bytes.as_ref());
    wire_buffer.extend_from_slice(sig_bytes.as_ref());
    wire_buffer
}

#[test]
fn valid_proof_roundtrips_and_verifies() {
    let valid_until = unix_now() + 300;
    let wire = build_proof(valid_until);
    let view = SovereignProofView::try_from_bytes(&wire)
        .expect("parse should succeed");
    assert_eq!(view.lineage_id, 42);
    assert_eq!(view.block_height, 100);
    assert_eq!(view.valid_until, valid_until);
    view.verify().expect("valid, unexpired proof should verify");
}

#[test]
fn tampered_signature_is_rejected() {
    let valid_until = unix_now() + 300;
    let mut wire = build_proof(valid_until);
    // Flip a byte inside the signature.
    let sig_offset = 8 + 8 + 8 + STATE_COMMITMENT_SIZE + ML_DSA_65_PK_SIZE;
    wire[sig_offset] ^= 0xFF;
    let view = SovereignProofView::try_from_bytes(&wire)
        .expect("parse should still succeed structurally");
    let result = view.verify();
    assert!(result.is_err(), "tampered signature must not verify");
}

#[test]
fn tampered_message_is_rejected() {
    let valid_until = unix_now() + 300;
    let mut wire = build_proof(valid_until);
    // Flip a byte in block_height, which is covered by the signature.
    wire[8] ^= 0xFF;
    let view = SovereignProofView::try_from_bytes(&wire)
        .expect("parse should still succeed structurally");
    let result = view.verify();
    assert!(result.is_err(), "tampered signed field must not verify");
}

#[test]
fn expired_proof_is_rejected() {
    // valid_until is in the past.
    let valid_until = unix_now().saturating_sub(60);
    let wire = build_proof(valid_until);
    let view = SovereignProofView::try_from_bytes(&wire)
        .expect("parse should succeed");
    let result = view.verify();
    match result {
        Err(SubstrateError::ProofExpired { .. }) => {}
        other => panic!("expected ProofExpired, got {other:?}"),
    }
}

#[test]
fn wire_sizes_are_those_of_the_format() {
    assert_eq!(MESSAGE_SIZE, 56);
    assert_eq!(PUBLIC_KEY_END, 2008);
    assert_eq!(TOTAL_WIRE_SIZE, 5317);
    assert_eq!(build_proof(0).len(), TOTAL_WIRE_SIZE);
}

#[test]
fn short_buffers_are_refused() {
    for len in [0, 1, 55, 56, 2008, TOTAL_WIRE_SIZE - 1] {
        let raw = vec![0u8; len];
        match SovereignProofView::try_from_bytes(&raw) {
            Err(SubstrateError::BufferUnderflow { expected, found }) => {
                assert_eq!(expected, TOTAL_WIRE_SIZE);
                assert_eq!(found, len);
            }
            _ => panic!("a buffer of {len} bytes must be refused"),
        }
    }
}

#[test]
fn fields_are_read_from_their_places() {
    let raw: Vec<u8> = (0..TOTAL_WIRE_SIZE + 10).map(|i| (i % 251) as u8).collect();
    let view = SovereignProofView::try_from_bytes(&raw).unwrap();
    assert_eq!(view.lineage_id, 0x0001020304050607);
    assert_eq!(view.block_height, 0x08090a0b0c0d0e0f);
    assert_eq!(view.valid_until, 0x1011121314151617);
    assert_eq!(&view.state_commitment[..], &raw[24..56]);
    assert_eq!(view.public_key_slice, &raw[56..2008]);
    assert_eq!(view.signature_slice, &raw[2008..5317]);
    assert_eq!(view.raw_message_ctx.as_slice(), &raw[..56]);
}

#[test]
fn every_part_is_borrowed_from_the_buffer() {
    let raw = vec![3u8; TOTAL_WIRE_SIZE];
    let view = SovereignProofView::try_from_bytes(&raw).unwrap();
    assert!(std::ptr::eq(view.raw_message_ctx.as_slice(), &raw[..56]));
    assert!(std::ptr::eq(&view.state_commitment[..], &raw[24..56]));
    assert!(std::ptr::eq(view.public_key_slice, &raw[56..2008]));
    assert!(std::ptr::eq(view.signature_slice, &raw[2008..5317]));
}

#[test]
fn written_proof_reads_back() {
    let commitment = [9u8; STATE_COMMITMENT_SIZE];
    let key = vec![1u8; ML_DSA_65_PK_SIZE];
    let signature = vec![2u8; ML_DSA_65_SIG_SIZE];
    let wire = encode_proof(u64::MAX, 0, 256, &commitment, &key, &signature);
    assert_eq!(wire.len(), TOTAL_WIRE_SIZE);
    let view = SovereignProofView::try_from_bytes(&wire).unwrap();
    assert_eq!(view.lineage_id, u64::MAX);
    assert_eq!(view.block_height, 0);
    assert_eq!(view.valid_until, 256);
    assert_eq!(view.state_commitment, &commitment);
    assert_eq!(view.public_key_slice, &key[..]);
    assert_eq!(view.signature_slice, &signature[..]);
    assert_eq!(
        view.raw_message_ctx.as_slice(),
        &encode_message(u64::MAX, 0, 256, &commitment)[..]
    );
    let again = encode_proof(
        view.lineage_id,
        view.block_height,
        view.valid_until,
        &view.state_commitment[..],
        view.public_key_slice,
        view.signature_slice,
    );
    assert_eq!(again, wire);
}

#[test]
fn message_is_big_endian() {
    let message = encode_message(1, 2, 0x0102030405060708, &[7; 3]);
    let mut expected = vec![0, 0, 0, 0, 0, 0, 0, 1, 0, 0, 0, 0, 0, 0, 0, 2];
    expected.extend_from_slice(&[1, 2, 3, 4, 5, 6, 7, 8, 7, 7, 7]);
    assert_eq!(message, expected);
}

#[test]
fn bytes_after_a_proof_are_ignored() {
    let mut wire = build_proof(1000);
    wire.extend_from_slice(&[0xFF; 100]);
    let view = SovereignProofView::try_from_bytes(&wire).unwrap();
    assert!(view.verify_at(1000).is_ok());
}

#[test]
fn arbitrary_bytes_never_verify_and_never_panic() {
    let mut state: u64 = 7;
    for _ in 0..20 {
        let raw: Vec<u8> = (0..TOTAL_WIRE_SIZE)
            .map(|_| {
                state = state.wrapping_mul(6364136223846793005).wrapping_add(1442695040888963407);
                (state >> 56) as u8
            })
            .collect();
        let view = SovereignProofView::try_from_bytes(&raw).unwrap();
        assert!(view.verify_at(0).is_err());
    }
}

#[test]
fn commitment_is_sha3_of_lineage_height_and_tag() {
    let expected: [u8; 32] = [
        202, 58, 142, 202, 57, 44, 165, 4, 205, 1, 130, 131, 200, 40, 204, 186, 172, 4, 25, 166,
        92, 103, 235, 96, 110, 124, 185, 199, 174, 92, 141, 89,
    ];
    assert_eq!(state_commitment(42, 100), expected);
    assert_ne!(state_commitment(42, 101), expected);
    assert_ne!(state_commitment(43, 100), expected);
}

#[test]
fn proof_is_valid_up_to_its_expiry() {
    let wire = build_proof(1000);
    let view = SovereignProofView::try_from_bytes(&wire).unwrap();
    assert!(view.check_signature().is_ok());
    assert!(view.verify_at(0).is_ok());
    assert!(view.verify_at(1000).is_ok());
    match view.verify_at(1001) {
        Err(SubstrateError::ProofExpired { valid_until, now }) => {
            assert_eq!(valid_until, 1000);
            assert_eq!(now, 1001);
        }
        _ => panic!("the proof has expired"),
    }
    assert!(view.check_expiry(1000).is_ok());
    assert!(view.check_expiry(1001).is_err());
}

#[test]
fn bad_signature_is_reported_before_expiry() {
    let mut wire = build_proof(1000);
    wire[0] ^= 1;
    let view = SovereignProofView::try_from_bytes(&wire).unwrap();
    assert!(matches!(
        view.verify_at(2000),
        Err(SubstrateError::CryptographicAttestationFailed)
    ));
}

#[test]
fn undecodable_signature_is_reported() {
    let mut wire = build_proof(1000);
    // A hint of all ones has too many entries.
    for byte in &mut wire[PUBLIC_KEY_END..] {
        *byte = 0xFF;
    }
    let view = SovereignProofView::try_from_bytes(&wire).unwrap();
    assert!(matches!(
        view.verify_at(0),
        Err(SubstrateError::InvalidLatticeSignature)
    ));
}

#[test]
fn wrong_lengths_are_reported() {
    let wire = build_proof(1000);
    let mut view = SovereignProofView::try_from_bytes(&wire).unwrap();
    view.signature_slice = &wire[PUBLIC_KEY_END..TOTAL_WIRE_SIZE - 1];
    assert!(matches!(
        view.verify_at(0),
        Err(SubstrateError::InvalidLatticeSignature)
    ));
    view.public_key_slice = &wire[MESSAGE_SIZE..PUBLIC_KEY_END - 1];
    assert!(matches!(
        view.verify_at(0),
        Err(SubstrateError::InvalidLatticePublicKey)
    ));
}

#[test]
fn verdict_names_the_first_thing_wrong() {
    assert!(signature_verdict(true, true, true).is_ok());
    assert!(matches!(
        signature_verdict(false, false, false),
        Err(SubstrateError::InvalidLatticePublicKey)
    ));
    assert!(matches!(
        signature_verdict(true, false, true),
        Err(SubstrateError::InvalidLatticeSignature)
    ));
    assert!(matches!(
        signature_verdict(true, true, false),
        Err(SubstrateError::CryptographicAttestationFailed)
    ));
}

#[test]
fn issued_proof_verifies() {
    let wire = issue_proof(8888, 9999, 5000).expect("a proof is issued");
    assert_eq!(wire.len(), TOTAL_WIRE_SIZE);
    let view = SovereignProofView::try_from_bytes(&wire).unwrap();
    assert_eq!(view.lineage_id, 8888);
    assert_eq!(view.block_height, 9999);
    assert_eq!(view.valid_until, 5000);
    assert_eq!(view.state_commitment, &state_commitment(8888, 9999));
    assert!(view.verify_at(5000).is_ok());
    assert!(matches!(
        view.verify_at(5001),
        Err(SubstrateError::ProofExpired { .. })
    ));
    // Another proof is signed with another key.
    let other = issue_proof(8888, 9999, 5000).expect("a proof is issued");
    assert_ne!(wire, other);
}

#[test]
fn seed_decides_key_and_signature() {
    let seed = [5u8; 32];
    let wire = issue_with_seed(&seed, 42, 100, 1000).unwrap();
    assert_eq!(issue_with_seed(&seed, 42, 100, 1000).unwrap(), wire);

    let key = SigningKey::<MlDsa65>::from_seed(&seed.into());
    let public_key = key.verifying_key().to_bytes();
    assert_eq!(&wire[MESSAGE_SIZE..PUBLIC_KEY_END], &public_key[..]);
    let signature = key.sign(&wire[..MESSAGE_SIZE]).encode();
    assert_eq!(&wire[PUBLIC_KEY_END..], &signature[..]);
}

#[test]
fn issued_proof_expires_after_the_validity_window() {
    assert_eq!(VALIDITY_WINDOW_SECS, 300);
    assert_eq!(expiry_after(1_000), 1_300);
    assert_eq!(expiry_after(u64::MAX - 300), u64::MAX);
}

#[test]
fn clock_before_the_epoch_stands_for_zero() {
    assert_eq!(seconds_or_zero(Some((17, 0))), 17);
    assert_eq!(seconds_or_zero(Some((17, 999_999_999))), 17);
    assert_eq!(seconds_or_zero(None), 0);
    assert!(unix_now() > 1_600_000_000);
}

#[test]
fn substrate_errors_say_what_is_wrong() {
    let underflow = SubstrateError::BufferUnderflow { expected: 5317, found: 0 };
    assert_eq!(
        underflow.message(),
        "Wire protocol chunk mismatch: expected 5317 bytes, found 0"
    );
    assert_eq!(
        SubstrateError::InvalidLatticePublicKey.message(),
        "Failed to instantiate FIPS 204 verifying key geometry from wire slice"
    );
    assert_eq!(
        SubstrateError::InvalidLatticeSignature.message(),
        "Failed to parse standard module-lattice signature layout"
    );
    assert_eq!(
        SubstrateError::CryptographicAttestationFailed.message(),
        "Lattice verification equation failed to resolve structurally"
    );
    let expired = SubstrateError::ProofExpired { valid_until: u64::MAX, now: 1234567890 };
    assert_eq!(
        expired.message(),
        "Proof expired: valid_until=18446744073709551615, now=1234567890"
    );
    let cause = std::io::Error::new(std::io::ErrorKind::Other, "disk on fire");
    let fault = SubstrateError::from(cause);
    assert!(matches!(fault, SubstrateError::IoError(_)));
    assert_eq!(
        fault.message(),
        "Substrate hardware storage I/O fault: disk on fire"
    );
}
