//! Checking and issuing state proofs with ML-DSA-65 signatures.

use vstd::prelude::*;

use crate::clock;
use crate::commitment;
use crate::error::SubstrateError;
use crate::wire;
use crate::wire::SovereignProofView;

verus! {

/// Whether a byte string is an encoded ML-DSA-65 signature.
pub uninterp spec fn ml_dsa_65_decodes(signature: Seq<u8>) -> bool;

/// Whether an encoded signature is one of `message` under an encoded public key.
pub uninterp spec fn ml_dsa_65_accepts(
    public_key: Seq<u8>,
    message: Seq<u8>,
    signature: Seq<u8>,
) -> bool;

/// The encoded public key that belongs to a signing seed.
pub uninterp spec fn ml_dsa_65_public_key(seed: Seq<u8>) -> Seq<u8>;

/// The encoded signature of a message under a signing seed, where rejection
/// sampling finds one.
pub uninterp spec fn ml_dsa_65_signature(seed: Seq<u8>, message: Seq<u8>) -> Option<Seq<u8>>;

/// Calls `ml_dsa::Signature::<MlDsa65>::try_from`, which checks the length and
/// decodes. Claimed of it: whether it succeeds is a function of the bytes alone,
/// the one named `ml_dsa_65_decodes`, and it fails on every other length than
/// that of an encoded signature.
#[verifier::external_body]
fn signature_decodes(signature: &[u8]) -> (decodes: bool)
    ensures
        decodes == ml_dsa_65_decodes(signature@),
        decodes ==> signature@.len() == wire::ML_DSA_65_SIG_SIZE,
{
    ml_dsa::Signature::<ml_dsa::MlDsa65>::try_from(signature).is_ok()
}

/// Calls `ml_dsa::Verifier::verify` on the decoded public key and signature.
/// Claimed of it: whether it accepts is a function of the three byte strings
/// alone, the one named `ml_dsa_65_accepts`. A public key of the right length
/// always decodes, so with a signature that decodes nothing here fails.
#[verifier::external_body]
fn signature_accepted(public_key: &[u8], message: &[u8], signature: &[u8]) -> (accepted: bool)
    requires
        public_key@.len() == wire::ML_DSA_65_PK_SIZE,
        ml_dsa_65_decodes(signature@),
    ensures
        accepted == ml_dsa_65_accepts(public_key@, message@, signature@),
{
    let encoded = ml_dsa::EncodedVerifyingKey::<ml_dsa::MlDsa65>::try_from(public_key).unwrap();
    let key = ml_dsa::VerifyingKey::<ml_dsa::MlDsa65>::decode(&encoded);
    let signature = ml_dsa::Signature::<ml_dsa::MlDsa65>::try_from(signature).unwrap();
    ml_dsa::Verifier::verify(&key, message, &signature).is_ok()
}

/// Calls `ml_dsa::SigningKey::<MlDsa65>::from_seed` and encodes the verifying
/// key of the result. Claimed of it: the encoded key is a function of the seed
/// alone, the one named `ml_dsa_65_public_key`, and has the length of an encoded
/// public key.
#[verifier::external_body]
fn public_key_of(seed: &[u8; 32]) -> (public_key: Vec<u8>)
    ensures
        public_key@ == ml_dsa_65_public_key(seed@),
        public_key@.len() == wire::ML_DSA_65_PK_SIZE,
{
    let key = ml_dsa::SigningKey::<ml_dsa::MlDsa65>::from_seed(&(*seed).into());
    ml_dsa::Keypair::verifying_key(&key).encode().to_vec()
}

/// Calls `ml_dsa::Signer::try_sign` with the signing key of a seed, which uses
/// the deterministic variant of ML-DSA, and encodes the signature. Claimed of
/// it: the encoded signature, or that rejection sampling finds none, is a
/// function of the seed and the message alone, the one named
/// `ml_dsa_65_signature`; an encoded signature has the right length, decodes,
/// and is accepted for that message under the public key of the seed, as the
/// crate's documentation shows of a signature that was just made.
#[verifier::external_body]
fn sign(seed: &[u8; 32], message: &[u8]) -> (signature: Option<Vec<u8>>)
    ensures
        match signature {
            Some(signature) => {
                &&& ml_dsa_65_signature(seed@, message@) == Some(signature@)
                &&& signature@.len() == wire::ML_DSA_65_SIG_SIZE
                &&& ml_dsa_65_decodes(signature@)
                &&& ml_dsa_65_accepts(ml_dsa_65_public_key(seed@), message@, signature@)
            },
            None => ml_dsa_65_signature(seed@, message@) == None::<Seq<u8>>,
        },
{
    let key = ml_dsa::SigningKey::<ml_dsa::MlDsa65>::from_seed(&(*seed).into());
    match ml_dsa::Signer::try_sign(&key, message) {
        Ok(signature) => Some(signature.encode().to_vec()),
        Err(_) => None,
    }
}

/// Calls `ml_dsa::Generate::try_generate` for a signing key, which draws a seed
/// from the system's random number generator and fails where there is none to
/// draw, and hands on the seed. Nothing is claimed of the seed: it is random.
#[verifier::external_body]
fn random_seed() -> (seed: Option<[u8; 32]>) {
    match <ml_dsa::SigningKey<ml_dsa::MlDsa65> as ml_dsa::Generate>::try_generate() {
        Ok(key) => Some(key.to_seed().into()),
        Err(_) => None,
    }
}

/// What the check of a signature comes to.
pub open spec fn signature_outcome(
    public_key: Seq<u8>,
    message: Seq<u8>,
    signature: Seq<u8>,
) -> Result<(), SubstrateError> {
    if public_key.len() != wire::ML_DSA_65_PK_SIZE {
        Err(SubstrateError::InvalidLatticePublicKey)
    } else if !ml_dsa_65_decodes(signature) {
        Err(SubstrateError::InvalidLatticeSignature)
    } else if !ml_dsa_65_accepts(public_key, message, signature) {
        Err(SubstrateError::CryptographicAttestationFailed)
    } else {
        Ok(())
    }
}

/// What the check of the expiry comes to.
pub open spec fn expiry_outcome(valid_until: u64, now: u64) -> Result<(), SubstrateError> {
    if now > valid_until {
        Err(SubstrateError::ProofExpired { valid_until, now })
    } else {
        Ok(())
    }
}

/// What both checks come to, the signature first.
pub open spec fn outcome(
    public_key: Seq<u8>,
    message: Seq<u8>,
    signature: Seq<u8>,
    valid_until: u64,
    now: u64,
) -> Result<(), SubstrateError> {
    match signature_outcome(public_key, message, signature) {
        Err(error) => Err(error),
        Ok(()) => expiry_outcome(valid_until, now),
    }
}

/// What is wrong with a signature, given whether the public key has the right
/// length, whether the signature decodes and whether it is accepted.
pub fn signature_verdict(key_fits: bool, decodes: bool, accepted: bool) -> (result: Result<
    (),
    SubstrateError,
>)
    ensures
        !key_fits ==> result == Err::<(), SubstrateError>(SubstrateError::InvalidLatticePublicKey),
        key_fits && !decodes ==> result == Err::<(), SubstrateError>(
            SubstrateError::InvalidLatticeSignature,
        ),
        key_fits && decodes && !accepted ==> result == Err::<(), SubstrateError>(
            SubstrateError::CryptographicAttestationFailed,
        ),
        key_fits && decodes && accepted ==> result == Ok::<(), SubstrateError>(()),
{
    if !key_fits {
        Err(SubstrateError::InvalidLatticePublicKey)
    } else if !decodes {
        Err(SubstrateError::InvalidLatticeSignature)
    } else if !accepted {
        Err(SubstrateError::CryptographicAttestationFailed)
    } else {
        Ok(())
    }
}

impl<'a> SovereignProofView<'a> {
    /// What verifying this proof at time `now` comes to.
    pub open spec fn outcome_at(self, now: u64) -> Result<(), SubstrateError> {
        outcome(
            self.public_key_slice@,
            self.raw_message_ctx@,
            self.signature_slice@,
            self.valid_until,
            now,
        )
    }

    /// Checks the signature.
    pub fn check_signature(&self) -> (result: Result<(), SubstrateError>)
        ensures
            result == signature_outcome(
                self.public_key_slice@,
                self.raw_message_ctx@,
                self.signature_slice@,
            ),
    {
        let key_fits = self.public_key_slice.len() == wire::ML_DSA_65_PK_SIZE;
        let decodes = key_fits && signature_decodes(self.signature_slice);
        let accepted = decodes && signature_accepted(
            self.public_key_slice,
            self.raw_message_ctx.as_slice(),
            self.signature_slice,
        );
        signature_verdict(key_fits, decodes, accepted)
    }

    /// Checks that the proof has not expired at time `now`.
    pub fn check_expiry(&self, now: u64) -> (result: Result<(), SubstrateError>)
        ensures
            result == expiry_outcome(self.valid_until, now),
    {
        if now > self.valid_until {
            return Err(SubstrateError::ProofExpired { valid_until: self.valid_until, now });
        }
        Ok(())
    }

    /// Checks the signature, then that the proof has not expired at time `now`.
    pub fn verify_at(&self, now: u64) -> (result: Result<(), SubstrateError>)
        ensures
            result == self.outcome_at(now),
    {
        self.check_signature()?;
        self.check_expiry(now)
    }

    /// Checks the signature, then that the proof has not expired by now.
    ///
    /// The time is one that `unix_now` gave; which one, the clock decides. It is
    /// not read where the signature already fails.
    pub fn verify(&self) -> (result: Result<(), SubstrateError>)
        ensures
            signature_outcome(
                self.public_key_slice@,
                self.raw_message_ctx@,
                self.signature_slice@,
            ) is Err ==> result == signature_outcome(
                self.public_key_slice@,
                self.raw_message_ctx@,
                self.signature_slice@,
            ),
            exists|now: u64| result == #[trigger] self.outcome_at(now),
            signature_outcome(
                self.public_key_slice@,
                self.raw_message_ctx@,
                self.signature_slice@,
            ) is Ok ==> exists|now: u64|
                call_ensures(clock::unix_now, (), now) && result == #[trigger] self.outcome_at(now),
    {
        let checked = self.check_signature();
        assert(checked is Err ==> checked == self.outcome_at(0));
        checked?;
        let now = clock::unix_now();
        let result = self.check_expiry(now);
        assert(result == self.outcome_at(now));
        result
    }
}

/// How long an issued proof is valid, in seconds.
pub const VALIDITY_WINDOW_SECS: u64 = 300;

/// The expiry of a proof that is issued at time `now`.
pub fn expiry_after(now: u64) -> (valid_until: u64)
    requires
        now + VALIDITY_WINDOW_SECS <= u64::MAX,
    ensures
        valid_until == now + VALIDITY_WINDOW_SECS,
        valid_until == now + 300,
{
    now + VALIDITY_WINDOW_SECS
}

/// Why no proof was issued.
#[derive(Debug, Clone, Copy, PartialEq, Eq, Structural)]
pub enum IssueError {
    /// The system gave no random seed for a key.
    NoEntropy,
    /// Rejection sampling found no signature.
    NoSignature,
}

/// What the signature of an issued proof covers.
pub open spec fn issued_message(lineage_id: u64, block_height: u64, valid_until: u64) -> Seq<u8> {
    wire::message_bytes(
        lineage_id,
        block_height,
        valid_until,
        commitment::commitment(lineage_id, block_height)@,
    )
}

/// The proof that is issued with a signing seed.
pub open spec fn issued_proof(
    seed: Seq<u8>,
    lineage_id: u64,
    block_height: u64,
    valid_until: u64,
) -> Option<Seq<u8>> {
    match ml_dsa_65_signature(seed, issued_message(lineage_id, block_height, valid_until)) {
        Some(signature) => Some(
            wire::proof_bytes(
                lineage_id,
                block_height,
                valid_until,
                commitment::commitment(lineage_id, block_height)@,
                ml_dsa_65_public_key(seed),
                signature,
            ),
        ),
        None => None,
    }
}

/// Issues a proof, signed with the key of a seed.
///
/// An issued proof has the full wire length, its key and signature are in
/// order, and whoever verifies it before its expiry finds it valid.
pub fn issue_with_seed(
    seed: &[u8; 32],
    lineage_id: u64,
    block_height: u64,
    valid_until: u64,
) -> (issued: Option<Vec<u8>>)
    ensures
        match issued {
            Some(wire) => {
                &&& issued_proof(seed@, lineage_id, block_height, valid_until) == Some(wire@)
                &&& wire@.len() == 5317
                &&& verifies_until(wire@, valid_until)
                &&& forall|view: SovereignProofView<'_>| #[trigger]
                    view.reads(wire@) ==> {
                        &&& view.lineage_id == lineage_id
                        &&& view.block_height == block_height
                        &&& view.valid_until == valid_until
                        &&& view.state_commitment@ == commitment::commitment(
                            lineage_id,
                            block_height,
                        )@
                        &&& view.public_key_slice@ == ml_dsa_65_public_key(seed@)
                        &&& ml_dsa_65_signature(seed@, view.raw_message_ctx@) == Some(
                            view.signature_slice@,
                        )
                    }
            },
            None => issued_proof(seed@, lineage_id, block_height, valid_until) == None::<Seq<u8>>,
        },
{
    let state_commitment = commitment::state_commitment(lineage_id, block_height);
    let message = wire::encode_message(
        lineage_id,
        block_height,
        valid_until,
        state_commitment.as_slice(),
    );
    let public_key = public_key_of(seed);
    match sign(seed, message.as_slice()) {
        Some(signature) => {
            let wire = wire::encode_proof(
                lineage_id,
                block_height,
                valid_until,
                state_commitment.as_slice(),
                public_key.as_slice(),
                signature.as_slice(),
            );
            proof {
                wire::lemma_proof_layout(
                    lineage_id,
                    block_height,
                    valid_until,
                    state_commitment@,
                    public_key@,
                    signature@,
                );
                assert forall|view: SovereignProofView<'_>| #[trigger] view.reads(wire@) implies {
                    &&& view.lineage_id == lineage_id
                    &&& view.block_height == block_height
                    &&& view.valid_until == valid_until
                    &&& view.state_commitment@ == commitment::commitment(lineage_id, block_height)@
                    &&& view.public_key_slice@ == ml_dsa_65_public_key(seed@)
                    &&& ml_dsa_65_signature(seed@, view.raw_message_ctx@) == Some(
                        view.signature_slice@,
                    )
                } by {
                    law_issued_proof_says_what_was_asked(
                        seed@,
                        lineage_id,
                        block_height,
                        valid_until,
                        wire@,
                        view,
                    );
                }
            }
            Some(wire)
        },
        None => None,
    }
}

/// Every reading of `wire` verifies up to and including `valid_until`, and is
/// found expired from then on.
pub open spec fn verifies_until(wire: Seq<u8>, valid_until: u64) -> bool {
    &&& wire.len() == wire::TOTAL_WIRE_SIZE
    &&& forall|view: SovereignProofView<'_>, now: u64|
        view.reads(wire) ==> #[trigger] view.outcome_at(now) == expiry_outcome(valid_until, now)
}

/// The system gave `seed` for a new key, or nothing where it has no entropy.
pub closed spec fn seed_drawn(seed: Option<[u8; 32]>) -> bool {
    call_ensures(random_seed, (), seed)
}

/// Issues a proof, signed with a fresh random key. Chance decides which.
pub fn issue_proof(lineage_id: u64, block_height: u64, valid_until: u64) -> (result: Result<
    Vec<u8>,
    IssueError,
>)
    ensures
        match result {
            Ok(wire) => {
                &&& wire@.len() == 5317
                &&& verifies_until(wire@, valid_until)
                &&& forall|view: SovereignProofView<'_>| #[trigger]
                    view.reads(wire@) ==> {
                        &&& view.lineage_id == lineage_id
                        &&& view.block_height == block_height
                        &&& view.valid_until == valid_until
                        &&& view.state_commitment@ == commitment::commitment(
                            lineage_id,
                            block_height,
                        )@
                    }
                &&& exists|seed: [u8; 32]| #[trigger]
                    seed_drawn(Some(seed)) && issued_proof(
                        seed@,
                        lineage_id,
                        block_height,
                        valid_until,
                    ) == Some(wire@)
            },
            Err(IssueError::NoEntropy) => seed_drawn(None),
            Err(IssueError::NoSignature) => exists|seed: [u8; 32]| #[trigger]
                seed_drawn(Some(seed)) && issued_proof(
                    seed@,
                    lineage_id,
                    block_height,
                    valid_until,
                ) == None::<Seq<u8>>,
        },
{
    let drawn = random_seed();
    assert(seed_drawn(drawn));
    match drawn {
        Some(seed) => match issue_with_seed(&seed, lineage_id, block_height, valid_until) {
            Some(wire) => Ok(wire),
            None => Err(IssueError::NoSignature),
        },
        None => Err(IssueError::NoEntropy),
    }
}

/// A proof is found valid exactly where its key has the right length, its
/// signature decodes and is accepted, and its expiry has not passed.
pub proof fn law_valid_exactly_when_everything_holds(view: SovereignProofView<'_>, now: u64)
    ensures
        view.outcome_at(now) is Ok <==> {
            &&& view.public_key_slice@.len() == wire::ML_DSA_65_PK_SIZE
            &&& ml_dsa_65_decodes(view.signature_slice@)
            &&& ml_dsa_65_accepts(
                view.public_key_slice@,
                view.raw_message_ctx@,
                view.signature_slice@,
            )
            &&& now <= view.valid_until
        },
{
}

/// A proof past its expiry is refused, whatever its signature.
pub proof fn law_expired_proof_is_refused(view: SovereignProofView<'_>, now: u64)
    requires
        now > view.valid_until,
    ensures
        view.outcome_at(now) is Err,
{
}

/// A proof with a bad signature is refused for that reason at every time, also
/// when it has expired.
pub proof fn law_bad_signature_is_refused_at_every_time(
    view: SovereignProofView<'_>,
    now: u64,
)
    requires
        signature_outcome(
            view.public_key_slice@,
            view.raw_message_ctx@,
            view.signature_slice@,
        ) is Err,
    ensures
        view.outcome_at(now) == signature_outcome(
            view.public_key_slice@,
            view.raw_message_ctx@,
            view.signature_slice@,
        ),
{
}

/// A proof that is valid at one time was valid at every earlier time: it
/// expires once and for all.
pub proof fn law_expiry_is_final(view: SovereignProofView<'_>, earlier: u64, later: u64)
    requires
        earlier <= later,
        view.outcome_at(later) is Ok,
    ensures
        view.outcome_at(earlier) is Ok,
{
}

/// A proof that is valid at one time is valid at every time up to its expiry:
/// nothing but the expiry ends its validity.
pub proof fn law_valid_for_the_whole_window(view: SovereignProofView<'_>, once: u64, now: u64)
    requires
        view.outcome_at(once) is Ok,
        now <= view.valid_until,
    ensures
        view.outcome_at(now) is Ok,
{
}

/// What counts as a drawn seed is what the random number generator gave.
proof fn law_seed_comes_from_the_generator(seed: Option<[u8; 32]>)
    ensures
        seed_drawn(seed) <==> call_ensures(random_seed, (), seed),
{
}

/// A signature passes exactly where the key has its length, the signature
/// decodes and is one of the message under the key; otherwise the first of these
/// that fails is what is reported.
pub proof fn law_signature_check_reports_the_first_failure(
    public_key: Seq<u8>,
    message: Seq<u8>,
    signature: Seq<u8>,
)
    ensures
        signature_outcome(public_key, message, signature) is Ok <==> public_key.len() == 1952
            && ml_dsa_65_decodes(signature) && ml_dsa_65_accepts(public_key, message, signature),
        public_key.len() != 1952 ==> signature_outcome(public_key, message, signature) == Err::<
            (),
            SubstrateError,
        >(SubstrateError::InvalidLatticePublicKey),
        public_key.len() == 1952 && !ml_dsa_65_decodes(signature) ==> signature_outcome(
            public_key,
            message,
            signature,
        ) == Err::<(), SubstrateError>(SubstrateError::InvalidLatticeSignature),
        public_key.len() == 1952 && ml_dsa_65_decodes(signature) && !ml_dsa_65_accepts(
            public_key,
            message,
            signature,
        ) ==> signature_outcome(public_key, message, signature) == Err::<(), SubstrateError>(
            SubstrateError::CryptographicAttestationFailed,
        ),
{
}

/// The expiry is the last second at which a proof is valid; after it both times
/// are reported as they are.
pub proof fn law_expiry_is_the_last_valid_second(valid_until: u64, now: u64)
    ensures
        now <= valid_until ==> expiry_outcome(valid_until, now) == Ok::<(), SubstrateError>(()),
        now > valid_until ==> expiry_outcome(valid_until, now) == Err::<(), SubstrateError>(
            SubstrateError::ProofExpired { valid_until, now },
        ),
{
}

/// Verifying reports a failed signature first, and otherwise what the time says
/// of the expiry.
pub proof fn law_verifying_checks_signature_then_expiry(view: SovereignProofView<'_>, now: u64)
    ensures
        view.public_key_slice@.len() != 1952 ==> view.outcome_at(now) == Err::<(), SubstrateError>(
            SubstrateError::InvalidLatticePublicKey,
        ),
        view.public_key_slice@.len() == 1952 && !ml_dsa_65_decodes(view.signature_slice@)
            ==> view.outcome_at(now) == Err::<(), SubstrateError>(
            SubstrateError::InvalidLatticeSignature,
        ),
        view.public_key_slice@.len() == 1952 && ml_dsa_65_decodes(view.signature_slice@)
            && !ml_dsa_65_accepts(
            view.public_key_slice@,
            view.raw_message_ctx@,
            view.signature_slice@,
        ) ==> view.outcome_at(now) == Err::<(), SubstrateError>(
            SubstrateError::CryptographicAttestationFailed,
        ),
        view.public_key_slice@.len() == 1952 && ml_dsa_65_decodes(view.signature_slice@)
            && ml_dsa_65_accepts(
            view.public_key_slice@,
            view.raw_message_ctx@,
            view.signature_slice@,
        ) ==> {
            &&& now <= view.valid_until ==> view.outcome_at(now) == Ok::<(), SubstrateError>(())
            &&& now > view.valid_until ==> view.outcome_at(now) == Err::<(), SubstrateError>(
                SubstrateError::ProofExpired { valid_until: view.valid_until, now },
            )
        },
{
}

/// A proof that verifies until a time is valid exactly up to that time and is
/// reported as expired after it, whoever reads it.
pub proof fn law_verifies_until_its_expiry(
    wire: Seq<u8>,
    valid_until: u64,
    view: SovereignProofView<'_>,
    now: u64,
)
    requires
        verifies_until(wire, valid_until),
        view.reads(wire),
    ensures
        now <= valid_until ==> view.outcome_at(now) == Ok::<(), SubstrateError>(()),
        now > valid_until ==> view.outcome_at(now) == Err::<(), SubstrateError>(
            SubstrateError::ProofExpired { valid_until, now },
        ),
{
}

/// An issued proof says what it was asked to say: whoever reads it finds the
/// lineage, the height and the expiry that were given, in that order, the
/// commitment to that lineage at that height, and as the signed part those four.
/// Its key and signature are those of the seed, for that signed part.
pub proof fn law_issued_proof_says_what_was_asked(
    seed: Seq<u8>,
    lineage_id: u64,
    block_height: u64,
    valid_until: u64,
    wire: Seq<u8>,
    view: SovereignProofView<'_>,
)
    requires
        issued_proof(seed, lineage_id, block_height, valid_until) == Some(wire),
        view.reads(wire),
    ensures
        view.lineage_id == lineage_id,
        view.block_height == block_height,
        view.valid_until == valid_until,
        view.state_commitment@ == commitment::commitment(lineage_id, block_height)@,
        view.raw_message_ctx@ == wire::message_bytes(
            lineage_id,
            block_height,
            valid_until,
            commitment::commitment(lineage_id, block_height)@,
        ),
        ml_dsa_65_public_key(seed).len() == 1952 ==> view.public_key_slice@ == ml_dsa_65_public_key(
            seed,
        ),
        ml_dsa_65_public_key(seed).len() == 1952 && wire.len() == 5317 ==> ml_dsa_65_signature(
            seed,
            view.raw_message_ctx@,
        ) == Some(view.signature_slice@),
{
    let state_commitment = commitment::commitment(lineage_id, block_height)@;
    let message = wire::message_bytes(lineage_id, block_height, valid_until, state_commitment);
    let public_key = ml_dsa_65_public_key(seed);
    let signature = ml_dsa_65_signature(seed, message).unwrap();
    wire::law_message_fields_stand_in_order(
        lineage_id,
        block_height,
        valid_until,
        state_commitment,
    );
    assert(wire == message + public_key + signature);
    assert(wire.subrange(0, 8) =~= message.subrange(0, 8));
    assert(wire.subrange(8, 16) =~= message.subrange(8, 16));
    assert(wire.subrange(16, 24) =~= message.subrange(16, 24));
    assert(wire.subrange(24, 56) =~= message.skip(24));
    assert(wire.subrange(0, 56) =~= message);
    if public_key.len() == 1952 {
        assert(wire.subrange(56, 2008) =~= public_key);
        if wire.len() == 5317 {
            assert(wire.subrange(2008, 5317) =~= signature);
        }
    }
}

/// A proof that verifies until a time has the full length.
pub proof fn law_verifying_proof_has_full_length(wire: Seq<u8>, valid_until: u64)
    requires
        verifies_until(wire, valid_until),
    ensures
        wire.len() == 5317,
{
}

/// An issued proof is the written one: the fields that were given, the
/// commitment to them, the key of the seed and its signature of the signed part,
/// in the order of the format.
pub proof fn law_issued_proof_is_the_written_one(
    seed: Seq<u8>,
    lineage_id: u64,
    block_height: u64,
    valid_until: u64,
    signature: Seq<u8>,
)
    requires
        ml_dsa_65_signature(
            seed,
            wire::message_bytes(
                lineage_id,
                block_height,
                valid_until,
                commitment::commitment(lineage_id, block_height)@,
            ),
        ) == Some(signature),
    ensures
        issued_proof(seed, lineage_id, block_height, valid_until) == Some(
            wire::proof_bytes(
                lineage_id,
                block_height,
                valid_until,
                commitment::commitment(lineage_id, block_height)@,
                ml_dsa_65_public_key(seed),
                signature,
            ),
        ),
{
}

/// There is no proof to issue exactly where the signed part gets no signature.
pub proof fn law_no_proof_only_without_a_signature(
    seed: Seq<u8>,
    lineage_id: u64,
    block_height: u64,
    valid_until: u64,
)
    ensures
        issued_proof(seed, lineage_id, block_height, valid_until) is None <==> ml_dsa_65_signature(
            seed,
            wire::message_bytes(
                lineage_id,
                block_height,
                valid_until,
                commitment::commitment(lineage_id, block_height)@,
            ),
        ) is None,
{
}

} // verus!
