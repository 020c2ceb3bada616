//! The fixed-width wire format of a state proof.
//!
//! A proof is the concatenation of the lineage id, the block height and the
//! expiry (eight bytes each, big-endian), the state commitment, the public key
//! and the signature. What the signature covers is everything in front of the
//! public key.

use vstd::prelude::*;
use vstd::arithmetic::power;

use crate::bytes;
use crate::error::SubstrateError;

verus! {

/// The length of an ML-DSA-65 public key.
pub const ML_DSA_65_PK_SIZE: usize = 1952;

/// The length of an ML-DSA-65 signature.
pub const ML_DSA_65_SIG_SIZE: usize = 3309;

/// The length of a state commitment.
pub const STATE_COMMITMENT_SIZE: usize = 32;

/// The length of the signed part of a proof.
pub const MESSAGE_SIZE: usize = 8 + 8 + 8 + STATE_COMMITMENT_SIZE;

/// Where the public key ends and the signature begins.
pub const PUBLIC_KEY_END: usize = MESSAGE_SIZE + ML_DSA_65_PK_SIZE;

/// The length of a proof.
pub const TOTAL_WIRE_SIZE: usize = PUBLIC_KEY_END + ML_DSA_65_SIG_SIZE;

/// The signed part of a proof.
pub open spec fn message_bytes(
    lineage_id: u64,
    block_height: u64,
    valid_until: u64,
    state_commitment: Seq<u8>,
) -> Seq<u8> {
    bytes::be_bytes(lineage_id as nat, 8) + bytes::be_bytes(block_height as nat, 8)
        + bytes::be_bytes(valid_until as nat, 8) + state_commitment
}

/// The whole of a proof.
pub open spec fn proof_bytes(
    lineage_id: u64,
    block_height: u64,
    valid_until: u64,
    state_commitment: Seq<u8>,
    public_key: Seq<u8>,
    signature: Seq<u8>,
) -> Seq<u8> {
    message_bytes(lineage_id, block_height, valid_until, state_commitment) + public_key + signature
}

/// Where the parts of a proof stand.
pub proof fn lemma_proof_layout(
    lineage_id: u64,
    block_height: u64,
    valid_until: u64,
    state_commitment: Seq<u8>,
    public_key: Seq<u8>,
    signature: Seq<u8>,
)
    requires
        state_commitment.len() == STATE_COMMITMENT_SIZE,
        public_key.len() == ML_DSA_65_PK_SIZE,
        signature.len() == ML_DSA_65_SIG_SIZE,
    ensures
        ({
            let message = message_bytes(lineage_id, block_height, valid_until, state_commitment);
            let wire = proof_bytes(
                lineage_id,
                block_height,
                valid_until,
                state_commitment,
                public_key,
                signature,
            );
            &&& message.len() == MESSAGE_SIZE
            &&& wire.len() == TOTAL_WIRE_SIZE
            &&& bytes::be_value(wire.subrange(0, 8)) == lineage_id
            &&& bytes::be_value(wire.subrange(8, 16)) == block_height
            &&& bytes::be_value(wire.subrange(16, 24)) == valid_until
            &&& wire.subrange(24, MESSAGE_SIZE as int) == state_commitment
            &&& wire.subrange(0, MESSAGE_SIZE as int) == message
            &&& wire.subrange(MESSAGE_SIZE as int, PUBLIC_KEY_END as int) == public_key
            &&& wire.subrange(PUBLIC_KEY_END as int, TOTAL_WIRE_SIZE as int) == signature
        }),
{
    let message = message_bytes(lineage_id, block_height, valid_until, state_commitment);
    let wire = proof_bytes(
        lineage_id,
        block_height,
        valid_until,
        state_commitment,
        public_key,
        signature,
    );
    bytes::lemma_be_bytes_len(lineage_id as nat, 8);
    bytes::lemma_be_bytes_len(block_height as nat, 8);
    bytes::lemma_be_bytes_len(valid_until as nat, 8);
    bytes::lemma_byte_range_of_u64();
    bytes::lemma_be_value_of_be_bytes(lineage_id as nat, 8);
    bytes::lemma_be_value_of_be_bytes(block_height as nat, 8);
    bytes::lemma_be_value_of_be_bytes(valid_until as nat, 8);
    assert(wire.subrange(0, 8) =~= bytes::be_bytes(lineage_id as nat, 8));
    assert(wire.subrange(8, 16) =~= bytes::be_bytes(block_height as nat, 8));
    assert(wire.subrange(16, 24) =~= bytes::be_bytes(valid_until as nat, 8));
    assert(wire.subrange(24, MESSAGE_SIZE as int) =~= state_commitment);
    assert(wire.subrange(0, MESSAGE_SIZE as int) =~= message);
    assert(wire.subrange(MESSAGE_SIZE as int, PUBLIC_KEY_END as int) =~= public_key);
    assert(wire.subrange(PUBLIC_KEY_END as int, TOTAL_WIRE_SIZE as int) =~= signature);
}

/// Calls `<&[u8; STATE_COMMITMENT_SIZE]>::try_from` of the standard library, which borrows a slice
/// of exactly that length as an array. Claimed of it: for such a slice it
/// succeeds, with the same bytes.
#[verifier::external_body]
fn as_commitment(slice: &[u8]) -> (array: &[u8; STATE_COMMITMENT_SIZE])
    requires
        slice@.len() == STATE_COMMITMENT_SIZE,
    ensures
        array@ == slice@,
{
    slice.try_into().unwrap()
}

/// The signed part of a proof, where it stands in the bytes that hold the
/// proof. Only reading a proof makes one.
pub struct SignedMessage<'a> {
    bytes: &'a [u8],
}

impl<'a> View for SignedMessage<'a> {
    type V = Seq<u8>;

    closed spec fn view(&self) -> Seq<u8> {
        self.bytes@
    }
}

impl<'a> SignedMessage<'a> {
    /// The bytes that were signed.
    pub fn as_slice(&self) -> (bytes: &'a [u8])
        ensures
            bytes@ == self@,
    {
        self.bytes
    }
}

/// A proof, read in place from the bytes that hold it.
pub struct SovereignProofView<'a> {
    /// The lineage that the proof is about.
    pub lineage_id: u64,
    /// The block that the proof is about.
    pub block_height: u64,
    /// The last second, as a Unix time, at which the proof is valid.
    pub valid_until: u64,
    /// The commitment to the state.
    pub state_commitment: &'a [u8; STATE_COMMITMENT_SIZE],
    /// The public key that the signature is to be checked with.
    pub public_key_slice: &'a [u8],
    /// The signature.
    pub signature_slice: &'a [u8],
    /// What the signature is checked against.
    pub raw_message_ctx: SignedMessage<'a>,
}

/// Writes the signed part of a proof.
pub fn encode_message(
    lineage_id: u64,
    block_height: u64,
    valid_until: u64,
    state_commitment: &[u8],
) -> (message: Vec<u8>)
    ensures
        message@ == message_bytes(lineage_id, block_height, valid_until, state_commitment@),
{
    let mut message: Vec<u8> = Vec::with_capacity(MESSAGE_SIZE);
    bytes::append_be(&mut message, lineage_id, 8);
    bytes::append_be(&mut message, block_height, 8);
    bytes::append_be(&mut message, valid_until, 8);
    bytes::append_bytes(&mut message, state_commitment);
    assert(message@ =~= message_bytes(lineage_id, block_height, valid_until, state_commitment@));
    message
}

/// Writes a proof.
pub fn encode_proof(
    lineage_id: u64,
    block_height: u64,
    valid_until: u64,
    state_commitment: &[u8],
    public_key: &[u8],
    signature: &[u8],
) -> (wire: Vec<u8>)
    ensures
        wire@ == proof_bytes(
            lineage_id,
            block_height,
            valid_until,
            state_commitment@,
            public_key@,
            signature@,
        ),
{
    let mut wire: Vec<u8> = Vec::with_capacity(TOTAL_WIRE_SIZE);
    bytes::append_be(&mut wire, lineage_id, 8);
    bytes::append_be(&mut wire, block_height, 8);
    bytes::append_be(&mut wire, valid_until, 8);
    bytes::append_bytes(&mut wire, state_commitment);
    bytes::append_bytes(&mut wire, public_key);
    bytes::append_bytes(&mut wire, signature);
    assert(wire@ =~= proof_bytes(
        lineage_id,
        block_height,
        valid_until,
        state_commitment@,
        public_key@,
        signature@,
    ));
    wire
}

impl<'a> SovereignProofView<'a> {
    /// This is what a proof at the start of `raw` says.
    pub open spec fn reads(self, raw: Seq<u8>) -> bool {
        &&& raw.len() >= TOTAL_WIRE_SIZE
        &&& self.lineage_id == bytes::be_value(raw.subrange(0, 8))
        &&& self.block_height == bytes::be_value(raw.subrange(8, 16))
        &&& self.valid_until == bytes::be_value(raw.subrange(16, 24))
        &&& self.state_commitment@ == raw.subrange(24, MESSAGE_SIZE as int)
        &&& self.public_key_slice@ == raw.subrange(
            MESSAGE_SIZE as int,
            PUBLIC_KEY_END as int,
        )
        &&& self.signature_slice@ == raw.subrange(
            PUBLIC_KEY_END as int,
            TOTAL_WIRE_SIZE as int,
        )
        &&& self.raw_message_ctx@ == raw.subrange(0, MESSAGE_SIZE as int)
    }

    /// Reads a proof in place: nothing is allocated, and every part is borrowed
    /// from `raw`. Bytes after its end are ignored.
    pub fn try_from_bytes(raw: &'a [u8]) -> (result: Result<
        SovereignProofView<'a>,
        SubstrateError,
    >)
        ensures
            raw@.len() < TOTAL_WIRE_SIZE ==> result == Err::<
                SovereignProofView<'a>,
                SubstrateError,
            >(
                SubstrateError::BufferUnderflow {
                    expected: TOTAL_WIRE_SIZE,
                    found: raw@.len() as usize,
                },
            ),
            raw@.len() >= TOTAL_WIRE_SIZE ==> result is Ok,
            result matches Ok(view) ==> view.reads(raw@),
    {
        if raw.len() < TOTAL_WIRE_SIZE {
            return Err(
                SubstrateError::BufferUnderflow { expected: TOTAL_WIRE_SIZE, found: raw.len() },
            );
        }
        let lineage_id = bytes::read_u64(&raw[0..8]);
        let block_height = bytes::read_u64(&raw[8..16]);
        let valid_until = bytes::read_u64(&raw[16..24]);
        let state_commitment: &'a [u8; STATE_COMMITMENT_SIZE] = as_commitment(&raw[24..MESSAGE_SIZE]);
        let public_key_slice = &raw[MESSAGE_SIZE..PUBLIC_KEY_END];
        let signature_slice = &raw[PUBLIC_KEY_END..TOTAL_WIRE_SIZE];
        let raw_message_ctx = SignedMessage { bytes: &raw[0..MESSAGE_SIZE] };
        Ok(
            SovereignProofView {
                lineage_id,
                block_height,
                valid_until,
                state_commitment,
                public_key_slice,
                signature_slice,
                raw_message_ctx,
            },
        )
    }
}

/// Reading gives back what was written, whatever follows the proof.
pub proof fn law_reading_gives_back_what_was_written(
    view: SovereignProofView<'_>,
    lineage_id: u64,
    block_height: u64,
    valid_until: u64,
    state_commitment: Seq<u8>,
    public_key: Seq<u8>,
    signature: Seq<u8>,
    trailing: Seq<u8>,
)
    requires
        state_commitment.len() == STATE_COMMITMENT_SIZE,
        public_key.len() == ML_DSA_65_PK_SIZE,
        signature.len() == ML_DSA_65_SIG_SIZE,
        view.reads(
            proof_bytes(
                lineage_id,
                block_height,
                valid_until,
                state_commitment,
                public_key,
                signature,
            ) + trailing,
        ),
    ensures
        view.lineage_id == lineage_id,
        view.block_height == block_height,
        view.valid_until == valid_until,
        view.state_commitment@ == state_commitment,
        view.public_key_slice@ == public_key,
        view.signature_slice@ == signature,
        view.raw_message_ctx@ == message_bytes(
            lineage_id,
            block_height,
            valid_until,
            state_commitment,
        ),
{
    let wire = proof_bytes(
        lineage_id,
        block_height,
        valid_until,
        state_commitment,
        public_key,
        signature,
    );
    lemma_proof_layout(
        lineage_id,
        block_height,
        valid_until,
        state_commitment,
        public_key,
        signature,
    );
    law_bytes_after_the_proof_are_ignored(view, wire, trailing);
}

/// What follows a proof does not change how it reads.
pub proof fn law_bytes_after_the_proof_are_ignored(
    view: SovereignProofView<'_>,
    wire: Seq<u8>,
    trailing: Seq<u8>,
)
    requires
        wire.len() >= TOTAL_WIRE_SIZE,
    ensures
        view.reads(wire + trailing) <==> view.reads(wire),
{
    let raw = wire + trailing;
    assert(raw.subrange(0, 8) =~= wire.subrange(0, 8));
    assert(raw.subrange(8, 16) =~= wire.subrange(8, 16));
    assert(raw.subrange(16, 24) =~= wire.subrange(16, 24));
    assert(raw.subrange(24, MESSAGE_SIZE as int) =~= wire.subrange(24, MESSAGE_SIZE as int));
    assert(raw.subrange(0, MESSAGE_SIZE as int) =~= wire.subrange(0, MESSAGE_SIZE as int));
    assert(raw.subrange(MESSAGE_SIZE as int, PUBLIC_KEY_END as int) =~= wire.subrange(
        MESSAGE_SIZE as int,
        PUBLIC_KEY_END as int,
    ));
    assert(raw.subrange(PUBLIC_KEY_END as int, TOTAL_WIRE_SIZE as int) =~= wire.subrange(
        PUBLIC_KEY_END as int,
        TOTAL_WIRE_SIZE as int,
    ));
}

/// Writing what was read gives back the bytes that were read, and what the
/// signature is checked against is the signed part of those.
pub proof fn law_writing_gives_back_what_was_read(view: SovereignProofView<'_>, raw: Seq<u8>)
    requires
        view.reads(raw),
    ensures
        proof_bytes(
            view.lineage_id,
            view.block_height,
            view.valid_until,
            view.state_commitment@,
            view.public_key_slice@,
            view.signature_slice@,
        ) == raw.take(TOTAL_WIRE_SIZE as int),
        view.raw_message_ctx@ == message_bytes(
            view.lineage_id,
            view.block_height,
            view.valid_until,
            view.state_commitment@,
        ),
{
    bytes::lemma_be_bytes_of_be_value(raw.subrange(0, 8));
    bytes::lemma_be_bytes_of_be_value(raw.subrange(8, 16));
    bytes::lemma_be_bytes_of_be_value(raw.subrange(16, 24));
    assert(proof_bytes(
        view.lineage_id,
        view.block_height,
        view.valid_until,
        view.state_commitment@,
        view.public_key_slice@,
        view.signature_slice@,
    ) =~= raw.take(TOTAL_WIRE_SIZE as int));
    assert(view.raw_message_ctx@ =~= message_bytes(
        view.lineage_id,
        view.block_height,
        view.valid_until,
        view.state_commitment@,
    ));
}

/// The signed part binds every field in front of the public key: messages that
/// differ in one of them differ.
pub proof fn law_message_binds_its_fields(
    lineage_a: u64,
    height_a: u64,
    valid_a: u64,
    commitment_a: Seq<u8>,
    lineage_b: u64,
    height_b: u64,
    valid_b: u64,
    commitment_b: Seq<u8>,
)
    requires
        message_bytes(lineage_a, height_a, valid_a, commitment_a) == message_bytes(
            lineage_b,
            height_b,
            valid_b,
            commitment_b,
        ),
    ensures
        lineage_a == lineage_b,
        height_a == height_b,
        valid_a == valid_b,
        commitment_a == commitment_b,
{
    lemma_message_parts(lineage_a, height_a, valid_a, commitment_a);
    lemma_message_parts(lineage_b, height_b, valid_b, commitment_b);
}

/// Where the parts of a message stand.
proof fn lemma_message_parts(
    lineage_id: u64,
    block_height: u64,
    valid_until: u64,
    state_commitment: Seq<u8>,
)
    ensures
        ({
            let message = message_bytes(lineage_id, block_height, valid_until, state_commitment);
            &&& bytes::be_value(message.subrange(0, 8)) == lineage_id
            &&& bytes::be_value(message.subrange(8, 16)) == block_height
            &&& bytes::be_value(message.subrange(16, 24)) == valid_until
            &&& message.skip(24) == state_commitment
        }),
{
    let message = message_bytes(lineage_id, block_height, valid_until, state_commitment);
    bytes::lemma_be_bytes_len(lineage_id as nat, 8);
    bytes::lemma_be_bytes_len(block_height as nat, 8);
    bytes::lemma_be_bytes_len(valid_until as nat, 8);
    bytes::lemma_byte_range_of_u64();
    bytes::lemma_be_value_of_be_bytes(lineage_id as nat, 8);
    bytes::lemma_be_value_of_be_bytes(block_height as nat, 8);
    bytes::lemma_be_value_of_be_bytes(valid_until as nat, 8);
    assert(message.subrange(0, 8) =~= bytes::be_bytes(lineage_id as nat, 8));
    assert(message.subrange(8, 16) =~= bytes::be_bytes(block_height as nat, 8));
    assert(message.subrange(16, 24) =~= bytes::be_bytes(valid_until as nat, 8));
    assert(message.skip(24) =~= state_commitment);
}

/// Tampering with a signed byte changes what the signature is checked against.
pub proof fn law_tampered_signed_byte_changes_the_message(
    view: SovereignProofView<'_>,
    raw: Seq<u8>,
    tampered_view: SovereignProofView<'_>,
    tampered: Seq<u8>,
    position: int,
)
    requires
        view.reads(raw),
        tampered_view.reads(tampered),
        0 <= position < MESSAGE_SIZE,
        tampered[position] != raw[position],
    ensures
        tampered_view.raw_message_ctx@ != view.raw_message_ctx@,
{
    assert(view.raw_message_ctx@[position] == raw[position]);
    assert(tampered_view.raw_message_ctx@[position] == tampered[position]);
}

/// The lengths of the format.
pub proof fn law_lengths_of_the_format()
    ensures
        STATE_COMMITMENT_SIZE == 32,
        ML_DSA_65_PK_SIZE == 1952,
        ML_DSA_65_SIG_SIZE == 3309,
        MESSAGE_SIZE == 56,
        PUBLIC_KEY_END == 2008,
        TOTAL_WIRE_SIZE == 5317,
{
}

/// The signed part, byte by byte: the digits to base 256 of the lineage, the
/// height and the expiry, eight each and most significant first, then the
/// commitment.
pub proof fn law_message_lays_out_its_fields(
    lineage_id: u64,
    block_height: u64,
    valid_until: u64,
    state_commitment: Seq<u8>,
    message: Seq<u8>,
)
    requires
        message.len() == 24 + state_commitment.len(),
        forall|i: int|
            0 <= i < 8 ==> #[trigger] message[i] as int == lineage_id as int / power::pow(
                256,
                (7 - i) as nat,
            ) % 256,
        forall|i: int|
            8 <= i < 16 ==> #[trigger] message[i] as int == block_height as int / power::pow(
                256,
                (15 - i) as nat,
            ) % 256,
        forall|i: int|
            16 <= i < 24 ==> #[trigger] message[i] as int == valid_until as int / power::pow(
                256,
                (23 - i) as nat,
            ) % 256,
        message.skip(24) == state_commitment,
    ensures
        message_bytes(lineage_id, block_height, valid_until, state_commitment) == message,
{
    bytes::law_eight_bytes_inside_are_the_digits(message, 0, lineage_id);
    bytes::law_eight_bytes_inside_are_the_digits(message, 8, block_height);
    bytes::law_eight_bytes_inside_are_the_digits(message, 16, valid_until);
    bytes::lemma_be_bytes_of_be_value(message.subrange(0, 8));
    bytes::lemma_be_bytes_of_be_value(message.subrange(8, 16));
    bytes::lemma_be_bytes_of_be_value(message.subrange(16, 24));
    assert(message =~= message.subrange(0, 8) + message.subrange(8, 16) + message.subrange(16, 24)
        + message.skip(24));
}

/// Where the fields of the signed part stand.
pub proof fn law_message_fields_stand_in_order(
    lineage_id: u64,
    block_height: u64,
    valid_until: u64,
    state_commitment: Seq<u8>,
)
    ensures
        ({
            let message = message_bytes(lineage_id, block_height, valid_until, state_commitment);
            &&& message.len() == 24 + state_commitment.len()
            &&& bytes::be_value(message.subrange(0, 8)) == lineage_id
            &&& bytes::be_value(message.subrange(8, 16)) == block_height
            &&& bytes::be_value(message.subrange(16, 24)) == valid_until
            &&& message.skip(24) == state_commitment
        }),
{
    bytes::lemma_be_bytes_len(lineage_id as nat, 8);
    bytes::lemma_be_bytes_len(block_height as nat, 8);
    bytes::lemma_be_bytes_len(valid_until as nat, 8);
    lemma_message_parts(lineage_id, block_height, valid_until, state_commitment);
}

/// A proof is its signed part, then the public key, then the signature.
pub proof fn law_proof_parts_stand_in_order(
    lineage_id: u64,
    block_height: u64,
    valid_until: u64,
    state_commitment: Seq<u8>,
    public_key: Seq<u8>,
    signature: Seq<u8>,
)
    ensures
        ({
            let message = message_bytes(lineage_id, block_height, valid_until, state_commitment);
            let wire = proof_bytes(
                lineage_id,
                block_height,
                valid_until,
                state_commitment,
                public_key,
                signature,
            );
            &&& wire.len() == message.len() + public_key.len() + signature.len()
            &&& wire.take(message.len() as int) == message
            &&& wire.skip(message.len() as int).take(public_key.len() as int) == public_key
            &&& wire.skip((message.len() + public_key.len()) as int) == signature
        }),
{
    let message = message_bytes(lineage_id, block_height, valid_until, state_commitment);
    let wire = proof_bytes(
        lineage_id,
        block_height,
        valid_until,
        state_commitment,
        public_key,
        signature,
    );
    assert(wire.take(message.len() as int) =~= message);
    assert(wire.skip(message.len() as int).take(public_key.len() as int) =~= public_key);
    assert(wire.skip((message.len() + public_key.len()) as int) =~= signature);
}

/// What reading gives, byte by byte: the lineage, the height and the expiry are
/// the numbers whose digits to base 256 stand in front, most significant first,
/// and the other parts are the bytes at their places.
pub proof fn law_view_shows_the_bytes(view: SovereignProofView<'_>, raw: Seq<u8>)
    ensures
        view.reads(raw) <==> {
            &&& raw.len() >= 5317
            &&& forall|i: int|
            0 <= i < 8 ==> #[trigger] raw[i] as int == view.lineage_id as int / power::pow(
                256,
                (7 - i) as nat,
            ) % 256
            &&& forall|i: int|
            8 <= i < 16 ==> #[trigger] raw[i] as int == view.block_height as int / power::pow(
                256,
                (15 - i) as nat,
            ) % 256
            &&& forall|i: int|
            16 <= i < 24 ==> #[trigger] raw[i] as int == view.valid_until as int / power::pow(
                256,
                (23 - i) as nat,
            ) % 256
            &&& view.state_commitment@ == raw.subrange(24, 56)
            &&& view.public_key_slice@ == raw.subrange(56, 2008)
            &&& view.signature_slice@ == raw.subrange(2008, 5317)
            &&& view.raw_message_ctx@ == raw.take(56)
        },
{
    if raw.len() >= 5317 {
        bytes::law_eight_bytes_inside_are_the_digits(raw, 0, view.lineage_id);
        bytes::law_eight_bytes_inside_are_the_digits(raw, 8, view.block_height);
        bytes::law_eight_bytes_inside_are_the_digits(raw, 16, view.valid_until);
        assert(raw.take(56) =~= raw.subrange(0, 56));
    }
}

} // verus!
