//! Commitments to the state that a proof is about.

use vstd::prelude::*;
use vstd::arithmetic::power;

use crate::bytes;
use crate::wire::STATE_COMMITMENT_SIZE;

verus! {

/// The tag at the end of every commitment input: `guzcom-sovereign-state-v1`.
pub const STATE_TAG: [u8; 25] = [
    103, 117, 122, 99, 111, 109, 45, 115, 111, 118, 101, 114, 101, 105, 103, 110, 45, 115, 116, 97,
    116, 101, 45, 118, 49,
];

/// The SHA3-256 digest of a byte string.
pub uninterp spec fn sha3_256_digest(input: Seq<u8>) -> [u8; 32];

/// Calls `sha3::Sha3_256::digest`. Claimed of it: the digest is a function of
/// the input bytes alone, the one named `sha3_256_digest`. Nothing is claimed
/// about which digest belongs to which input, nor that digests differ.
#[verifier::external_body]
fn sha3_256(input: &[u8]) -> (digest: [u8; 32])
    ensures
        digest == sha3_256_digest(input@),
{
    <sha3::Sha3_256 as sha3::Digest>::digest(input).into()
}

/// What is hashed for the state of a lineage at a block height.
pub open spec fn commitment_input(lineage_id: u64, block_height: u64) -> Seq<u8> {
    bytes::be_bytes(lineage_id as nat, 8) + bytes::be_bytes(block_height as nat, 8) + STATE_TAG@
}

/// The commitment to the state of a lineage at a block height.
pub open spec fn commitment(lineage_id: u64, block_height: u64) -> [u8; 32] {
    sha3_256_digest(commitment_input(lineage_id, block_height))
}

/// Commits to the state of a lineage at a block height.
pub fn state_commitment(lineage_id: u64, block_height: u64) -> (digest: [u8; STATE_COMMITMENT_SIZE])
    ensures
        digest == commitment(lineage_id, block_height),
{
    let mut input: Vec<u8> = Vec::new();
    bytes::append_be(&mut input, lineage_id, 8);
    bytes::append_be(&mut input, block_height, 8);
    bytes::append_bytes(&mut input, STATE_TAG.as_slice());
    assert(input@ =~= commitment_input(lineage_id, block_height));
    sha3_256(input.as_slice())
}

/// The commitment is bound to what it is about: different lineages or heights
/// are committed to by hashing different inputs.
pub proof fn law_commitment_input_injective(
    lineage_a: u64,
    height_a: u64,
    lineage_b: u64,
    height_b: u64,
)
    requires
        commitment_input(lineage_a, height_a) == commitment_input(lineage_b, height_b),
    ensures
        lineage_a == lineage_b,
        height_a == height_b,
{
    let a = commitment_input(lineage_a, height_a);
    let b = commitment_input(lineage_b, height_b);
    bytes::lemma_be_bytes_len(lineage_a as nat, 8);
    bytes::lemma_be_bytes_len(lineage_b as nat, 8);
    bytes::lemma_be_bytes_len(height_a as nat, 8);
    bytes::lemma_be_bytes_len(height_b as nat, 8);
    assert(a.subrange(0, 8) =~= bytes::be_bytes(lineage_a as nat, 8));
    assert(b.subrange(0, 8) =~= bytes::be_bytes(lineage_b as nat, 8));
    assert(a.subrange(8, 16) =~= bytes::be_bytes(height_a as nat, 8));
    assert(b.subrange(8, 16) =~= bytes::be_bytes(height_b as nat, 8));
    bytes::lemma_byte_range_of_u64();
    bytes::lemma_be_value_of_be_bytes(lineage_a as nat, 8);
    bytes::lemma_be_value_of_be_bytes(lineage_b as nat, 8);
    bytes::lemma_be_value_of_be_bytes(height_a as nat, 8);
    bytes::lemma_be_value_of_be_bytes(height_b as nat, 8);
}

/// The tag reads `guzcom-sovereign-state-v1`.
pub proof fn law_tag_names_the_format()
    ensures
        "guzcom-sovereign-state-v1"@.len() == 25,
        forall|i: int|
            0 <= i < 25 ==> #[trigger] STATE_TAG@[i] as int == "guzcom-sovereign-state-v1"@[i] as int,
{
    reveal_strlit("guzcom-sovereign-state-v1");
}

/// Where the parts of a commitment input stand: the lineage, the height, the tag.
pub proof fn law_lineage_is_hashed_before_the_height(lineage_id: u64, block_height: u64)
    ensures
        commitment_input(lineage_id, block_height).len() == 41,
        bytes::be_value(commitment_input(lineage_id, block_height).subrange(0, 8)) == lineage_id,
        bytes::be_value(commitment_input(lineage_id, block_height).subrange(8, 16)) == block_height,
        commitment_input(lineage_id, block_height).subrange(16, 41) == STATE_TAG@,
{
    let input = commitment_input(lineage_id, block_height);
    bytes::lemma_be_bytes_len(lineage_id as nat, 8);
    bytes::lemma_be_bytes_len(block_height as nat, 8);
    assert(input.subrange(0, 8) =~= bytes::be_bytes(lineage_id as nat, 8));
    assert(input.subrange(8, 16) =~= bytes::be_bytes(block_height as nat, 8));
    assert(input.subrange(16, 41) =~= STATE_TAG@);
    bytes::lemma_byte_range_of_u64();
    bytes::lemma_be_value_of_be_bytes(lineage_id as nat, 8);
    bytes::lemma_be_value_of_be_bytes(block_height as nat, 8);
}

/// What a commitment covers, byte by byte: the eight digits of the lineage to
/// base 256, most significant first, then those of the height, then the text
/// `guzcom-sovereign-state-v1`.
pub proof fn law_commitment_covers_lineage_height_and_tag(
    lineage_id: u64,
    block_height: u64,
    input: Seq<u8>,
)
    requires
        input.len() == 41,
        forall|i: int|
            0 <= i < 8 ==> #[trigger] input[i] as int == lineage_id as int / power::pow(
                256,
                (7 - i) as nat,
            ) % 256,
        forall|i: int|
            8 <= i < 16 ==> #[trigger] input[i] as int == block_height as int / power::pow(
                256,
                (15 - i) as nat,
            ) % 256,
        forall|i: int|
            16 <= i < 41 ==> #[trigger] input[i] as int == "guzcom-sovereign-state-v1"@[i - 16]
                as int,
    ensures
        commitment(lineage_id, block_height) == sha3_256_digest(input),
{
    let first = input.subrange(0, 8);
    let second = input.subrange(8, 16);
    bytes::law_eight_bytes_are_the_digits(first, lineage_id);
    bytes::law_eight_bytes_are_the_digits(second, block_height);
    assert forall|i: int| 0 <= i < 8 implies #[trigger] second[i] as int == block_height as int
        / power::pow(256, (7 - i) as nat) % 256 by {
        assert(second[i] == input[8 + i]);
        assert((15 - (8 + i)) as nat == (7 - i) as nat);
    }
    law_tag_names_the_format();
    assert forall|i: int| 0 <= i < 25 implies input[16 + i] == #[trigger] STATE_TAG@[i] by {
        assert(input[16 + i] as int == "guzcom-sovereign-state-v1"@[16 + i - 16] as int);
    }
    assert(input.subrange(16, 41) =~= STATE_TAG@);
    assert(commitment_input(lineage_id, block_height) =~= input) by {
        assert(input =~= first + second + input.subrange(16, 41));
    }
}

} // verus!
