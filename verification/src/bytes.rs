//! Byte strings: their lexicographic order and big-endian integers.

use vstd::prelude::*;
use vstd::arithmetic::div_mod;
use vstd::arithmetic::power;

verus! {

/// The lexicographic order on byte strings: the first differing byte decides,
/// and a proper prefix comes before its extensions.
pub open spec fn bytes_lt(a: Seq<u8>, b: Seq<u8>) -> bool
    decreases a.len(),
{
    if b.len() == 0 {
        false
    } else if a.len() == 0 {
        true
    } else if a[0] != b[0] {
        a[0] < b[0]
    } else {
        bytes_lt(a.drop_first(), b.drop_first())
    }
}

/// No byte string comes before itself.
pub proof fn lemma_bytes_lt_irreflexive(a: Seq<u8>)
    ensures
        !bytes_lt(a, a),
    decreases a.len(),
{
    if a.len() > 0 {
        lemma_bytes_lt_irreflexive(a.drop_first());
    }
}

/// The order is transitive.
pub proof fn lemma_bytes_lt_transitive(a: Seq<u8>, b: Seq<u8>, c: Seq<u8>)
    requires
        bytes_lt(a, b),
        bytes_lt(b, c),
    ensures
        bytes_lt(a, c),
    decreases a.len(),
{
    if a.len() > 0 && b.len() > 0 && c.len() > 0 && a[0] == b[0] && b[0] == c[0] {
        lemma_bytes_lt_transitive(a.drop_first(), b.drop_first(), c.drop_first());
    }
}

/// Two byte strings neither of which comes before the other are the same.
pub proof fn lemma_bytes_lt_total(a: Seq<u8>, b: Seq<u8>)
    ensures
        bytes_lt(a, b) || bytes_lt(b, a) || a == b,
    decreases a.len(),
{
    if a.len() == 0 && b.len() == 0 {
        assert(a =~= b);
    } else if a.len() > 0 && b.len() > 0 && a[0] == b[0] {
        lemma_bytes_lt_total(a.drop_first(), b.drop_first());
        if a.drop_first() == b.drop_first() {
            assert(a =~= seq![a[0]] + a.drop_first());
            assert(b =~= seq![b[0]] + b.drop_first());
        }
    }
}

/// At most one of `a < b` and `b < a` holds.
pub proof fn lemma_bytes_lt_asymmetric(a: Seq<u8>, b: Seq<u8>)
    requires
        bytes_lt(a, b),
    ensures
        !bytes_lt(b, a),
        a != b,
{
    lemma_bytes_lt_irreflexive(a);
    if bytes_lt(b, a) {
        lemma_bytes_lt_transitive(a, b, a);
    }
}

/// Whether `a` comes before `b`.
pub fn bytes_less(a: &[u8], b: &[u8]) -> (less: bool)
    ensures
        less == bytes_lt(a@, b@),
{
    let mut i: usize = 0;
    proof {
        assert(a@.skip(0) =~= a@);
        assert(b@.skip(0) =~= b@);
    }
    while i < a.len() && i < b.len()
        invariant
            i <= a@.len(),
            i <= b@.len(),
            bytes_lt(a@, b@) == bytes_lt(a@.skip(i as int), b@.skip(i as int)),
        decreases a@.len() - i,
    {
        if a[i] != b[i] {
            return a[i] < b[i];
        }
        proof {
            assert(a@.skip(i as int).drop_first() =~= a@.skip(i + 1));
            assert(b@.skip(i as int).drop_first() =~= b@.skip(i + 1));
        }
        i += 1;
    }
    i < b.len()
}

/// Whether two byte strings are the same.
pub fn bytes_equal(a: &[u8], b: &[u8]) -> (equal: bool)
    ensures
        equal == (a@ == b@),
{
    if a.len() != b.len() {
        return false;
    }
    let mut i: usize = 0;
    while i < a.len()
        invariant
            i <= a@.len(),
            a@.len() == b@.len(),
            forall|j: int| 0 <= j < i ==> a@[j] == b@[j],
        decreases a@.len() - i,
    {
        if a[i] != b[i] {
            return false;
        }
        i += 1;
    }
    assert(a@ =~= b@);
    true
}

/// The number of values that `len` bytes can hold.
pub open spec fn byte_range(len: nat) -> nat
    decreases len,
{
    if len == 0 {
        1
    } else {
        256 * byte_range((len - 1) as nat)
    }
}

/// The value of a byte string read as a big-endian integer.
pub open spec fn be_value(bytes: Seq<u8>) -> nat
    decreases bytes.len(),
{
    if bytes.len() == 0 {
        0
    } else {
        256 * be_value(bytes.drop_last()) + bytes.last() as nat
    }
}

/// The `len` low-order bytes of `value`, most significant first.
pub open spec fn be_bytes(value: nat, len: nat) -> Seq<u8>
    decreases len,
{
    if len == 0 {
        Seq::empty()
    } else {
        be_bytes(value / 256, (len - 1) as nat).push((value % 256) as u8)
    }
}

/// `be_bytes` gives exactly `len` bytes.
pub proof fn lemma_be_bytes_len(value: nat, len: nat)
    ensures
        be_bytes(value, len).len() == len,
    decreases len,
{
    if len > 0 {
        lemma_be_bytes_len(value / 256, (len - 1) as nat);
    }
}

/// A big-endian value stays below the range of its width.
pub proof fn lemma_be_value_bound(bytes: Seq<u8>)
    ensures
        be_value(bytes) < byte_range(bytes.len()),
    decreases bytes.len(),
{
    if bytes.len() > 0 {
        lemma_be_value_bound(bytes.drop_last());
    }
}

/// Wider byte strings have larger ranges.
proof fn lemma_byte_range_monotonic(small: nat, large: nat)
    requires
        small <= large,
    ensures
        byte_range(small) <= byte_range(large),
    decreases large,
{
    if small < large {
        lemma_byte_range_monotonic(small, (large - 1) as nat);
    }
}

/// Reading a big-endian encoding gives back the encoded value.
pub proof fn lemma_be_value_of_be_bytes(value: nat, len: nat)
    requires
        value < byte_range(len),
    ensures
        be_value(be_bytes(value, len)) == value,
    decreases len,
{
    if len > 0 {
        let rest = be_bytes(value / 256, (len - 1) as nat);
        lemma_be_value_of_be_bytes(value / 256, (len - 1) as nat);
        assert(be_bytes(value, len).drop_last() =~= rest);
    }
}

/// Encoding the value of a byte string gives back the byte string.
pub proof fn lemma_be_bytes_of_be_value(bytes: Seq<u8>)
    ensures
        be_bytes(be_value(bytes), bytes.len()) == bytes,
    decreases bytes.len(),
{
    if bytes.len() > 0 {
        lemma_be_bytes_of_be_value(bytes.drop_last());
        assert(bytes.drop_last().push(bytes.last()) =~= bytes);
    } else {
        assert(be_bytes(be_value(bytes), bytes.len()) =~= bytes);
    }
}

/// The range of eight bytes is the range of a `u64`.
pub proof fn lemma_byte_range_of_u64()
    ensures
        byte_range(8) == u64::MAX + 1,
{
    reveal_with_fuel(byte_range, 9);
}

/// Reads eight bytes as a big-endian integer.
pub fn read_u64(bytes: &[u8]) -> (value: u64)
    requires
        bytes@.len() == 8,
    ensures
        value == be_value(bytes@),
{
    let mut value: u64 = 0;
    let mut i: usize = 0;
    while i < 8
        invariant
            i <= 8,
            bytes@.len() == 8,
            value == be_value(bytes@.take(i as int)),
        decreases 8 - i,
    {
        proof {
            let next = bytes@.take(i + 1);
            assert(next.drop_last() =~= bytes@.take(i as int));
            lemma_be_value_bound(next);
            lemma_byte_range_monotonic((i + 1) as nat, 8);
            lemma_byte_range_of_u64();
        }
        value = value * 256 + bytes[i] as u64;
        i += 1;
    }
    assert(bytes@.take(8) =~= bytes@);
    value
}

/// Appends the `len` low-order bytes of `value`, most significant first.
pub fn append_be(out: &mut Vec<u8>, value: u64, len: usize)
    ensures
        final(out)@ == old(out)@ + be_bytes(value as nat, len as nat),
    decreases len,
{
    if len == 0 {
        assert(out@ =~= out@ + be_bytes(value as nat, 0));
        return;
    }
    append_be(out, value / 256, len - 1);
    let low: u8 = (value % 256) as u8;
    out.push(low);
    assert(out@ =~= old(out)@ + be_bytes(value as nat, len as nat));
}

/// Appends a byte string.
pub fn append_bytes(out: &mut Vec<u8>, bytes: &[u8])
    ensures
        final(out)@ == old(out)@ + bytes@,
{
    out.extend_from_slice(bytes);
    assert(out@ =~= old(out)@ + bytes@);
}

/// The order is that of a dictionary: `a` comes before `b` exactly where, after
/// some common beginning, `a` ends and `b` goes on, or `a` goes on with the
/// smaller byte.
pub proof fn law_order_is_lexicographic(a: Seq<u8>, b: Seq<u8>)
    ensures
        bytes_lt(a, b) <==> exists|i: int|
            0 <= i <= a.len() && i < b.len() && a.take(i) == #[trigger] b.take(i) && (i == a.len()
                || (a[i] as int) < (b[i] as int)),
{
    if bytes_lt(a, b) {
        let i = lemma_deciding_position(a, b);
        assert(a.take(i) =~= b.take(i));
    }
    assert forall|i: int|
        0 <= i <= a.len() && i < b.len() && a.take(i) == #[trigger] b.take(i) && (i == a.len() || (
        a[i] as int) < (b[i] as int)) implies bytes_lt(a, b) by {
        assert forall|k: int| 0 <= k < i implies a[k] == b[k] by {
            assert(a.take(i)[k] == b.take(i)[k]);
        }
        lemma_position_decides(a, b, i);
    }
}

/// Where it is decided that `a` comes before `b`.
proof fn lemma_deciding_position(a: Seq<u8>, b: Seq<u8>) -> (i: int)
    requires
        bytes_lt(a, b),
    ensures
        0 <= i <= a.len(),
        i < b.len(),
        forall|k: int| 0 <= k < i ==> a[k] == b[k],
        i == a.len() || a[i] < b[i],
    decreases a.len(),
{
    if a.len() > 0 && a[0] == b[0] {
        let rest = lemma_deciding_position(a.drop_first(), b.drop_first());
        assert forall|k: int| 0 <= k < rest + 1 implies a[k] == b[k] by {
            if k > 0 {
                assert(a.drop_first()[k - 1] == b.drop_first()[k - 1]);
            }
        }
        rest + 1
    } else {
        0
    }
}

/// A position that decides puts `a` before `b`.
proof fn lemma_position_decides(a: Seq<u8>, b: Seq<u8>, i: int)
    requires
        0 <= i <= a.len(),
        i < b.len(),
        forall|k: int| 0 <= k < i ==> a[k] == b[k],
        i == a.len() || a[i] < b[i],
    ensures
        bytes_lt(a, b),
    decreases a.len(),
{
    if i > 0 {
        assert(a[0] == b[0]);
        assert forall|k: int| 0 <= k < i - 1 implies a.drop_first()[k] == b.drop_first()[k] by {
            assert(a[k + 1] == b[k + 1]);
        }
        lemma_position_decides(a.drop_first(), b.drop_first(), i - 1);
    }
}

/// The bytes of a big-endian encoding, each by its weight: the last byte counts
/// ones, and each byte before it counts 256 times what the next one counts.
pub proof fn law_encoded_bytes_have_falling_weights(value: nat, len: nat)
    ensures
        be_bytes(value, len).len() == len,
        forall|i: int|
            0 <= i < len ==> #[trigger] be_bytes(value, len)[i] as int == value as int / power::pow(
                256,
                (len - 1 - i) as nat,
            ) % 256,
    decreases len,
{
    lemma_be_bytes_len(value, len);
    if len > 0 {
        let shorter = (len - 1) as nat;
        law_encoded_bytes_have_falling_weights(value / 256, shorter);
        assert forall|i: int| 0 <= i < len implies #[trigger] be_bytes(value, len)[i] as int
            == value as int / power::pow(256, (len - 1 - i) as nat) % 256 by {
            if i == len - 1 {
                power::lemma_pow0(256);
            } else {
                let weight = power::pow(256, (shorter - 1 - i) as nat);
                assert(be_bytes(value, len)[i] == be_bytes(value / 256, shorter)[i]);
                power::lemma_pow_positive(256, (shorter - 1 - i) as nat);
                div_mod::lemma_div_denominator(value as int, 256, weight);
                assert(power::pow(256, (len - 1 - i) as nat) == 256 * weight) by {
                    reveal(power::pow);
                }
            }
        }
    }
}

/// Eight bytes hold the sum of their values by weight, the first byte the most
/// significant.
pub proof fn law_eight_bytes_are_a_weighted_sum(bytes: Seq<u8>)
    requires
        bytes.len() == 8,
    ensures
        be_value(bytes) == bytes[0] * 0x100_0000_0000_0000 + bytes[1] * 0x1_0000_0000_0000
            + bytes[2] * 0x100_0000_0000 + bytes[3] * 0x1_0000_0000 + bytes[4] * 0x100_0000
            + bytes[5] * 0x1_0000 + bytes[6] * 0x100 + bytes[7],
{
    reveal_with_fuel(be_value, 9);
}

/// One more byte at the end moves the value up by a byte and adds to it.
pub proof fn law_appended_byte_is_least_significant(bytes: Seq<u8>, last: u8)
    ensures
        be_value(Seq::empty()) == 0,
        be_value(bytes.push(last)) == 256 * be_value(bytes) + last,
{
    assert(bytes.push(last).drop_last() =~= bytes);
}

/// Eight bytes are read as `value`, and `value` is written as these bytes, both
/// exactly where each byte is the digit of `value` to base 256 at its place.
pub proof fn law_eight_bytes_are_the_digits(bytes: Seq<u8>, value: u64)
    requires
        bytes.len() == 8,
    ensures
        be_value(bytes) == value <==> forall|i: int|
            0 <= i < 8 ==> #[trigger] bytes[i] as int == value as int / power::pow(
                256,
                (7 - i) as nat,
            ) % 256,
        be_bytes(value as nat, 8) == bytes <==> forall|i: int|
            0 <= i < 8 ==> #[trigger] bytes[i] as int == value as int / power::pow(
                256,
                (7 - i) as nat,
            ) % 256,
{
    let written = be_bytes(value as nat, 8);
    law_encoded_bytes_have_falling_weights(value as nat, 8);
    lemma_byte_range_of_u64();
    lemma_be_value_of_be_bytes(value as nat, 8);
    lemma_be_bytes_of_be_value(bytes);
    if forall|i: int|
        0 <= i < 8 ==> #[trigger] bytes[i] as int == value as int / power::pow(256, (7 - i) as nat)
            % 256 {
        assert forall|i: int| 0 <= i < 8 implies written[i] == bytes[i] by {
            assert(bytes[i] as int == value as int / power::pow(256, (7 - i) as nat) % 256);
        }
        assert(written =~= bytes);
    }
    if written == bytes {
        assert forall|i: int| 0 <= i < 8 implies #[trigger] bytes[i] as int == value as int
            / power::pow(256, (7 - i) as nat) % 256 by {
            assert(written[i] as int == value as int / power::pow(256, (8 - 1 - i) as nat) % 256);
        }
    }
}

/// Eight bytes inside a byte string, from position `at` on, are read as `value`
/// exactly where each is the digit of `value` to base 256 at its place.
pub proof fn law_eight_bytes_inside_are_the_digits(bytes: Seq<u8>, at: int, value: u64)
    requires
        0 <= at <= bytes.len() - 8,
    ensures
        be_value(bytes.subrange(at, at + 8)) == value <==> forall|i: int|
            at <= i < at + 8 ==> #[trigger] bytes[i] as int == value as int / power::pow(
                256,
                (at + 7 - i) as nat,
            ) % 256,
{
    let part = bytes.subrange(at, at + 8);
    law_eight_bytes_are_the_digits(part, value);
    if be_value(part) == value {
        assert forall|i: int| at <= i < at + 8 implies #[trigger] bytes[i] as int == value as int
            / power::pow(256, (at + 7 - i) as nat) % 256 by {
            assert(part[i - at] as int == value as int / power::pow(256, (7 - (i - at)) as nat)
                % 256);
        }
    }
    if forall|i: int|
        at <= i < at + 8 ==> #[trigger] bytes[i] as int == value as int / power::pow(
            256,
            (at + 7 - i) as nat,
        ) % 256 {
        assert forall|i: int| 0 <= i < 8 implies #[trigger] part[i] as int == value as int
            / power::pow(256, (7 - i) as nat) % 256 by {
            assert(bytes[at + i] as int == value as int / power::pow(
                256,
                (at + 7 - (at + i)) as nat,
            ) % 256);
        }
    }
}

} // verus!
