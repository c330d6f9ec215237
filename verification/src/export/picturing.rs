//! What a stream says of its pictures is read as it was written.
use crate::export::sps::{
    av1_of, bit_at, colour, golomb, h264_set, hevc_set, number_at, payload, Sequence,
};
use vstd::arithmetic::power2::{lemma2_to64, lemma_pow2_unfold, pow2};
use vstd::prelude::*;

verus! {

/// Eight bits on end are the byte they stand in, the highest first.
proof fn lemma_byte(b: Seq<u8>, k: int)
    requires
        0 <= k,
    ensures
        number_at(b, 8 * k, 8) == b[k],
        number_at(b, 8 * k + 3, 5) == b[k] % 32,
        number_at(b, 8 * k, 3) == b[k] / 32,
{
    reveal_with_fuel(number_at, 9);
    let x = b[k];
    assert forall|j: int| 0 <= j < 8 implies #[trigger] bit_at(b, 8 * k + j) == (x >> ((7 - j)
        as u8)) & 1u8 by {
        assert((8 * k + j) / 8 == k && (8 * k + j) % 8 == j);
    }
    let (a, c, d, e) = ((x >> 7u8) & 1u8, (x >> 6u8) & 1u8, (x >> 5u8) & 1u8, (x >> 4u8) & 1u8);
    let (f, g, h, i) = ((x >> 3u8) & 1u8, (x >> 2u8) & 1u8, (x >> 1u8) & 1u8, (x >> 0u8) & 1u8);
    assert(bit_at(b, 8 * k + 0) == a);
    assert(bit_at(b, 8 * k + 1) == c);
    assert(bit_at(b, 8 * k + 2) == d);
    assert(bit_at(b, 8 * k + 3) == e);
    assert(bit_at(b, 8 * k + 4) == f);
    assert(bit_at(b, 8 * k + 5) == g);
    assert(bit_at(b, 8 * k + 6) == h);
    assert(bit_at(b, 8 * k + 7) == i);
    assert(x == ((x >> 7u8) & 1u8) * 128 + ((x >> 6u8) & 1u8) * 64 + ((x >> 5u8) & 1u8) * 32 + ((x
        >> 4u8) & 1u8) * 16 + ((x >> 3u8) & 1u8) * 8 + ((x >> 2u8) & 1u8) * 4 + ((x >> 1u8) & 1u8)
        * 2 + ((x >> 0u8) & 1u8)) by (bit_vector);
    assert(a <= 1 && c <= 1 && d <= 1 && e <= 1 && f <= 1 && g <= 1 && h <= 1 && i <= 1) by {
        assert(forall|y: u8| #[trigger] (y & 1u8) <= 1) by (bit_vector);
    }
    assert(x % 32 == 16 * e + 8 * f + 4 * g + 2 * h + i);
    assert(x / 32 == 4 * a + 2 * c + d);
    assert(number_at(b, 8 * k, 3) == 4 * a + 2 * c + d);
    assert(number_at(b, 8 * k + 3, 5) == 16 * e + 8 * f + 4 * g + 2 * h + i);
}

/// A byte that keeps a start code apart is left out, and nothing else is: bytes
/// without a three are what they are, and a three behind two zeros goes.
pub proof fn only_kept_apart_bytes_are_left_out(bytes: Seq<u8>)
    requires
        forall|i: int| 0 <= i < bytes.len() ==> bytes[i] != 3,
    ensures
        payload(bytes) == bytes,
        payload(bytes + seq![0u8, 0, 3]) == bytes + seq![0u8, 0],
        bytes.len() > 0 && bytes.last() != 0 ==> payload(bytes + seq![3u8]) == bytes + seq![3u8],
{
    lemma_payload(bytes);
    let zeros = bytes + seq![0u8, 0];
    lemma_payload(zeros);
    let kept = bytes + seq![0u8, 0, 3];
    assert(kept.drop_last() =~= zeros);
    assert(kept[kept.len() - 1] == 3 && kept[kept.len() - 2] == 0 && kept[kept.len() - 3] == 0);
    let plain = bytes + seq![3u8];
    assert(plain.drop_last() =~= bytes);
    if bytes.len() > 0 {
        assert(plain[plain.len() - 2] == bytes.last());
    }
}

proof fn lemma_payload(bytes: Seq<u8>)
    requires
        forall|i: int| 0 <= i < bytes.len() ==> bytes[i] != 3,
    ensures
        payload(bytes) == bytes,
    decreases bytes.len(),
{
    if bytes.len() > 0 {
        lemma_payload(bytes.drop_last());
        assert(bytes.drop_last().push(bytes.last()) =~= bytes);
    }
}

/// A number of unknown length: behind as many zeros as it has digits more than
/// one, it stands in binary, one higher than it is.
pub proof fn a_number_of_unknown_length_reads_back(b: Seq<u8>, at: int, zeros: nat)
    requires
        0 <= at,
        zeros <= 31,
        at + 2 * zeros + 1 <= 8 * b.len(),
        forall|i: int| at <= i < at + zeros ==> #[trigger] bit_at(b, i) != 1,
        bit_at(b, at + zeros) == 1,
    ensures
        golomb(b, at) == Some(
            (number_at(b, at + zeros, zeros + 1) - 1, at + 2 * zeros + 1),
        ),
{
    lemma_zeros(b, at, zeros);
    lemma_leading(b, at + zeros, zeros);
}

proof fn lemma_zeros(b: Seq<u8>, at: int, zeros: nat)
    requires
        0 <= at,
        at + zeros < 8 * b.len(),
        forall|i: int| at <= i < at + zeros ==> #[trigger] bit_at(b, i) != 1,
        bit_at(b, at + zeros) == 1,
    ensures
        crate::export::sps::zeros_at(b, at) == zeros,
    decreases zeros,
{
    if zeros > 0 {
        assert(bit_at(b, at) != 1);
        lemma_zeros(b, at + 1, (zeros - 1) as nat);
    }
}

proof fn lemma_leading(b: Seq<u8>, at: int, count: nat)
    requires
        bit_at(b, at) == 1,
    ensures
        number_at(b, at, count + 1) == pow2(count) + number_at(
            b,
            at + 1,
            count,
        ),
    decreases count,
{
    if count > 0 {
        lemma_leading(b, at, (count - 1) as nat);
        assert((count + 1 - 1) as nat == count);
        assert(at + (count + 1) - 1 == at + 1 + count - 1);
        lemma_pow2_unfold(count);
    } else {
        reveal_with_fuel(number_at, 2);
        lemma2_to64();
    }
}

/// What an H.264 parameter set says: its profile and its level are bytes of
/// their own, chroma and depth stand behind its number where its profile is one
/// of the higher ones, else they are 4:2:0 and eight.
pub proof fn an_h264_set_says_what_it_holds(unit: Seq<u8>)
    ensures
        ({
            let b = payload(unit.skip(1));
            let plain = b[0] == 66 || b[0] == 77 || b[0] == 88;
            unit.len() >= 1 && b.len() >= 3 && plain ==> (h264_set(unit) is Some <==> golomb(b, 24)
                is Some)
        }),
        h264_set(unit) matches Some(said) ==> {
            let b = payload(unit.skip(1));
            let p = b[0];
            let high = p == 44 || p == 83 || p == 86 || p == 100 || p == 110 || p == 118 || p == 122
                || p == 128 || p == 134 || p == 135 || p == 138 || p == 139 || p == 244;
            &&& said.profile == b[0] && said.level == b[2]
            &&& !high ==> said.chroma == Some(1u8) && said.bit_depth == Some(8u8)
            &&& high ==> {
                let named = golomb(b, 24);
                let chroma = golomb(b, (named->0).1);
                let skipped: int = if (chroma->0).0 == 3 {
                    1
                } else {
                    0
                };
                let depth = golomb(b, (chroma->0).1 + skipped);
                &&& named is Some && chroma is Some && depth is Some
                &&& said.chroma == Some((chroma->0).0 as u8)
                &&& said.bit_depth == Some(((depth->0).0 + 8) as u8)
            }
        },
{
    reveal(h264_set);
    let b = payload(unit.skip(1));
    lemma_byte(b, 0);
    lemma_byte(b, 2);
    assert(8 * 0 == 0 && 8 * 2 == 16);
    assert(number_at(b, 0, 8) == b[0] && number_at(b, 16, 8) == b[2]);
}

/// What an HEVC parameter set says: its profile is five bits of its second byte,
/// its level a byte of its own.
pub proof fn an_hevc_set_says_what_it_holds(unit: Seq<u8>)
    ensures
        hevc_set(unit) matches Some(said) ==> {
            let b = payload(unit.skip(2));
            &&& b.len() >= 13
            &&& said.profile == b[1] % 32 && said.level == b[12]
            &&& said.chroma is Some && said.bit_depth is Some
        },
{
    reveal(hevc_set);
    let b = payload(unit.skip(2));
    lemma_byte(b, 1);
    lemma_byte(b, 12);
    assert(8 * 1 + 3 == 11 && 8 * 12 == 96);
    assert(number_at(b, 11, 5) == b[1] % 32 && number_at(b, 96, 8) == b[12]);
}

/// Chroma is told as it is coded, and depth eight bits above it.
pub proof fn a_depth_is_told_in_bits(chroma: u8, depth: u8)
    requires
        depth <= 247,
    ensures
        colour(chroma as int, depth as int) == Some((chroma, (depth + 8) as u8)),
{
}

/// What an AV1 record says: three bits of its second byte are its profile, the
/// other five its level.
pub proof fn an_av1_record_says_what_it_holds(record: Seq<u8>)
    requires
        record.len() >= 2,
        record[0] == 0x81,
    ensures
        av1_of(record) == Some(
            Sequence {
                profile: record[1] >> 5,
                level: record[1] & 0x1F,
                chroma: None,
                bit_depth: None,
            },
        ),
{
    let x = record[1];
    assert(x >> 5 == x / 32 && x & 0x1F == x % 32) by (bit_vector);
}

} // verus!
