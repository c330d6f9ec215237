//! Numbers as bytes.
use vstd::prelude::*;

verus! {

/// The low `count` bytes of `n`, the lowest first.
pub open spec fn little_endian(n: int, count: nat) -> Seq<u8>
    decreases count,
{
    if count == 0 {
        Seq::empty()
    } else {
        seq![(n % 256) as u8] + little_endian(n / 256, (count - 1) as nat)
    }
}

/// The low `count` bytes of `n`, the highest first.
pub open spec fn big_endian(n: int, count: nat) -> Seq<u8>
    decreases count,
{
    if count == 0 {
        Seq::empty()
    } else {
        big_endian(n / 256, (count - 1) as nat).push((n % 256) as u8)
    }
}

/// The number little-endian bytes stand for.
pub open spec fn little_value(bytes: Seq<u8>) -> int
    decreases bytes.len(),
{
    if bytes.len() == 0 {
        0
    } else {
        bytes[0] + 256 * little_value(bytes.skip(1))
    }
}

/// The number big-endian bytes stand for.
pub open spec fn big_value(bytes: Seq<u8>) -> int
    decreases bytes.len(),
{
    if bytes.len() == 0 {
        0
    } else {
        256 * big_value(bytes.drop_last()) + bytes.last()
    }
}

/// `256` to the power of `n`.
pub open spec fn pow256(n: nat) -> int
    decreases n,
{
    if n == 0 {
        1
    } else {
        256 * pow256((n - 1) as nat)
    }
}

/// Writing a number in little-endian bytes and reading them gives it back,
/// where it fits.
pub proof fn little_endian_round_trip(n: int, count: nat)
    requires
        0 <= n < pow256(count),
    ensures
        little_endian(n, count).len() == count,
        little_value(little_endian(n, count)) == n,
    decreases count,
{
    if count > 0 {
        little_endian_round_trip(n / 256, (count - 1) as nat);
        let rest = little_endian(n / 256, (count - 1) as nat);
        assert(little_endian(n, count).skip(1) =~= rest);
        assert(little_endian(n, count)[0] == (n % 256) as u8);
    }
}

/// Writing a number in big-endian bytes and reading them gives it back, where
/// it fits.
pub proof fn big_endian_round_trip(n: int, count: nat)
    requires
        0 <= n < pow256(count),
    ensures
        big_endian(n, count).len() == count,
        big_value(big_endian(n, count)) == n,
    decreases count,
{
    if count > 0 {
        big_endian_round_trip(n / 256, (count - 1) as nat);
        let rest = big_endian(n / 256, (count - 1) as nat);
        assert(big_endian(n, count).drop_last() =~= rest);
    }
}

/// The number of bytes written is the number asked for.
pub proof fn lemma_endian_len(n: int, count: nat)
    ensures
        little_endian(n, count).len() == count,
        big_endian(n, count).len() == count,
    decreases count,
{
    if count > 0 {
        lemma_endian_len(n / 256, (count - 1) as nat);
    }
}

/// A signed number as the unsigned one with the same 64 bits.
pub open spec fn two_complement(n: i64) -> int {
    if n < 0 {
        n + 0x1_0000_0000_0000_0000
    } else {
        n as int
    }
}

/// A signed number as the unsigned one with the same 64 bits.
pub fn bits_of(n: i64) -> (bits: u64)
    ensures
        bits == two_complement(n),
{
    if n < 0 {
        (n as i128 + 0x1_0000_0000_0000_0000) as u64
    } else {
        n as u64
    }
}

/// Append the low `count` bytes of `n`, the lowest first.
pub fn push_little(bytes: &mut Vec<u8>, n: u64, count: usize)
    ensures
        final(bytes)@ == old(bytes)@ + little_endian(n as int, count as nat),
{
    let ghost start = bytes@;
    let mut left: u64 = n;
    let mut i: usize = 0;
    assert(bytes@ + little_endian(left as int, count as nat) =~= start + little_endian(
        n as int,
        count as nat,
    ));
    while i < count
        invariant
            i <= count,
            bytes@ + little_endian(left as int, (count - i) as nat) == start + little_endian(
                n as int,
                count as nat,
            ),
        decreases count - i,
    {
        let ghost before = bytes@;
        bytes.push((left % 256) as u8);
        assert(bytes@ + little_endian(left as int / 256, (count - i - 1) as nat) =~= before
            + little_endian(left as int, (count - i) as nat));
        left = left / 256;
        i = i + 1;
    }
    assert(bytes@ =~= bytes@ + little_endian(left as int, 0));
}

/// Append the low `count` bytes of `n`, the highest first.
pub fn push_big(bytes: &mut Vec<u8>, n: u64, count: usize)
    ensures
        final(bytes)@ == old(bytes)@ + big_endian(n as int, count as nat),
    decreases count,
{
    let ghost start = bytes@;
    if count > 0 {
        push_big(bytes, n / 256, count - 1);
        bytes.push((n % 256) as u8);
    }
    assert(bytes@ =~= start + big_endian(n as int, count as nat));
}

/// Append all of `more`.
pub fn push_all(bytes: &mut Vec<u8>, more: &[u8])
    ensures
        final(bytes)@ == old(bytes)@ + more@,
{
    let ghost start = bytes@;
    let mut i: usize = 0;
    assert(bytes@ =~= start + more@.take(0));
    while i < more.len()
        invariant
            i <= more.len(),
            bytes@ == start + more@.take(i as int),
        decreases more.len() - i,
    {
        bytes.push(more[i]);
        assert(more@.take(i + 1) =~= more@.take(i as int).push(more@[i as int]));
        assert(bytes@ =~= start + more@.take(i + 1));
        i = i + 1;
    }
    assert(more@.take(i as int) =~= more@);
}

/// Bytes stand for a number below that power of 256.
pub proof fn lemma_big_value(bytes: Seq<u8>)
    ensures
        0 <= big_value(bytes) < pow256(bytes.len()),
    decreases bytes.len(),
{
    if bytes.len() > 0 {
        lemma_big_value(bytes.drop_last());
    }
}

/// Eight bytes fit in 64 bits.
pub proof fn lemma_eight_bytes(count: nat)
    requires
        count <= 8,
    ensures
        pow256(count) <= 0x1_0000_0000_0000_0000,
{
    assert(pow256(0) == 1);
    assert(pow256(1) == 0x100);
    assert(pow256(2) == 0x1_0000);
    assert(pow256(3) == 0x100_0000);
    assert(pow256(4) == 0x1_0000_0000);
    assert(pow256(5) == 0x100_0000_0000);
    assert(pow256(6) == 0x1_0000_0000_0000);
    assert(pow256(7) == 0x100_0000_0000_0000);
    assert(pow256(8) == 0x1_0000_0000_0000_0000);
}

/// The number that the `count` bytes at `at` stand for, the highest first.
pub fn read_big(bytes: &[u8], at: usize, count: usize) -> (n: u64)
    requires
        count <= 8,
        at + count <= bytes@.len(),
    ensures
        n == big_value(bytes@.subrange(at as int, at + count)),
{
    let mut n: u64 = 0;
    let mut i: usize = 0;
    while i < count
        invariant
            i <= count <= 8,
            at + count <= bytes@.len(),
            n == big_value(bytes@.subrange(at as int, at + i)),
        decreases count - i,
    {
        proof {
            let more = bytes@.subrange(at as int, at + i + 1);
            assert(more.drop_last() =~= bytes@.subrange(at as int, at + i));
            assert(more.last() == bytes@[at + i]);
            lemma_big_value(more);
            lemma_eight_bytes((i + 1) as nat);
        }
        assert(at + i < bytes.len());
        n = n * 256 + bytes[at + i] as u64;
        i += 1;
    }
    n
}

} // verus!
