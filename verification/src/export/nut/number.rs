//! Numbers, texts and checksums of a stream.
use super::fault::Fault;
use crate::bytes::{big_endian, push_all};
use vstd::prelude::*;

verus! {

/// One more than the greatest number of 64 bits.
pub open spec fn two64() -> int {
    0x1_0000_0000_0000_0000
}

/// A number with seven more bits read: those that do not fit are lost.
pub open spec fn continued(number: int, byte: u8) -> int {
    (number * 128 + byte % 128) % two64()
}

/// The number that is continued at `at`: seven bits a byte, the highest first,
/// every byte but the last with its top bit set, `left` bytes at most.
pub open spec fn number_from(
    s: Seq<u8>,
    at: int,
    number: int,
    left: nat,
    ended: Fault,
) -> Result<(u64, int), Fault>
    decreases left,
{
    if left == 0 {
        Err(Fault::NumberTooLong)
    } else if at < 0 || at >= s.len() {
        Err(ended)
    } else {
        let next = continued(number, s[at]);
        if s[at] < 128 {
            Ok((next as u64, at + 1))
        } else {
            number_from(s, at + 1, next, (left - 1) as nat, ended)
        }
    }
}

/// The number at `at` and where it ends: ten bytes at most.
pub open spec fn v_at(s: Seq<u8>, at: int, ended: Fault) -> Result<(u64, int), Fault> {
    number_from(s, at, 0, 10, ended)
}

/// The signed number an unsigned one codes: 0, 1, -1, 2, -2 and so on.
pub open spec fn signed_of(v: u64) -> i64 {
    let w = (v + 1) % two64();
    if w % 2 == 1 {
        (-(w / 2)) as i64
    } else {
        (w / 2) as i64
    }
}

/// The signed number at `at` and where it ends.
pub open spec fn s_at(s: Seq<u8>, at: int, ended: Fault) -> Result<(i64, int), Fault> {
    match v_at(s, at, ended) {
        Ok((v, next)) => Ok((signed_of(v), next)),
        Err(fault) => Err(fault),
    }
}

/// The bytes of a number but its last: seven bits each, top bit set.
pub open spec fn lead(n: int) -> Seq<u8>
    decreases n,
{
    if n <= 0 {
        Seq::empty()
    } else {
        lead(n / 128).push((128 + n % 128) as u8)
    }
}

/// A number as bytes.
pub open spec fn coded(n: int) -> Seq<u8> {
    lead(n / 128).push((n % 128) as u8)
}

/// The unsigned number that codes a signed one.
pub open spec fn unsigned_of(n: int) -> int {
    if n > 0 {
        2 * n - 1
    } else {
        -2 * n
    }
}

/// A signed number as bytes.
pub open spec fn coded_signed(n: int) -> Seq<u8> {
    coded(unsigned_of(n))
}

/// A number read agrees with what stands there.
pub open spec fn agrees<T>(read: Result<(T, usize), Fault>, there: Result<(T, int), Fault>) -> bool {
    match (read, there) {
        (Ok((a, next)), Ok((b, end))) => a == b && next == end,
        (Err(a), Err(b)) => a == b,
        _ => false,
    }
}

/// The number at `from` and where it ends.
pub fn read_number(data: &[u8], from: usize, ended: Fault) -> (read: Result<(u64, usize), Fault>)
    requires
        from <= data.len(),
    ensures
        agrees(read, v_at(data@, from as int, ended)),
        read matches Ok((_, next)) ==> from < next <= data.len(),
{
    let mut value: u64 = 0;
    let mut at: usize = from;
    let mut left: usize = 10;
    while left > 0
        invariant
            from <= at <= data.len(),
            left <= 10,
            v_at(data@, from as int, ended) == number_from(
                data@,
                at as int,
                value as int,
                left as nat,
                ended,
            ),
        decreases left,
    {
        if at >= data.len() {
            return Err(ended);
        }
        let byte: u8 = data[at];
        let next: u64 = (value % 0x200_0000_0000_0000) * 128 + (byte % 128) as u64;
        assert(next == continued(value as int, byte)) by {
            let high = value as int / 0x200_0000_0000_0000;
            let low = value as int % 0x200_0000_0000_0000;
            assert(value == high * 0x200_0000_0000_0000 + low);
            assert(value * 128 + byte % 128 == high * two64() + next);
            vstd::arithmetic::div_mod::lemma_mod_multiples_vanish(high, next as int, two64());
            vstd::arithmetic::div_mod::lemma_small_mod(next as nat, two64() as nat);
        }
        value = next;
        at = at + 1;
        if byte < 128 {
            return Ok((value, at));
        }
        left = left - 1;
    }
    Err(Fault::NumberTooLong)
}

/// A number read ends after it began, within the bytes there are.
pub proof fn lemma_number_ends(s: Seq<u8>, at: int, number: int, left: nat, ended: Fault)
    requires
        0 <= at,
    ensures
        number_from(s, at, number, left, ended) matches Ok((_, next)) ==> at < next <= s.len(),
    decreases left,
{
    if left > 0 && at < s.len() && s[at] >= 128 {
        lemma_number_ends(s, at + 1, continued(number, s[at]), (left - 1) as nat, ended);
    }
}

/// Append the bytes of `n` but its last.
fn put_lead(out: &mut Vec<u8>, n: u64)
    ensures
        final(out)@ == old(out)@ + lead(n as int),
    decreases n,
{
    let ghost start = out@;
    if n > 0 {
        put_lead(out, n / 128);
        out.push((128 + n % 128) as u8);
    }
    assert(out@ =~= start + lead(n as int));
}

/// Append a number.
pub fn put_v(out: &mut Vec<u8>, value: u64)
    ensures
        final(out)@ == old(out)@ + coded(value as int),
{
    let ghost start = out@;
    put_lead(out, value / 128);
    out.push((value % 128) as u8);
    assert(out@ =~= start + coded(value as int));
}

/// Append a signed number.
pub fn put_s(out: &mut Vec<u8>, value: i64)
    requires
        value > i64::MIN,
    ensures
        final(out)@ == old(out)@ + coded_signed(value as int),
{
    let v: u64 = if value > 0 {
        2 * (value as u64) - 1
    } else {
        2 * ((-value) as u64)
    };
    put_v(out, v);
}

/// Append a text: its length in bytes, then its bytes.
pub fn put_string(out: &mut Vec<u8>, text: &str)
    ensures
        final(out)@ == old(out)@ + coded_text(text@),
{
    let bytes: &[u8] = text.as_bytes();
    let ghost start = out@;
    put_v(out, bytes.len() as u64);
    push_all(out, bytes);
    assert(out@ =~= start + coded_text(text@));
}

/// A text as bytes: its length, then its UTF-8.
pub open spec fn coded_text(text: Seq<char>) -> Seq<u8> {
    let bytes = vstd::utf8::encode_utf8(text);
    coded(bytes.len() as int) + bytes
}

/// `part` stands at `at` of `s`.
pub open spec fn stands(s: Seq<u8>, at: int, part: Seq<u8>) -> bool {
    0 <= at && at + part.len() <= s.len() && s.subrange(at, at + part.len()) == part
}

/// Two parts stand where their concatenation does.
pub proof fn lemma_stands_split(s: Seq<u8>, at: int, a: Seq<u8>, b: Seq<u8>)
    requires
        stands(s, at, a + b),
    ensures
        stands(s, at, a),
        stands(s, at + a.len(), b),
{
    let whole = s.subrange(at, at + (a + b).len());
    assert forall|i: int| 0 <= i < a.len() implies s[at + i] == a[i] by {
        assert(whole[i] == (a + b)[i]);
    }
    assert forall|i: int| 0 <= i < b.len() implies s[at + a.len() + i] == b[i] by {
        assert(whole[a.len() + i] == (a + b)[a.len() + i]);
    }
    assert(s.subrange(at, at + a.len()) =~= a);
    assert(s.subrange(at + a.len(), at + a.len() + b.len()) =~= b);
}

/// The bytes of a number but its last: where they stand, reading goes on after
/// them with the number they make.
proof fn lemma_lead(s: Seq<u8>, at: int, n: int, left: nat, ended: Fault)
    requires
        0 <= n < two64(),
        stands(s, at, lead(n)),
        lead(n).len() <= left,
    ensures
        number_from(s, at, 0, left, ended) == number_from(
            s,
            at + lead(n).len(),
            n,
            (left - lead(n).len()) as nat,
            ended,
        ),
    decreases n,
{
    if n > 0 {
        let shorter = lead(n / 128);
        let last = (128 + n % 128) as u8;
        assert(lead(n) =~= shorter + seq![last]);
        lemma_stands_split(s, at, shorter, seq![last]);
        lemma_lead(s, at, n / 128, left, ended);
        let here = at + shorter.len();
        assert(s[here] == last) by {
            assert(s.subrange(here, here + 1)[0] == last);
        }
        assert(continued(n / 128, last) == n) by {
            assert((n / 128) * 128 + last % 128 == n);
            vstd::arithmetic::div_mod::lemma_small_mod(n as nat, two64() as nat);
        }
    }
}

/// A number has no more bytes than groups of seven bits.
proof fn lemma_lead_len(n: int, groups: nat, bound: int)
    requires
        0 <= n < bound,
        bound == power128(groups),
    ensures
        lead(n).len() <= groups,
    decreases groups,
{
    if n > 0 {
        assert(groups > 0);
        let less = power128((groups - 1) as nat);
        assert(n / 128 < less);
        lemma_lead_len(n / 128, (groups - 1) as nat, less);
    }
}

/// `128` to the power of `n`.
pub open spec fn power128(n: nat) -> int
    decreases n,
{
    if n == 0 {
        1
    } else {
        128 * power128((n - 1) as nat)
    }
}

/// A number read where it was written is the number written.
pub proof fn numbers_round_trip(s: Seq<u8>, at: int, n: u64, ended: Fault)
    requires
        stands(s, at, coded(n as int)),
    ensures
        v_at(s, at, ended) == Ok::<(u64, int), Fault>((n, at + coded(n as int).len())),
        coded(n as int).len() >= 1,
{
    let high = n as int / 128;
    let front = lead(high);
    let last = (n % 128) as u8;
    assert(coded(n as int) =~= front + seq![last]);
    lemma_stands_split(s, at, front, seq![last]);
    reveal_with_fuel(power128, 10);
    assert(power128(9) == 0x8000_0000_0000_0000);
    assert(high < power128(9));
    lemma_lead_len(high, 9, power128(9));
    lemma_lead(s, at, high, 10, ended);
    let here = at + front.len();
    assert(s[here] == last) by {
        assert(s.subrange(here, here + 1)[0] == last);
    }
    assert(continued(high, last) == n) by {
        assert(high * 128 + last % 128 == n);
        vstd::arithmetic::div_mod::lemma_small_mod(n as nat, two64() as nat);
    }
}

/// A number takes ten bytes at most.
pub proof fn lemma_coded_len(n: int)
    requires
        0 <= n < two64(),
    ensures
        1 <= coded(n).len() <= 10,
{
    reveal_with_fuel(power128, 10);
    assert(power128(9) == 0x8000_0000_0000_0000);
    lemma_lead_len(n / 128, 9, power128(9));
}

/// A signed number read where it was written is the number written.
pub proof fn signed_numbers_round_trip(s: Seq<u8>, at: int, n: i64, ended: Fault)
    requires
        n > i64::MIN,
        stands(s, at, coded_signed(n as int)),
    ensures
        s_at(s, at, ended) == Ok::<(i64, int), Fault>((n, at + coded_signed(n as int).len())),
{
    let v = unsigned_of(n as int) as u64;
    numbers_round_trip(s, at, v, ended);
    assert(signed_of(v) == n) by {
        vstd::arithmetic::div_mod::lemma_small_mod((v + 1) as nat, two64() as nat);
    }
}

/// One bit of the checksum.
pub open spec fn crc_bit(value: u32) -> u32 {
    if value & 0x8000_0000 == 0 {
        value << 1
    } else {
        (value << 1) ^ 0x04C1_1DB7
    }
}

/// The checksum with one more byte taken in.
pub open spec fn crc_byte(value: u32, byte: u8) -> u32 {
    crc_bit(
        crc_bit(
            crc_bit(
                crc_bit(crc_bit(crc_bit(crc_bit(crc_bit(value ^ ((byte as u32) << 24)))))),
            ),
        ),
    )
}

/// CRC-32, polynomial 0x04C11DB7, most significant bit first and no final
/// inversion, from `value` on.
pub open spec fn checksum(value: u32, bytes: Seq<u8>) -> u32
    decreases bytes.len(),
{
    if bytes.len() == 0 {
        value
    } else {
        crc_byte(checksum(value, bytes.drop_last()), bytes.last())
    }
}

/// A checksum can be continued: over two parts, one behind the other, it is the
/// second's from the first's on.
pub proof fn a_checksum_can_be_continued(value: u32, first: Seq<u8>, second: Seq<u8>)
    ensures
        checksum(value, first + second) == checksum(checksum(value, first), second),
    decreases second.len(),
{
    if second.len() == 0 {
        assert(first + second =~= first);
    } else {
        let both = first + second;
        assert(both.drop_last() =~= first + second.drop_last());
        assert(both.last() == second.last());
        a_checksum_can_be_continued(value, first, second.drop_last());
    }
}

/// The checksum of `bytes`, from `value` on.
pub fn crc(value: u32, bytes: &[u8]) -> (sum: u32)
    ensures
        sum == checksum(value, bytes@),
{
    let mut sum: u32 = value;
    let mut i: usize = 0;
    assert(bytes@.take(0).len() == 0);
    while i < bytes.len()
        invariant
            i <= bytes.len(),
            sum == checksum(value, bytes@.take(i as int)),
        decreases bytes.len() - i,
    {
        assert(bytes@.take(i + 1).drop_last() =~= bytes@.take(i as int));
        sum = sum ^ ((bytes[i] as u32) << 24);
        let mut bit: usize = 0;
        let ghost start = sum;
        while bit < 8
            invariant
                bit <= 8,
                bit == 0 ==> sum == start,
                bit == 1 ==> sum == crc_bit(start),
                bit == 2 ==> sum == crc_bit(crc_bit(start)),
                bit == 3 ==> sum == crc_bit(crc_bit(crc_bit(start))),
                bit == 4 ==> sum == crc_bit(crc_bit(crc_bit(crc_bit(start)))),
                bit == 5 ==> sum == crc_bit(crc_bit(crc_bit(crc_bit(crc_bit(start))))),
                bit == 6 ==> sum == crc_bit(crc_bit(crc_bit(crc_bit(crc_bit(crc_bit(start)))))),
                bit == 7 ==> sum == crc_bit(
                    crc_bit(crc_bit(crc_bit(crc_bit(crc_bit(crc_bit(start)))))),
                ),
                bit == 8 ==> sum == crc_bit(
                    crc_bit(crc_bit(crc_bit(crc_bit(crc_bit(crc_bit(crc_bit(start))))))),
                ),
            decreases 8 - bit,
        {
            sum = if sum & 0x8000_0000 == 0 {
                sum << 1
            } else {
                (sum << 1) ^ 0x04C1_1DB7
            };
            bit = bit + 1;
        }
        i = i + 1;
    }
    assert(bytes@.take(i as int) =~= bytes@);
    sum
}

/// Taking in the top byte of a checksum shifts it out.
proof fn lemma_crc_top(value: u32, byte: u8)
    requires
        byte as u32 == value >> 24,
    ensures
        crc_byte(value, byte) == value << 8,
{
    assert(crc_byte(value, byte) == value << 8) by (bit_vector)
        requires
            byte as u32 == value >> 24,
    ;
}

/// The checksum of data with its checksum appended is zero.
pub proof fn a_checksum_checks(bytes: Seq<u8>)
    ensures
        checksum(0, bytes + big_endian(checksum(0, bytes) as int, 4)) == 0,
{
    let c: u32 = checksum(0, bytes);
    let b0: u8 = ((c >> 24) & 0xff) as u8;
    let b1: u8 = ((c >> 16) & 0xff) as u8;
    let b2: u8 = ((c >> 8) & 0xff) as u8;
    let b3: u8 = (c & 0xff) as u8;
    let tail = big_endian(c as int, 4);
    reveal_with_fuel(big_endian, 5);
    assert((c >> 24) & 0xff == (c / 0x100_0000u32) % 256u32) by (bit_vector);
    assert((c >> 16) & 0xff == (c / 0x1_0000u32) % 256u32) by (bit_vector);
    assert((c >> 8) & 0xff == (c / 0x100u32) % 256u32) by (bit_vector);
    assert(c & 0xff == c % 256u32) by (bit_vector);
    assert(c as int / 256 / 256 == c as int / 0x1_0000);
    assert(c as int / 256 / 256 / 256 == c as int / 0x100_0000);
    assert(tail =~= seq![b0, b1, b2, b3]);
    let whole = bytes + tail;
    let (w1, w2, w3) = (bytes.push(b0), bytes.push(b0).push(b1), bytes.push(b0).push(b1).push(b2));
    assert(whole =~= w3.push(b3));
    assert(whole.drop_last() =~= w3);
    assert(w3.drop_last() =~= w2);
    assert(w2.drop_last() =~= w1);
    assert(w1.drop_last() =~= bytes);
    let c1: u32 = c << 8;
    let c2: u32 = c1 << 8;
    let c3: u32 = c2 << 8;
    assert(b0 as u32 == c >> 24) by (bit_vector)
        requires
            b0 == ((c >> 24) & 0xff) as u8,
    ;
    assert(b1 as u32 == (c << 8) >> 24) by (bit_vector)
        requires
            b1 == ((c >> 16) & 0xff) as u8,
    ;
    assert(b2 as u32 == ((c << 8) << 8) >> 24) by (bit_vector)
        requires
            b2 == ((c >> 8) & 0xff) as u8,
    ;
    assert(b3 as u32 == (((c << 8) << 8) << 8) >> 24) by (bit_vector)
        requires
            b3 == (c & 0xff) as u8,
    ;
    assert((((c << 8) << 8) << 8) << 8 == 0) by (bit_vector);
    lemma_crc_top(c, b0);
    lemma_crc_top(c1, b1);
    lemma_crc_top(c2, b2);
    lemma_crc_top(c3, b3);
    assert(checksum(0, w1) == c1);
    assert(checksum(0, w2) == c2);
    assert(checksum(0, w3) == c3);
}

} // verus!
