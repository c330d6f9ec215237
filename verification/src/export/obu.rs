//! The units of an AV1 stream (OBUs).
use crate::export::sps::lemma_obu_header;
use vstd::prelude::*;

verus! {

/// What kind of unit a header byte announces: 1 is a sequence header, 2 a
/// temporal delimiter.
pub open spec fn kind_of(header: u8) -> u8 {
    (header / 8) % 16
}

/// An extension byte follows the header.
pub open spec fn is_extended(header: u8) -> bool {
    (header / 4) % 2 == 1
}

/// A size field follows the header.
pub open spec fn is_sized(header: u8) -> bool {
    (header / 2) % 2 == 1
}

/// A power of 128.
pub open spec fn pow128(n: nat) -> int
    decreases n,
{
    if n == 0 {
        1
    } else {
        128 * pow128((n - 1) as nat)
    }
}

/// The number at `at` in bytes of seven bits each, the lowest first, the last
/// the first below 128 or the `most`th: its value, where it ends, and whether
/// it ended of itself. Nothing where the bytes run out.
pub open spec fn number_at(data: Seq<u8>, at: int, most: nat) -> Option<(int, int, bool)>
    decreases most,
{
    if at < 0 || at >= data.len() || most == 0 {
        None
    } else if data[at] < 128 {
        Some((data[at] as int, at + 1, true))
    } else if most == 1 {
        Some(((data[at] % 128) as int, at + 1, false))
    } else {
        match number_at(data, at + 1, (most - 1) as nat) {
            None => None,
            Some((rest, next, ended)) => Some((data[at] % 128 + 128 * rest, next, ended)),
        }
    }
}

/// A number of some bytes is below that power, and ends behind its start.
proof fn lemma_number(data: Seq<u8>, at: int, most: nat)
    ensures
        number_at(data, at, most) matches Some((value, next, _)) ==> 0 <= value < pow128(most)
            && at < next <= data.len(),
    decreases most,
{
    if most > 0 {
        lemma_number(data, at + 1, (most - 1) as nat);
        lemma_pow128((most - 1) as nat);
    }
}

/// A power of 128 is positive.
proof fn lemma_pow128(n: nat)
    ensures
        pow128(n) >= 1,
    decreases n,
{
    if n > 0 {
        lemma_pow128((n - 1) as nat);
    }
}

/// Nine bytes of seven bits fit in 63.
proof fn lemma_nine()
    ensures
        pow128(9) == 0x8000_0000_0000_0000,
{
    assert(pow128(1) == 128) by {
        assert(pow128(0) == 1);
    }
    assert(pow128(2) == 0x4000);
    assert(pow128(3) == 0x20_0000);
    assert(pow128(4) == 0x1000_0000);
    assert(pow128(5) == 0x8_0000_0000);
    assert(pow128(6) == 0x400_0000_0000);
    assert(pow128(7) == 0x2_0000_0000_0000);
    assert(pow128(8) == 0x100_0000_0000_0000);
}

/// More bytes make a number no smaller.
proof fn lemma_pow128_rises(some: nat, more: nat)
    requires
        some <= more,
    ensures
        pow128(some) <= pow128(more),
    decreases more,
{
    if some < more {
        lemma_pow128_rises(some, (more - 1) as nat);
        lemma_pow128((more - 1) as nat);
    }
}

/// The number at `at` in bytes of seven bits each, `most` of them at most.
pub fn number(data: &[u8], at: usize, most: u8) -> (result: Option<(u64, usize, bool)>)
    requires
        most <= 9,
        at <= data@.len(),
    ensures
        match number_at(data@, at as int, most as nat) {
            Some((value, next, ended)) => {
                &&& result matches Some((v, n, e)) && v == value && n == next && e == ended
                &&& at < next <= data@.len()
            },
            None => result is None,
        },
    decreases most,
{
    if at >= data.len() || most == 0 {
        return None;
    }
    proof {
        lemma_obu_header(data@[at as int]);
        lemma_number(data@, at as int, most as nat);
        lemma_nine();
        lemma_pow128_rises(most as nat, 9);
    }
    let byte = data[at];
    if byte < 128 {
        return Some((byte as u64, at + 1, true));
    }
    if most == 1 {
        return Some(((byte % 128) as u64, at + 1, false));
    }
    match number(data, at + 1, most - 1) {
        None => None,
        Some((rest, next, ended)) => Some(((byte % 128) as u64 + 128 * rest, next, ended)),
    }
}

/// A temporal unit starts, behind temporal delimiters, with a sequence
/// header.
pub open spec fn header_from(data: Seq<u8>, at: int) -> bool
    decreases data.len() - at,
    via header_from_decreases
{
    if at < 0 || at >= data.len() {
        false
    } else if kind_of(data[at]) == 1 {
        true
    } else if kind_of(data[at]) != 2 || !is_sized(data[at]) {
        false
    } else {
        match number_at(
            data,
            if is_extended(data[at]) {
                at + 2
            } else {
                at + 1
            },
            9,
        ) {
            None => false,
            Some((size, next, _)) => next + size < data.len() && header_from(data, next + size),
        }
    }
}

#[via_fn]
proof fn header_from_decreases(data: Seq<u8>, at: int) {
    lemma_number(
        data,
        if is_extended(data[at]) {
            at + 2
        } else {
            at + 1
        },
        9,
    );
}

/// Whether an AV1 temporal unit already starts with a sequence header.
pub fn starts_with_sequence_header(data: &[u8]) -> (yes: bool)
    ensures
        yes == header_from(data@, 0),
{
    let mut at: usize = 0;
    while at < data.len()
        invariant
            at <= data@.len(),
            header_from(data@, 0) == header_from(data@, at as int),
        decreases data@.len() - at,
    {
        let header = data[at];
        proof {
            lemma_obu_header(header);
        }
        let kind = (header >> 3) & 0x0F;
        if kind == 1 {
            return true;
        }
        if kind != 2 || header & 0x02 == 0 {
            return false;
        }
        let behind: usize = at + 1;
        if header & 0x04 != 0 && behind == data.len() {
            return false;
        }
        let start: usize = if header & 0x04 != 0 {
            behind + 1
        } else {
            behind
        };
        match number(data, start, 9) {
            None => {
                return false;
            },
            Some((size, next, _)) => {
                if size >= (data.len() - next) as u64 {
                    return false;
                }
                at = next + size as usize;
            },
        }
    }
    false
}

/// A unit: its kind, and its bytes with their header.
pub struct Unit {
    pub kind: u8,
    pub bytes: Seq<u8>,
}

/// One unit in front of others.
pub open spec fn before(unit: Unit, rest: Option<Seq<Unit>>) -> Option<Seq<Unit>> {
    match rest {
        Some(rest) => Some(seq![unit] + rest),
        None => None,
    }
}

/// The units of a temporal unit from `at` on. One without a size runs to the
/// end. Nothing where a size is cut off, is too long or runs past the end.
pub open spec fn units_at(data: Seq<u8>, at: int) -> Option<Seq<Unit>>
    decreases data.len() - at,
    via units_at_decreases
{
    if at < 0 || at >= data.len() {
        Some(Seq::empty())
    } else if !is_sized(data[at]) {
        Some(seq![Unit { kind: kind_of(data[at]), bytes: data.skip(at) }])
    } else {
        match number_at(
            data,
            if is_extended(data[at]) {
                at + 2
            } else {
                at + 1
            },
            9,
        ) {
            None => None,
            Some((size, next, ended)) => if !ended || next + size > data.len() {
                None
            } else {
                before(
                    Unit { kind: kind_of(data[at]), bytes: data.subrange(at, next + size) },
                    units_at(data, next + size),
                )
            },
        }
    }
}

#[via_fn]
proof fn units_at_decreases(data: Seq<u8>, at: int) {
    lemma_number(
        data,
        if is_extended(data[at]) {
            at + 2
        } else {
            at + 1
        },
        9,
    );
}

/// What a list of borrowed units says.
pub open spec fn units_in(units: Seq<(u8, &[u8])>) -> Seq<Unit> {
    units.map_values(|unit: (u8, &[u8])| Unit { kind: unit.0, bytes: unit.1@ })
}

/// The units of an AV1 temporal unit, each with its header.
pub fn obus(data: &[u8]) -> (units: Option<Vec<(u8, &[u8])>>)
    ensures
        match units_at(data@, 0) {
            Some(list) => units is Some && units_in(units->0@) == list,
            None => units is None,
        },
{
    let mut units: Vec<(u8, &[u8])> = Vec::new();
    let mut at: usize = 0;
    let ghost all = units_at(data@, 0);
    proof {
        assert(units_in(units@) =~= Seq::empty());
        if all is Some {
            assert(Seq::<Unit>::empty() + all->0 =~= all->0);
        }
    }
    while at < data.len()
        invariant
            at <= data@.len(),
            all == units_at(data@, 0),
            match units_at(data@, at as int) {
                Some(rest) => all == Some(units_in(units@) + rest),
                None => all is None,
            },
        decreases data@.len() - at,
    {
        let header = data[at];
        let start: usize = at;
        let ghost held = units@;
        proof {
            lemma_obu_header(header);
        }
        let kind = (header >> 3) & 0x0F;
        if header & 0x02 == 0 {
            units.push((kind, vstd::slice::slice_subrange(data, start, data.len())));
            proof {
                let last = Unit { kind, bytes: data@.skip(start as int) };
                assert(data@.subrange(start as int, data@.len() as int) =~= data@.skip(
                    start as int,
                ));
                assert(units_in(units@) =~= units_in(held) + seq![last]);
            }
            return Some(units);
        }
        let behind: usize = at + 1;
        if header & 0x04 != 0 && behind == data.len() {
            return None;
        }
        let field: usize = if header & 0x04 != 0 {
            behind + 1
        } else {
            behind
        };
        match number(data, field, 9) {
            None => {
                return None;
            },
            Some((size, next, ended)) => {
                if !ended || size > (data.len() - next) as u64 {
                    return None;
                }
                let end: usize = next + size as usize;
                units.push((kind, vstd::slice::slice_subrange(data, start, end)));
                proof {
                    let unit = Unit { kind, bytes: data@.subrange(start as int, end as int) };
                    assert(units_in(units@) =~= units_in(held).push(unit));
                    if let Some(rest) = units_at(data@, end as int) {
                        assert(units_in(held) + (seq![unit] + rest) =~= units_in(units@) + rest);
                    }
                }
                at = end;
            },
        }
    }
    proof {
        assert(units_in(units@) + Seq::<Unit>::empty() =~= units_in(units@));
    }
    Some(units)
}

/// A number that is there reads the same with more behind it.
proof fn lemma_number_before(data: Seq<u8>, more: Seq<u8>, at: int, most: nat)
    requires
        number_at(data, at, most) is Some,
    ensures
        number_at(data + more, at, most) == number_at(data, at, most),
    decreases most,
{
    assert((data + more)[at] == data[at]);
    if data[at] >= 128 && most > 1 {
        lemma_number_before(data, more, at + 1, (most - 1) as nat);
    }
}

/// A number reads the same behind what was put in front.
proof fn lemma_number_behind(front: Seq<u8>, data: Seq<u8>, at: int, most: nat)
    requires
        0 <= at,
    ensures
        match number_at(data, at, most) {
            Some((value, next, ended)) => number_at(front + data, front.len() + at, most) == Some(
                (value, front.len() + next, ended),
            ),
            None => number_at(front + data, front.len() + at, most) is None,
        },
    decreases most,
{
    if at < data.len() && most > 0 {
        assert((front + data)[front.len() + at] == data[at]);
        if data[at] >= 128 && most > 1 {
            lemma_number_behind(front, data, at + 1, (most - 1) as nat);
        }
    }
}

/// The units behind what was put in front are the data's.
proof fn lemma_units_behind(front: Seq<u8>, data: Seq<u8>, at: int)
    requires
        0 <= at,
    ensures
        units_at(front + data, front.len() + at) == units_at(data, at),
    decreases data.len() - at,
{
    let whole = front + data;
    let n = front.len() as int;
    if at < data.len() {
        assert(whole[n + at] == data[at]);
        if !is_sized(data[at]) {
            assert(whole.skip(n + at) =~= data.skip(at));
        } else {
            let from = if is_extended(data[at]) {
                at + 2
            } else {
                at + 1
            };
            lemma_number_behind(front, data, from, 9);
            lemma_number(data, from, 9);
            if let Some((size, next, ended)) = number_at(data, from, 9) {
                if ended && next + size <= data.len() {
                    assert(whole.subrange(n + at, n + next + size) =~= data.subrange(
                        at,
                        next + size,
                    ));
                    lemma_units_behind(front, data, next + size);
                }
            }
        }
    }
}

/// Units that state their size, in front of others, are the first.
pub proof fn lemma_units_in_front(front: Seq<u8>, data: Seq<u8>, at: int)
    requires
        0 <= at,
        units_at(front, at) is Some,
        forall|i: int|
            0 <= i < units_at(front, at)->0.len() ==> is_sized(
                (#[trigger] units_at(front, at)->0[i]).bytes[0],
            ),
        units_at(data, 0) is Some,
        at <= front.len(),
    ensures
        units_at(front + data, at) == Some(units_at(front, at)->0 + units_at(data, 0)->0),
    decreases front.len() - at,
{
    let whole = front + data;
    let mine = units_at(front, at)->0;
    let rest = units_at(data, 0)->0;
    if at >= front.len() {
        lemma_units_behind(front, data, 0);
        assert(mine + rest =~= rest);
    } else {
        assert(whole[at] == front[at]);
        if !is_sized(front[at]) {
            assert(mine[0].bytes[0] == front[at]);
        }
        let from = if is_extended(front[at]) {
            at + 2
        } else {
            at + 1
        };
        lemma_number(front, from, 9);
        lemma_number_before(front, data, from, 9);
        let (size, next, _) = number_at(front, from, 9)->0;
        let later = units_at(front, next + size)->0;
        let unit = Unit { kind: kind_of(front[at]), bytes: front.subrange(at, next + size) };
        assert(mine == seq![unit] + later);
        assert forall|i: int| 0 <= i < later.len() implies is_sized(
            (#[trigger] later[i]).bytes[0],
        ) by {
            assert(mine[i + 1] == later[i]);
        }
        lemma_units_in_front(front, data, next + size);
        assert(whole.subrange(at, next + size) =~= unit.bytes);
        assert(mine + rest =~= seq![unit] + (later + rest));
    }
}

/// What a unit's header says, by its bits.
pub proof fn a_header_says_what_its_bits_do(header: u8)
    ensures
        kind_of(header) == (header >> 3) & 0xF,
        is_extended(header) <==> header & 4 == 4,
        is_sized(header) <==> header & 2 == 2,
{
    assert((header / 8) % 16 == (header >> 3) & 0xF) by (bit_vector);
    assert((header / 4) % 2 == 1 <==> header & 4 == 4) by (bit_vector);
    assert((header / 2) % 2 == 1 <==> header & 2 == 2) by (bit_vector);
}

/// A number as it is written: seven bits a byte, the lowest first, every byte but the
/// last marked.
pub open spec fn written_number(value: nat) -> Seq<u8>
    decreases value,
{
    if value < 128 {
        seq![value as u8]
    } else {
        seq![(value % 128 + 128) as u8] + written_number(value / 128)
    }
}

/// A number that is written so reads back, whatever follows it.
pub proof fn a_written_number_reads_back(value: nat, rest: Seq<u8>, most: nat)
    requires
        written_number(value).len() <= most,
    ensures
        number_at(written_number(value) + rest, 0, most) == Some(
            (value as int, written_number(value).len() as int, true),
        ),
{
    lemma_number_at(value, Seq::empty(), rest, most);
    assert(Seq::<u8>::empty() + written_number(value) + rest =~= written_number(value) + rest);
}

proof fn lemma_number_at(value: nat, front: Seq<u8>, rest: Seq<u8>, most: nat)
    requires
        written_number(value).len() <= most,
    ensures
        number_at(front + written_number(value) + rest, front.len() as int, most) == Some(
            (value as int, (front.len() + written_number(value).len()) as int, true),
        ),
    decreases value,
{
    let data = front + written_number(value) + rest;
    let at = front.len() as int;
    assert(data[at] == written_number(value)[0]);
    if value >= 128 {
        let byte = (value % 128 + 128) as u8;
        lemma_number_at(value / 128, front.push(byte), rest, (most - 1) as nat);
        assert(front.push(byte) + written_number(value / 128) + rest =~= data);
        assert(written_number(value / 128).len() > 0);
    }
}

} // verus!
