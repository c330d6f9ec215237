//! Packet listings.
//!
//! A listing has one packet per line, its fields separated by bars:
//! `pts=10752|dts=9728|size=9694|pos=83252|flags=K__`.
use crate::text::{
    characters, find, is_word, parse_i64, parse_u64, parsed_i64, parsed_u64, pieces, position, split, texts,
    trim, trimmed,
};
use vstd::prelude::*;

verus! {

/// One packet of a listing.
#[derive(Debug, Clone, Copy, PartialEq, Eq, Structural)]
pub struct Packet {
    pub pts: Option<i64>,
    pub dts: Option<i64>,
    pub pos: Option<u64>,
    pub size: u64,
    pub key: bool,
    /// The container says the packet is decoded but not shown.
    pub discard: bool,
}

/// A packet of which nothing is known.
pub open spec fn blank() -> Packet {
    Packet { pts: None, dts: None, pos: None, size: 0, key: false, discard: false }
}

/// `packet` with one field of its line read: a name and a value with an equals
/// sign between. A name that is not known, or no equals sign, changes nothing.
pub open spec fn with_field(packet: Packet, field: Seq<char>) -> Packet {
    let at = find(field, '=');
    let key = field.take(at);
    let value = field.skip(at + 1);
    if at >= field.len() {
        packet
    } else if key == "pts"@ {
        Packet { pts: parsed_i64(value), ..packet }
    } else if key == "dts"@ {
        Packet { dts: parsed_i64(value), ..packet }
    } else if key == "pos"@ {
        Packet { pos: parsed_u64(value), ..packet }
    } else if key == "size"@ {
        Packet {
            size: match parsed_u64(value) {
                Some(size) => size,
                None => 0,
            },
            ..packet
        }
    } else if key == "flags"@ {
        Packet {
            key: value.len() > 0 && value[0] == 'K',
            discard: value.contains('D'),
            ..packet
        }
    } else {
        packet
    }
}

/// `packet` with every field read in turn.
pub open spec fn with_fields(packet: Packet, fields: Seq<Seq<char>>) -> Packet
    decreases fields.len(),
{
    if fields.len() == 0 {
        packet
    } else {
        with_field(with_fields(packet, fields.drop_last()), fields.last())
    }
}

/// The packet a line describes.
pub open spec fn line_packet(line: Seq<char>) -> Packet {
    with_fields(blank(), pieces(trimmed(line), '|'))
}

/// The packets of a listing's lines: one for each line that is not blank.
pub open spec fn line_packets(lines: Seq<Seq<char>>) -> Seq<Packet>
    decreases lines.len(),
{
    if lines.len() == 0 {
        Seq::empty()
    } else {
        let before = line_packets(lines.drop_last());
        if trimmed(lines.last()).len() == 0 {
            before
        } else {
            before.push(line_packet(lines.last()))
        }
    }
}

/// The packets of a listing.
pub open spec fn listed(text: Seq<char>) -> Seq<Packet> {
    line_packets(pieces(text, '\n'))
}

/// Whether `c` stands in `part`.
fn has_char(part: &[char], c: char) -> (yes: bool)
    ensures
        yes == part@.contains(c),
{
    position(part, c) < part.len()
}

/// Read one field of a packet's line.
fn read_field(packet: Packet, field: &[char]) -> (read: Packet)
    ensures
        read == with_field(packet, field@),
{
    let at: usize = position(field, '=');
    if at >= field.len() {
        return packet;
    }
    let key: Vec<char> = crate::text::copy(field, 0, at);
    let value: Vec<char> = crate::text::copy(field, at + 1, field.len());
    assert(key@ =~= field@.take(at as int));
    assert(value@ =~= field@.skip(at + 1));
    let mut read: Packet = packet;
    if is_word(&key, "pts") {
        read.pts = parse_i64(&value);
    } else if is_word(&key, "dts") {
        read.dts = parse_i64(&value);
    } else if is_word(&key, "pos") {
        read.pos = parse_u64(&value);
    } else if is_word(&key, "size") {
        read.size =
        match parse_u64(&value) {
            Some(size) => size,
            None => 0,
        };
    } else if is_word(&key, "flags") {
        read.key = value.len() > 0 && value[0] == 'K';
        read.discard = has_char(&value, 'D');
    }
    read
}

/// The packet a line describes, its fields already cut apart.
fn read_fields(fields: &Vec<Vec<char>>) -> (packet: Packet)
    ensures
        packet == with_fields(blank(), texts(fields@)),
{
    let mut packet = Packet {
        pts: None,
        dts: None,
        pos: None,
        size: 0,
        key: false,
        discard: false,
    };
    let mut i: usize = 0;
    let ghost all = texts(fields@);
    assert(all.take(0).len() == 0);
    while i < fields.len()
        invariant
            i <= fields.len(),
            all == texts(fields@),
            packet == with_fields(blank(), all.take(i as int)),
        decreases fields.len() - i,
    {
        packet = read_field(packet, &fields[i]);
        assert(all.take(i + 1).drop_last() =~= all.take(i as int));
        assert(all.take(i + 1).last() == fields@[i as int]@);
        i = i + 1;
    }
    assert(all.take(i as int) =~= all);
    packet
}

/// Read a packet listing: one packet per line, blank lines skipped, anything
/// that does not parse left out of its packet.
pub fn parse_packets(text: &str) -> (packets: Vec<Packet>)
    ensures
        packets@ == listed(text@),
{
    let text: Vec<char> = characters(text);
    let lines: Vec<Vec<char>> = split(&text, '\n');
    let ghost all = texts(lines@);
    let mut packets: Vec<Packet> = Vec::new();
    let mut i: usize = 0;
    assert(all.take(0).len() == 0);
    while i < lines.len()
        invariant
            i <= lines.len(),
            all == texts(lines@),
            packets@ == line_packets(all.take(i as int)),
        decreases lines.len() - i,
    {
        assert(all.take(i + 1).drop_last() =~= all.take(i as int));
        assert(all.take(i + 1).last() == lines@[i as int]@);
        let line: Vec<char> = trim(&lines[i]);
        if line.len() > 0 {
            let fields: Vec<Vec<char>> = split(&line, '|');
            packets.push(read_fields(&fields));
        }
        i = i + 1;
    }
    assert(all.take(i as int) =~= all);
    packets
}

} // verus!
