//! What can be wrong with a stream.
use crate::text::{decimal, push_decimal, push_signed, signed_decimal};
use vstd::prelude::*;

verus! {

/// What is wrong with a stream, or with what was to be written.
#[derive(Debug, Clone, Copy, PartialEq, Eq, Structural)]
pub enum Fault {
    HeaderEndsEarly,
    LengthOutOfRange,
    FieldPastHeader,
    NumberTooLong,
    NotATimeBase { num: u64, den: u64 },
    InvalidEntry(usize),
    EndsInStartcode,
    EndsInNumber,
    EndsInPacket,
    TooLarge(u64),
    HeaderChecksum,
    ShorterThanChecksum,
    PacketChecksum,
    Version(u64),
    StreamCount(u64),
    TimeBaseCount(u64),
    ElisionCount(u64),
    ElisionRange,
    NoSuchElision,
    StreamClass(u64),
    CodecTag,
    NamesNoTimeBase,
    MsbShift,
    StreamNotDeclared(usize),
    StreamWithoutHeader(usize),
    UnknownStartcode(u64),
    InvalidCode(u8),
    FrameOfStream(u64),
    SideData,
    ElisionMissing,
    ShorterThanHeader,
    FrameChecksum,
    NeedsAStream,
    NoStream(usize),
    NegativeTimestamp(i64),
}

/// Why a stream could not be read or written.
#[derive(Debug, Clone, Copy, PartialEq, Eq, Structural)]
pub enum NutError {
    /// The stream is malformed.
    Malformed(Fault),
    /// The stream ended before its headers.
    NoHeaders,
}

/// A hexadecimal digit.
pub open spec fn hex_char(d: int) -> char {
    if d < 10 {
        crate::text::digit_char(d)
    } else if d == 10 {
        'a'
    } else if d == 11 {
        'b'
    } else if d == 12 {
        'c'
    } else if d == 13 {
        'd'
    } else if d == 14 {
        'e'
    } else {
        'f'
    }
}

/// The low `count` hexadecimal digits of `n`.
pub open spec fn hex(n: int, count: nat) -> Seq<char>
    decreases count,
{
    if count == 0 {
        Seq::empty()
    } else {
        hex(n / 16, (count - 1) as nat).push(hex_char(n % 16))
    }
}

/// Append the low `count` hexadecimal digits of `n`.
pub fn push_hex(out: &mut String, n: u64, count: usize)
    ensures
        final(out)@ == old(out)@ + hex(n as int, count as nat),
    decreases count,
{
    let ghost start = out@;
    if count > 0 {
        push_hex(out, n / 16, count - 1);
        let ghost before = out@;
        let d: u64 = n % 16;
        proof {
            reveal_strlit("a");
            reveal_strlit("b");
            reveal_strlit("c");
            reveal_strlit("d");
            reveal_strlit("e");
            reveal_strlit("f");
        }
        if d < 10 {
            crate::text::push_digit(out, d as u8);
        } else if d == 10 {
            out.append("a");
        } else if d == 11 {
            out.append("b");
        } else if d == 12 {
            out.append("c");
        } else if d == 13 {
            out.append("d");
        } else if d == 14 {
            out.append("e");
        } else {
            out.append("f");
        }
        assert(out@ =~= before.push(hex_char(d as int)));
    }
    assert(out@ =~= start + hex(n as int, count as nat));
}

impl Fault {
    /// More bytes of the stream may put it right: it ended too early.
    pub open spec fn ends(self) -> bool {
        self == Fault::EndsInStartcode || self == Fault::EndsInNumber || self == Fault::EndsInPacket
    }

    /// Whether more bytes of the stream may put it right.
    pub fn is_end(self) -> (yes: bool)
        ensures
            yes == self.ends(),
    {
        match self {
            Fault::EndsInStartcode | Fault::EndsInNumber | Fault::EndsInPacket => true,
            _ => false,
        }
    }

    /// What is wrong, as a person reads it.
    pub open spec fn words(self) -> Seq<char> {
        match self {
            Fault::HeaderEndsEarly => "a header ends early"@,
            Fault::LengthOutOfRange => "a length is out of range"@,
            Fault::FieldPastHeader => "a field runs past its header"@,
            Fault::NumberTooLong => "a number is longer than 64 bits"@,
            Fault::NotATimeBase { num, den } => decimal(num as nat) + "/"@ + decimal(den as nat)
                + " is not a time base"@,
            Fault::InvalidEntry(i) => "frame code table entry "@ + decimal(i as nat)
                + " is invalid"@,
            Fault::EndsInStartcode => "the stream ends inside a startcode"@,
            Fault::EndsInNumber => "the stream ends inside a number"@,
            Fault::EndsInPacket => "the stream ends inside a packet"@,
            Fault::TooLarge(count) => decimal(count as nat)
                + " bytes is more than a NUT field may hold"@,
            Fault::HeaderChecksum => "a packet header's checksum does not match"@,
            Fault::ShorterThanChecksum => "a packet is shorter than its checksum"@,
            Fault::PacketChecksum => "a packet's checksum does not match"@,
            Fault::Version(version) => "NUT version "@ + decimal(version as nat)
                + " is not supported"@,
            Fault::StreamCount(count) => decimal(count as nat) + " streams"@,
            Fault::TimeBaseCount(count) => decimal(count as nat) + " time bases"@,
            Fault::ElisionCount(count) => decimal(count as nat) + " elision headers"@,
            Fault::ElisionRange => "an elision header is out of range"@,
            Fault::NoSuchElision => "a frame code names an elision header that does not exist"@,
            Fault::StreamClass(class) => "stream class "@ + decimal(class as nat),
            Fault::CodecTag => "a codec tag is neither two nor four bytes"@,
            Fault::NamesNoTimeBase => "a stream names no time base"@,
            Fault::MsbShift => "msb_pts_shift is out of range"@,
            Fault::StreamNotDeclared(id) => "stream "@ + decimal(id as nat) + " is not declared"@,
            Fault::StreamWithoutHeader(id) => "stream "@ + decimal(id as nat) + " has no header"@,
            Fault::UnknownStartcode(code) => "unknown startcode "@ + hex(code as int, 16),
            Fault::InvalidCode(code) => "frame code "@ + decimal(code as nat) + " is invalid"@,
            Fault::FrameOfStream(stream) => "frame of stream "@ + decimal(stream as nat),
            Fault::SideData => "frames with side data (NUT version 4) are not read"@,
            Fault::ElisionMissing => "an elision header does not exist"@,
            Fault::ShorterThanHeader => "a frame is shorter than its header"@,
            Fault::FrameChecksum => "a frame header's checksum does not match"@,
            Fault::NeedsAStream => "a NUT stream needs at least one stream"@,
            Fault::NoStream(stream) => "no stream "@ + decimal(stream as nat),
            Fault::NegativeTimestamp(pts) => "a negative timestamp ("@ + signed_decimal(pts as int)
                + ")"@,
        }
    }

    /// What is wrong, as a person reads it.
    pub fn text(self) -> (text: String)
        ensures
            text@ == self.words(),
    {
        match self {
            Fault::HeaderEndsEarly => "a header ends early".to_owned(),
            Fault::LengthOutOfRange => "a length is out of range".to_owned(),
            Fault::FieldPastHeader => "a field runs past its header".to_owned(),
            Fault::NumberTooLong => "a number is longer than 64 bits".to_owned(),
            Fault::NotATimeBase { num, den } => {
                let mut text: String = String::new();
                push_decimal(&mut text, num);
                text.append("/");
                push_decimal(&mut text, den);
                text.append(" is not a time base");
                assert(text@ =~= self.words());
                text
            },
            Fault::InvalidEntry(i) => named("frame code table entry ", i as u64, " is invalid"),
            Fault::EndsInStartcode => "the stream ends inside a startcode".to_owned(),
            Fault::EndsInNumber => "the stream ends inside a number".to_owned(),
            Fault::EndsInPacket => "the stream ends inside a packet".to_owned(),
            Fault::TooLarge(count) => counted(count, " bytes is more than a NUT field may hold"),
            Fault::HeaderChecksum => "a packet header's checksum does not match".to_owned(),
            Fault::ShorterThanChecksum => "a packet is shorter than its checksum".to_owned(),
            Fault::PacketChecksum => "a packet's checksum does not match".to_owned(),
            Fault::Version(version) => named("NUT version ", version, " is not supported"),
            Fault::StreamCount(count) => counted(count, " streams"),
            Fault::TimeBaseCount(count) => counted(count, " time bases"),
            Fault::ElisionCount(count) => counted(count, " elision headers"),
            Fault::ElisionRange => "an elision header is out of range".to_owned(),
            Fault::NoSuchElision =>
                "a frame code names an elision header that does not exist".to_owned(),
            Fault::StreamClass(class) => ended("stream class ", class),
            Fault::CodecTag => "a codec tag is neither two nor four bytes".to_owned(),
            Fault::NamesNoTimeBase => "a stream names no time base".to_owned(),
            Fault::MsbShift => "msb_pts_shift is out of range".to_owned(),
            Fault::StreamNotDeclared(id) => named("stream ", id as u64, " is not declared"),
            Fault::StreamWithoutHeader(id) => named("stream ", id as u64, " has no header"),
            Fault::UnknownStartcode(code) => {
                let mut text: String = "unknown startcode ".to_owned();
                push_hex(&mut text, code, 16);
                text
            },
            Fault::InvalidCode(code) => named("frame code ", code as u64, " is invalid"),
            Fault::FrameOfStream(stream) => ended("frame of stream ", stream),
            Fault::SideData => "frames with side data (NUT version 4) are not read".to_owned(),
            Fault::ElisionMissing => "an elision header does not exist".to_owned(),
            Fault::ShorterThanHeader => "a frame is shorter than its header".to_owned(),
            Fault::FrameChecksum => "a frame header's checksum does not match".to_owned(),
            Fault::NeedsAStream => "a NUT stream needs at least one stream".to_owned(),
            Fault::NoStream(stream) => ended("no stream ", stream as u64),
            Fault::NegativeTimestamp(pts) => {
                let mut text: String = "a negative timestamp (".to_owned();
                push_signed(&mut text, pts);
                text.append(")");
                text
            },
        }
    }
}

/// A number between two texts.
fn named(before: &str, n: u64, after: &str) -> (text: String)
    ensures
        text@ == before@ + decimal(n as nat) + after@,
{
    let mut text: String = before.to_owned();
    push_decimal(&mut text, n);
    text.append(after);
    text
}

/// A number and a text after it.
fn counted(n: u64, after: &str) -> (text: String)
    ensures
        text@ == decimal(n as nat) + after@,
{
    let mut text: String = String::new();
    push_decimal(&mut text, n);
    text.append(after);
    assert(text@ =~= decimal(n as nat) + after@);
    text
}

/// A number after a text.
fn ended(before: &str, n: u64) -> (text: String)
    ensures
        text@ == before@ + decimal(n as nat),
{
    let mut text: String = before.to_owned();
    push_decimal(&mut text, n);
    text
}

impl NutError {
    /// The error as a person reads it.
    pub open spec fn words(self) -> Seq<char> {
        match self {
            NutError::Malformed(fault) => "the NUT stream is malformed: "@ + fault.words(),
            NutError::NoHeaders => "the NUT stream ended before its headers"@,
        }
    }

    /// The error as a person reads it.
    pub fn message(self) -> (text: String)
        ensures
            text@ == self.words(),
    {
        match self {
            NutError::Malformed(fault) => {
                let fault: String = fault.text();
                "the NUT stream is malformed: ".to_owned().concat(fault.as_str())
            },
            NutError::NoHeaders => "the NUT stream ended before its headers".to_owned(),
        }
    }
}

} // verus!
