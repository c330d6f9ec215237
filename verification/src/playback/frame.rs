//! Frames on screen and on the wire.
use crate::bytes::{bits_of, lemma_endian_len, little_endian, push_all, push_little, two_complement};
use std::sync::Arc;
use vstd::prelude::*;

verus! {

/// Bytes in front of the pixels of a frame on the wire.
pub const WIRE_HEADER_BYTES: usize = 48;

/// The magic number that opens a frame on the wire: `BKF2`.
pub const WIRE_MAGIC: [u8; 4] = [0x42, 0x4B, 0x46, 0x32];

/// The wire flag for "no picture here": a gap in the timeline, shown black.
pub const WIRE_FLAG_BLACK: u32 = 4;

/// A decoded picture.
#[derive(Debug, PartialEq, Eq)]
pub struct VideoFrame {
    /// The source presentation timestamp.
    pub pts: i64,
    pub width: u32,
    pub height: u32,
    /// RGBA pixels.
    pub pixels: Vec<u8>,
}

/// A frame on screen.
#[derive(Debug)]
pub struct ShownFrame {
    /// Increases by one for every frame presented.
    pub seq: u64,
    /// `None` in a gap, which is shown black.
    pub picture: Option<Arc<VideoFrame>>,
    /// Counter-clockwise rotation to apply when drawing.
    pub rotation: u32,
    /// Where this frame starts on the timeline.
    pub position: i64,
    /// The clock when this frame was chosen as the one due.
    pub chosen_at: i64,
    /// The timeline frame number at the plan's rate.
    pub frame_number: i64,
}

/// The flags of a frame on the wire: quarter turns, and whether it is black.
pub open spec fn wire_flags(rotation: u32, black: bool) -> int {
    (rotation / 90) as int % 4 + if black {
        WIRE_FLAG_BLACK as int
    } else {
        0
    }
}

/// The header of a frame on the wire.
pub open spec fn wire_header(
    width: u32,
    height: u32,
    flags: int,
    seq: u64,
    pts: i64,
    position: i64,
    frame_number: i64,
) -> Seq<u8> {
    WIRE_MAGIC@ + little_endian(width as int, 4) + little_endian(height as int, 4) + little_endian(
        flags,
        4,
    ) + little_endian(seq as int, 8) + little_endian(two_complement(pts), 8) + little_endian(
        two_complement(position),
        8,
    ) + little_endian(two_complement(frame_number), 8)
}

impl ShownFrame {
    /// The frame as the renderer receives it: a little-endian header, then the
    /// pixels, of which a black frame has none.
    pub open spec fn on_the_wire(&self) -> Seq<u8> {
        match self.picture {
            Some(frame) => wire_header(
                frame.width,
                frame.height,
                wire_flags(self.rotation, false),
                self.seq,
                frame.pts,
                self.position,
                self.frame_number,
            ) + frame.pixels@,
            None => wire_header(
                0,
                0,
                wire_flags(self.rotation, true),
                self.seq,
                0,
                self.position,
                self.frame_number,
            ),
        }
    }

    /// The frame as the renderer receives it: a 48-byte little-endian header,
    /// then the RGBA pixels.
    ///
    /// | offset | size | field                                          |
    /// | ------ | ---- | ---------------------------------------------- |
    /// | 0      | 4    | magic `BKF2`                                   |
    /// | 4      | 4    | width, `u32` (0 for a black frame)             |
    /// | 8      | 4    | height, `u32`                                  |
    /// | 12     | 4    | flags: bits 0 and 1 quarter turns, bit 2 black |
    /// | 16     | 8    | sequence number, `u64`                         |
    /// | 24     | 8    | source presentation timestamp, `i64`           |
    /// | 32     | 8    | timeline position, microseconds, `i64`         |
    /// | 40     | 8    | timeline frame number, `i64`                   |
    pub fn wire(&self) -> (bytes: Vec<u8>)
        ensures
            bytes@ == self.on_the_wire(),
    {
        let (width, height, pts, black) = match &self.picture {
            Some(frame) => (frame.width, frame.height, frame.pts, false),
            None => (0u32, 0u32, 0i64, true),
        };
        let mut flags: u32 = (self.rotation / 90) % 4;
        if black {
            flags = flags + WIRE_FLAG_BLACK;
        }
        let mut bytes: Vec<u8> = Vec::new();
        push_all(&mut bytes, &WIRE_MAGIC);
        push_little(&mut bytes, width as u64, 4);
        push_little(&mut bytes, height as u64, 4);
        push_little(&mut bytes, flags as u64, 4);
        push_little(&mut bytes, self.seq, 8);
        push_little(&mut bytes, bits_of(pts), 8);
        push_little(&mut bytes, bits_of(self.position), 8);
        push_little(&mut bytes, bits_of(self.frame_number), 8);
        assert(bytes@ =~= wire_header(
            width,
            height,
            wire_flags(self.rotation, black),
            self.seq,
            pts,
            self.position,
            self.frame_number,
        ));
        if let Some(frame) = &self.picture {
            push_all(&mut bytes, &frame.pixels);
        }
        bytes
    }
}

/// A frame on the wire is its 48-byte header and its pixels, and every field
/// stands at its own offset.
pub proof fn wire_fields_stand_at_their_offsets(frame: &ShownFrame)
    ensures
        ({
            let bytes = frame.on_the_wire();
            let (width, height, pts, pixels, black) = match frame.picture {
                Some(picture) => (
                    picture.width,
                    picture.height,
                    picture.pts,
                    picture.pixels@,
                    false,
                ),
                None => (0u32, 0u32, 0i64, Seq::<u8>::empty(), true),
            };
            &&& bytes.len() == WIRE_HEADER_BYTES + pixels.len()
            &&& bytes.subrange(0, 4) == WIRE_MAGIC@
            &&& bytes.subrange(4, 8) == little_endian(width as int, 4)
            &&& bytes.subrange(8, 12) == little_endian(height as int, 4)
            &&& bytes.subrange(12, 16) == little_endian(wire_flags(frame.rotation, black), 4)
            &&& bytes.subrange(16, 24) == little_endian(frame.seq as int, 8)
            &&& bytes.subrange(24, 32) == little_endian(two_complement(pts), 8)
            &&& bytes.subrange(32, 40) == little_endian(two_complement(frame.position), 8)
            &&& bytes.subrange(40, 48) == little_endian(two_complement(frame.frame_number), 8)
            &&& bytes.skip(48) == pixels
        }),
{
    let bytes = frame.on_the_wire();
    let (width, height, pts, pixels, black) = match frame.picture {
        Some(picture) => (picture.width, picture.height, picture.pts, picture.pixels@, false),
        None => (0u32, 0u32, 0i64, Seq::<u8>::empty(), true),
    };
    lemma_endian_len(width as int, 4);
    lemma_endian_len(height as int, 4);
    lemma_endian_len(wire_flags(frame.rotation, black), 4);
    lemma_endian_len(frame.seq as int, 8);
    lemma_endian_len(two_complement(pts), 8);
    lemma_endian_len(two_complement(frame.position), 8);
    lemma_endian_len(two_complement(frame.frame_number), 8);
    assert(bytes.subrange(0, 4) =~= WIRE_MAGIC@);
    assert(bytes.subrange(4, 8) =~= little_endian(width as int, 4));
    assert(bytes.subrange(8, 12) =~= little_endian(height as int, 4));
    assert(bytes.subrange(12, 16) =~= little_endian(wire_flags(frame.rotation, black), 4));
    assert(bytes.subrange(16, 24) =~= little_endian(frame.seq as int, 8));
    assert(bytes.subrange(24, 32) =~= little_endian(two_complement(pts), 8));
    assert(bytes.subrange(32, 40) =~= little_endian(two_complement(frame.position), 8));
    assert(bytes.subrange(40, 48) =~= little_endian(two_complement(frame.frame_number), 8));
    assert(bytes.skip(48) =~= pixels);
}

} // verus!
