//! NUT, the container the export pipes packets through.
//!
//! The export is one pass to the output file, with no intermediate media file.
//! Packets are routed between sidecar processes over pipes, and NUT is the
//! format on those pipes: it carries any codec, its configuration unchanged,
//! and every timestamp exactly in the stream's own time base.
//!
//! [`Reader`] reads what FFmpeg's NUT muxer writes, whatever frame-code table
//! and elision headers it chose. [`Writer`] writes the simplest valid NUT: one
//! syncpoint before every frame, every timestamp coded in full, every frame
//! header checksummed. What the writer writes, the reader reads back exactly
//! ([`round_trip`]); of a stream cut off it reads the first packets, and
//! nothing that was not written ([`partial`]).
//!
//! Every length in a stream came from another process and is treated as
//! hostile: sizes are bounded, and a malformed stream is an error.
pub mod append;
pub mod cursor;
pub mod fault;
pub mod format;
pub mod header;
pub mod number;
pub mod partial;
pub mod pieces;
pub mod read;
pub mod round_trip;
pub mod table;
pub mod write;

pub use cursor::Bytes;
pub use fault::{Fault, NutError};
use crate::probe::Rational;
use vstd::prelude::*;

verus! {

pub const MAIN_STARTCODE: u64 = 0x4E4D_7A56_1F5F_04AD;

pub const STREAM_STARTCODE: u64 = 0x4E53_1140_5BF2_F9DB;

pub const SYNCPOINT_STARTCODE: u64 = 0x4E4B_E4AD_EECA_4569;

pub const INDEX_STARTCODE: u64 = 0x4E58_DD67_2F23_E64E;

pub const INFO_STARTCODE: u64 = 0x4E49_AB68_B596_BA78;

/// The first byte of every startcode: the letter N.
pub const STARTCODE_BYTE: u8 = 0x4E;

pub const FLAG_KEY: u64 = 1;

pub const FLAG_CODED_PTS: u64 = 8;

pub const FLAG_STREAM_ID: u64 = 16;

pub const FLAG_SIZE_MSB: u64 = 32;

pub const FLAG_CHECKSUM: u64 = 64;

pub const FLAG_RESERVED: u64 = 128;

pub const FLAG_SM_DATA: u64 = 256;

pub const FLAG_HEADER_IDX: u64 = 1024;

pub const FLAG_MATCH_TIME: u64 = 2048;

pub const FLAG_CODED: u64 = 4096;

pub const FLAG_INVALID: u64 = 8192;

/// The largest header packet read.
pub const MAX_HEADER: u64 = 0x100_0000;

/// The largest frame accepted: a 16K intra frame is well below it.
pub const MAX_FRAME: u64 = 0x1000_0000;

pub const MAX_STREAMS: u64 = 64;

/// What kind of stream, as NUT numbers them.
#[derive(Debug, Clone, Copy, PartialEq, Eq, Structural)]
pub enum Class {
    Video,
    Audio,
    Subtitle,
    Data,
}

/// One stream's header, kept whole so it can be written again unchanged.
#[derive(Debug, PartialEq, Eq)]
pub struct StreamHeader {
    pub class: Class,
    /// The codec tag, as written: two or four bytes.
    pub fourcc: Vec<u8>,
    pub time_base: Rational,
    pub msb_pts_shift: u64,
    pub max_pts_distance: u64,
    /// Pictures the decoder holds before the first is shown.
    pub decode_delay: u64,
    pub flags: u64,
    /// The codec configuration, unchanged.
    pub extradata: Vec<u8>,
    /// Width, height, sample aspect numerator and denominator, colourspace.
    pub video: Option<[u64; 5]>,
    /// Sample rate numerator and denominator, channels.
    pub audio: Option<[u64; 3]>,
    /// The stream's metadata: language, handler name, disposition.
    pub metadata: Vec<(String, String)>,
}

/// A chapter, in its own time base.
#[derive(Debug, PartialEq, Eq)]
pub struct Chapter {
    pub time_base: Rational,
    pub start: u64,
    pub length: u64,
    pub metadata: Vec<(String, String)>,
}

/// Everything before the first frame.
#[derive(Debug, PartialEq, Eq)]
pub struct Header {
    pub streams: Vec<StreamHeader>,
    /// The file's metadata: creation time, title.
    pub metadata: Vec<(String, String)>,
    pub chapters: Vec<Chapter>,
}

/// One packet: a coded frame of one stream.
#[derive(Debug, PartialEq, Eq)]
pub struct Packet {
    pub stream: usize,
    /// In the stream's time base.
    pub pts: i64,
    pub key: bool,
    pub data: Vec<u8>,
}

/// A name and a text.
pub type Tag = (Seq<char>, Seq<char>);

/// The texts of a list of names and values.
pub open spec fn tags(list: Seq<(String, String)>) -> Seq<Tag> {
    Seq::new(list.len(), |i: int| (list[i].0@, list[i].1@))
}

/// What a stream's header holds.
pub struct StreamModel {
    pub class: Class,
    pub fourcc: Seq<u8>,
    pub time_base: Rational,
    pub msb_pts_shift: u64,
    pub max_pts_distance: u64,
    pub decode_delay: u64,
    pub flags: u64,
    pub extradata: Seq<u8>,
    pub video: Option<Seq<u64>>,
    pub audio: Option<Seq<u64>>,
    pub metadata: Seq<Tag>,
}

impl View for StreamHeader {
    type V = StreamModel;

    open spec fn view(&self) -> StreamModel {
        StreamModel {
            class: self.class,
            fourcc: self.fourcc@,
            time_base: self.time_base,
            msb_pts_shift: self.msb_pts_shift,
            max_pts_distance: self.max_pts_distance,
            decode_delay: self.decode_delay,
            flags: self.flags,
            extradata: self.extradata@,
            video: match self.video {
                Some(shape) => Some(shape@),
                None => None,
            },
            audio: match self.audio {
                Some(shape) => Some(shape@),
                None => None,
            },
            metadata: tags(self.metadata@),
        }
    }
}

/// What a chapter holds.
pub struct ChapterModel {
    pub time_base: Rational,
    pub start: u64,
    pub length: u64,
    pub metadata: Seq<Tag>,
}

impl View for Chapter {
    type V = ChapterModel;

    open spec fn view(&self) -> ChapterModel {
        ChapterModel {
            time_base: self.time_base,
            start: self.start,
            length: self.length,
            metadata: tags(self.metadata@),
        }
    }
}

/// What a header holds.
pub struct HeaderModel {
    pub streams: Seq<StreamModel>,
    pub metadata: Seq<Tag>,
    pub chapters: Seq<ChapterModel>,
}

impl View for Header {
    type V = HeaderModel;

    open spec fn view(&self) -> HeaderModel {
        HeaderModel {
            streams: Seq::new(self.streams@.len(), |i: int| self.streams@[i]@),
            metadata: tags(self.metadata@),
            chapters: Seq::new(self.chapters@.len(), |i: int| self.chapters@[i]@),
        }
    }
}

/// What a packet holds.
pub struct PacketModel {
    pub stream: int,
    pub pts: i64,
    pub key: bool,
    pub data: Seq<u8>,
}

impl View for Packet {
    type V = PacketModel;

    open spec fn view(&self) -> PacketModel {
        PacketModel {
            stream: self.stream as int,
            pts: self.pts,
            key: self.key,
            data: self.data@,
        }
    }
}

/// One entry of the frame-code table: what a frame's first byte stands for.
#[derive(Debug, Clone, Copy, PartialEq, Eq, Structural)]
pub struct FrameCode {
    pub flags: u64,
    pub stream: u64,
    pub size_mul: u64,
    pub size_lsb: u64,
    pub pts_delta: i64,
    pub reserved: u64,
    pub header_idx: usize,
}

/// `flag` is one of `flags`.
pub open spec fn flagged(flags: u64, flag: u64) -> bool {
    flags & flag != 0
}

} // verus!
