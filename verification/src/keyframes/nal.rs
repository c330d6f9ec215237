//! What kind of picture a keyframe packet starts with.
//!
//! A container's "keyframe" flag says only that decoding can start there. It
//! does not say whether the pictures around it depend on anything before it,
//! which is what decides whether a cut at that keyframe is clean:
//!
//! - **H.264**: an IDR picture (NAL type 5) closes the group of pictures. A
//!   non-IDR picture marked as a keyframe is a recovery point.
//! - **HEVC**: IDR (types 19, 20) closes it, including one whose leading
//!   pictures are decodable. CRA (21) opens it. BLA (16 to 18) discards its
//!   leading pictures, so it behaves as closed.
use crate::text::same_text;
use vstd::prelude::*;

verus! {

/// Bytes read from the start of a keyframe packet. Parameter sets and SEI
/// come first, and together are rarely more than a few hundred bytes.
pub const HEAD: u64 = 4096;

/// The first coded picture of a keyframe packet.
#[derive(Debug, Clone, Copy, PartialEq, Eq, Structural)]
pub enum PictureKind {
    /// H.264 IDR, HEVC `IDR_W_RADL` or `IDR_N_LP`: closes the group.
    Idr,
    /// HEVC broken-link access: its leading pictures are discarded.
    Bla,
    /// HEVC clean random access: opens the group when leading pictures follow.
    Cra,
    /// H.264 non-IDR intra picture flagged as a keyframe.
    RecoveryPoint,
}

impl PictureKind {
    /// The picture closes the group by its nature.
    pub open spec fn closing(self) -> bool {
        self == PictureKind::Idr || self == PictureKind::Bla
    }

    /// Whether the picture by its nature closes the group of pictures,
    /// whatever follows it.
    pub fn closes_gop(self) -> (closes: bool)
        ensures
            closes == self.closing(),
    {
        match self {
            PictureKind::Idr | PictureKind::Bla => true,
            _ => false,
        }
    }
}

/// A NAL unit: a coded picture (of a random-access kind, or not), or
/// something else: parameter sets, SEI, delimiters.
#[derive(Debug, Clone, Copy, PartialEq, Eq, Structural)]
pub enum Unit {
    Picture(Option<PictureKind>),
    NotAPicture,
}

/// A codec whose keyframes can be told apart.
#[derive(Debug, Clone, Copy, PartialEq, Eq, Structural)]
pub enum Codec {
    H264,
    Hevc,
}

/// What a unit is, from the first byte of its header. An H.264 unit's type is
/// the low five bits; an HEVC unit's is the six bits above the lowest.
pub open spec fn unit_kind(codec: Codec, header: u8) -> Unit {
    match codec {
        Codec::H264 => {
            let nal = header % 32;
            if nal == 5 {
                Unit::Picture(Some(PictureKind::Idr))
            } else if 1 <= nal <= 4 {
                Unit::Picture(Some(PictureKind::RecoveryPoint))
            } else {
                Unit::NotAPicture
            }
        },
        Codec::Hevc => {
            let nal = (header / 2) % 64;
            if nal == 19 || nal == 20 {
                Unit::Picture(Some(PictureKind::Idr))
            } else if 16 <= nal <= 18 {
                Unit::Picture(Some(PictureKind::Bla))
            } else if nal == 21 {
                Unit::Picture(Some(PictureKind::Cra))
            } else if nal <= 31 {
                Unit::Picture(None)
            } else {
                Unit::NotAPicture
            }
        },
    }
}

/// The four bytes at the front of `bytes`, big end first.
pub open spec fn big_endian_u32(bytes: Seq<u8>) -> int {
    bytes[0] * 0x100_0000 + bytes[1] * 0x1_0000 + bytes[2] * 0x100 + bytes[3]
}

/// The first coded picture of a run of length-prefixed units: nothing when
/// the run ends first, when a unit is empty or cut off before its header, or
/// when a length runs past the bytes there are.
pub open spec fn first_picture(codec: Codec, bytes: Seq<u8>) -> Option<PictureKind>
    decreases bytes.len(),
{
    if bytes.len() < 5 || big_endian_u32(bytes) == 0 {
        None
    } else {
        match unit_kind(codec, bytes[4]) {
            Unit::Picture(kind) => kind,
            Unit::NotAPicture => {
                let length = big_endian_u32(bytes);
                if length > bytes.len() - 4 {
                    None
                } else {
                    first_picture(codec, bytes.skip(4 + length))
                }
            },
        }
    }
}

impl Codec {
    /// The codec a stream's codec name stands for.
    pub fn from_name(name: Option<&str>) -> (codec: Option<Codec>)
        ensures
            codec == (match name {
                Some(name) => if name@ == "h264"@ {
                    Some(Codec::H264)
                } else if name@ == "hevc"@ {
                    Some(Codec::Hevc)
                } else {
                    None
                },
                None => None,
            }),
    {
        match name {
            Some(name) => {
                if same_text(name, "h264") {
                    Some(Codec::H264)
                } else if same_text(name, "hevc") {
                    Some(Codec::Hevc)
                } else {
                    None
                }
            },
            None => None,
        }
    }

    /// What a NAL unit is, from the first byte of its header.
    pub fn unit(self, header: u8) -> (unit: Unit)
        ensures
            unit == unit_kind(self, header),
    {
        match self {
            Codec::H264 => {
                let nal: u8 = header % 32;
                if nal == 5 {
                    Unit::Picture(Some(PictureKind::Idr))
                } else if 1 <= nal && nal <= 4 {
                    Unit::Picture(Some(PictureKind::RecoveryPoint))
                } else {
                    Unit::NotAPicture
                }
            },
            Codec::Hevc => {
                let nal: u8 = (header / 2) % 64;
                if nal == 19 || nal == 20 {
                    Unit::Picture(Some(PictureKind::Idr))
                } else if 16 <= nal && nal <= 18 {
                    Unit::Picture(Some(PictureKind::Bla))
                } else if nal == 21 {
                    Unit::Picture(Some(PictureKind::Cra))
                } else if nal <= 31 {
                    Unit::Picture(None)
                } else {
                    Unit::NotAPicture
                }
            },
        }
    }
}

/// Walk four-byte length-prefixed NAL units (the ISO base media convention)
/// to the first coded picture.
pub fn classify_length_prefixed(codec: Codec, packet: &[u8]) -> (kind: Option<PictureKind>)
    ensures
        kind == first_picture(codec, packet@),
{
    let mut at: usize = 0;
    assert(packet@.skip(0) =~= packet@);
    loop
        invariant
            at <= packet.len(),
            first_picture(codec, packet@) == first_picture(codec, packet@.skip(at as int)),
        decreases packet.len() - at,
    {
        let ghost rest = packet@.skip(at as int);
        if packet.len() - at < 5 {
            return None;
        }
        let length: u32 = packet[at] as u32 * 0x100_0000 + packet[at + 1] as u32 * 0x1_0000
            + packet[at + 2] as u32 * 0x100 + packet[at + 3] as u32;
        assert(length == big_endian_u32(rest));
        let header: u8 = packet[at + 4];
        assert(header == rest[4]);
        if length == 0 {
            return None;
        }
        match codec.unit(header) {
            Unit::Picture(kind) => {
                return kind;
            },
            Unit::NotAPicture => {
                // A length that runs past the bytes read ends the walk rather
                // than being trusted.
                if length as usize > packet.len() - at - 4 {
                    return None;
                }
                assert(rest.skip(4 + length as int) =~= packet@.skip(at + 4 + length));
                at = at + 4 + length as usize;
            },
        }
    }
}

} // verus!
