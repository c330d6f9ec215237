//! What the encoders of this machine make.
use vstd::prelude::*;

verus! {

/// A codec that pictures are encoded to.
#[derive(Debug, Clone, Copy, PartialEq, Eq, Structural)]
pub enum VideoCodec {
    H264,
    Hevc,
    Vp9,
    Av1,
}

impl VideoCodec {
    /// The codec's name in a message.
    pub open spec fn name(self) -> Seq<char> {
        match self {
            VideoCodec::H264 => "H264"@,
            VideoCodec::Hevc => "Hevc"@,
            VideoCodec::Vp9 => "Vp9"@,
            VideoCodec::Av1 => "Av1"@,
        }
    }

    /// The codec's name in a message.
    pub fn text(self) -> (text: &'static str)
        ensures
            text@ == self.name(),
    {
        match self {
            VideoCodec::H264 => "H264",
            VideoCodec::Hevc => "Hevc",
            VideoCodec::Vp9 => "Vp9",
            VideoCodec::Av1 => "Av1",
        }
    }
}

/// Who makes an encoder.
#[derive(Debug, Clone, Copy, PartialEq, Eq, Structural)]
pub enum EncoderSource {
    Nvidia,
    Intel,
    Amd,
    Software,
}

/// How chroma is sampled.
#[derive(Debug, Clone, Copy, PartialEq, Eq, Structural)]
pub enum Chroma {
    Yuv420,
    Yuv422,
    Yuv444,
}

/// A profile that an encoder produced when it was tried.
#[derive(Debug, PartialEq, Eq)]
pub struct ProfileCapability {
    pub profile: String,
    pub pixel_format: String,
    pub bit_depth: u8,
    pub chroma: Chroma,
    /// The highest level reached, as its codec labels it: `5.1`.
    pub max_level: Option<String>,
}

/// What one encoder makes.
#[derive(Debug, PartialEq, Eq)]
pub struct EncoderCapability {
    pub encoder: String,
    pub source: EncoderSource,
    pub profiles: Vec<ProfileCapability>,
}

/// The encoders of one codec, in order of preference.
#[derive(Debug, PartialEq, Eq)]
pub struct CodecCapability {
    pub codec: VideoCodec,
    pub encoders: Vec<EncoderCapability>,
}

/// What the encoders of this machine make.
#[derive(Debug, PartialEq, Eq)]
pub struct EncoderCapabilities {
    pub codecs: Vec<CodecCapability>,
}

/// The place of the first entry for `codec` at `at` or behind; the length of
/// the list where there is none.
pub open spec fn entry_of(codecs: Seq<CodecCapability>, codec: VideoCodec, at: int) -> int
    decreases codecs.len() - at,
{
    if at >= codecs.len() || codecs[at].codec == codec {
        at
    } else {
        entry_of(codecs, codec, at + 1)
    }
}

impl EncoderCapabilities {
    /// The encoders for a codec, in order of preference.
    pub open spec fn encoders(&self, codec: VideoCodec) -> Seq<EncoderCapability> {
        let at = entry_of(self.codecs@, codec, 0);
        if at < self.codecs@.len() {
            self.codecs@[at].encoders@
        } else {
            Seq::empty()
        }
    }

    /// The encoders for a codec, in order of preference: none where the
    /// codec has no entry.
    pub fn encoders_for(&self, codec: VideoCodec) -> (encoders: Option<&Vec<EncoderCapability>>)
        ensures
            match encoders {
                Some(list) => list@ == self.encoders(codec),
                None => self.encoders(codec).len() == 0,
            },
    {
        let mut i: usize = 0;
        while i < self.codecs.len()
            invariant
                i <= self.codecs@.len(),
                entry_of(self.codecs@, codec, 0) == entry_of(self.codecs@, codec, i as int),
            decreases self.codecs@.len() - i,
        {
            if self.codecs[i].codec == codec {
                return Some(&self.codecs[i].encoders);
            }
            i += 1;
        }
        None
    }
}

} // verus!
