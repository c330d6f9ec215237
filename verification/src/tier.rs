//! What an export does to a stretch of its output, and why.
use vstd::prelude::*;

verus! {

/// Why pictures around a cut are re-encoded.
#[derive(Debug, Clone, Copy, PartialEq, Eq, Structural)]
pub enum SeamReason {
    InPointNotKeyframeAligned,
    OutPointNotKeyframeAligned,
    OpenGopBoundary,
}

/// Why a whole stretch is re-encoded.
#[derive(Debug, Clone, Copy, PartialEq, Eq, Structural)]
pub enum ReEncodeReason {
    /// The keyframes around a cut are not known.
    CopyNotProvable,
    SpeedFrameRateOutsideContainer,
    SequenceSettingsDiffer,
    IncompatibleSourceParameters,
    Gap,
    AudioFilter,
    AudioSpeed,
    AudioMix,
    Reverse,
    FreezeFrame,
}

/// How a stretch of the output is made.
#[allow(inconsistent_fields)]
#[derive(Debug, Clone, Copy, PartialEq, Eq, Structural)]
pub enum ExportTier {
    /// Packet for packet.
    StreamCopy,
    /// Copied but for a window at a cut.
    SmartCut { reason: SeamReason },
    /// Decoded and encoded.
    FullReEncode { reason: ReEncodeReason },
}

impl ExportTier {
    /// Nothing is re-encoded.
    pub open spec fn lossless(self) -> bool {
        self == ExportTier::StreamCopy
    }

    /// Whether nothing is re-encoded.
    pub fn is_lossless(self) -> (yes: bool)
        ensures
            yes == self.lossless(),
    {
        match self {
            ExportTier::StreamCopy => true,
            _ => false,
        }
    }
}

impl SeamReason {
    /// The reason's name.
    pub open spec fn name(self) -> Seq<char> {
        match self {
            SeamReason::InPointNotKeyframeAligned => "InPointNotKeyframeAligned"@,
            SeamReason::OutPointNotKeyframeAligned => "OutPointNotKeyframeAligned"@,
            SeamReason::OpenGopBoundary => "OpenGopBoundary"@,
        }
    }

    /// The reason's name.
    pub fn text(self) -> (text: &'static str)
        ensures
            text@ == self.name(),
    {
        match self {
            SeamReason::InPointNotKeyframeAligned => "InPointNotKeyframeAligned",
            SeamReason::OutPointNotKeyframeAligned => "OutPointNotKeyframeAligned",
            SeamReason::OpenGopBoundary => "OpenGopBoundary",
        }
    }
}

impl ReEncodeReason {
    /// The reason's name.
    pub open spec fn name(self) -> Seq<char> {
        match self {
            ReEncodeReason::CopyNotProvable => "CopyNotProvable"@,
            ReEncodeReason::SpeedFrameRateOutsideContainer => "SpeedFrameRateOutsideContainer"@,
            ReEncodeReason::SequenceSettingsDiffer => "SequenceSettingsDiffer"@,
            ReEncodeReason::IncompatibleSourceParameters => "IncompatibleSourceParameters"@,
            ReEncodeReason::Gap => "Gap"@,
            ReEncodeReason::AudioFilter => "AudioFilter"@,
            ReEncodeReason::AudioSpeed => "AudioSpeed"@,
            ReEncodeReason::AudioMix => "AudioMix"@,
            ReEncodeReason::Reverse => "Reverse"@,
            ReEncodeReason::FreezeFrame => "FreezeFrame"@,
        }
    }

    /// The reason's name.
    pub fn text(self) -> (text: &'static str)
        ensures
            text@ == self.name(),
    {
        match self {
            ReEncodeReason::CopyNotProvable => "CopyNotProvable",
            ReEncodeReason::SpeedFrameRateOutsideContainer => "SpeedFrameRateOutsideContainer",
            ReEncodeReason::SequenceSettingsDiffer => "SequenceSettingsDiffer",
            ReEncodeReason::IncompatibleSourceParameters => "IncompatibleSourceParameters",
            ReEncodeReason::Gap => "Gap",
            ReEncodeReason::AudioFilter => "AudioFilter",
            ReEncodeReason::AudioSpeed => "AudioSpeed",
            ReEncodeReason::AudioMix => "AudioMix",
            ReEncodeReason::Reverse => "Reverse",
            ReEncodeReason::FreezeFrame => "FreezeFrame",
        }
    }
}

impl ExportTier {
    /// The tier in a message, with its reason.
    pub open spec fn words(self) -> Seq<char> {
        match self {
            ExportTier::StreamCopy => "StreamCopy"@,
            ExportTier::SmartCut { reason } => "SmartCut { reason: "@ + reason.name() + " }"@,
            ExportTier::FullReEncode { reason } => "FullReEncode { reason: "@ + reason.name()
                + " }"@,
        }
    }

    /// The tier in a message, with its reason.
    pub fn text(self) -> (text: String)
        ensures
            text@ == self.words(),
    {
        match self {
            ExportTier::StreamCopy => "StreamCopy".to_owned(),
            ExportTier::SmartCut { reason } => {
                "SmartCut { reason: ".to_owned().concat(reason.text()).concat(" }")
            },
            ExportTier::FullReEncode { reason } => {
                "FullReEncode { reason: ".to_owned().concat(reason.text()).concat(" }")
            },
        }
    }
}

} // verus!
