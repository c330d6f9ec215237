//! The export executor's decisions: the plan, carried out in one pass to the
//! output file.
//!
//! Every segment's packets come from a process that writes NUT to a pipe. The
//! packets the segment needs are selected, their timestamps rebased onto the
//! output timeline, the streams interleaved, and written as NUT into the one
//! muxer process that writes the file.
//!
//! - **It does what the plan says, and fails loudly where it cannot.** A
//!   segment the plan copies is copied or the export fails.
//! - **The target is never overwritten** unless the user confirmed it, and a
//!   source never is.
pub mod carrying;
pub mod chapters;
pub mod check;
pub mod command;
pub mod gather;
pub mod interleave;
pub mod keeping;
pub mod merge;
pub mod place;
pub mod route;
pub mod select;

use crate::export::audio::AudioEncoding;
use crate::export::nut::NutError;
use crate::export::profile::JoinMismatch;
use crate::orchestrator::JobError;
use crate::probe::MediaInfo;
use crate::project::SourceId;
use crate::text::{
    decimal, lowercase, push_decimal, same_text, to_lowercase,
};
use vstd::prelude::*;

verus! {

/// Seconds added to every timestamp a reader writes. NUT cannot carry a
/// negative timestamp, and a source's first decode timestamps can be negative.
/// A fixed, known offset keeps every timestamp positive and exact.
pub const READER_OFFSET_SECONDS: i64 = 100;

/// A source as the export reads it: the original file and what it contains.
#[derive(Debug, PartialEq, Eq)]
pub struct ExportInput {
    pub path: String,
    pub info: MediaInfo,
}

/// The container the output is written in, from the target's extension.
#[derive(Debug, Clone, Copy, PartialEq, Eq, Structural)]
pub enum Container {
    Mp4,
    Mov,
    Matroska,
    WebM,
}

/// Why an export did not produce its file.
#[derive(Debug, PartialEq, Eq)]
pub enum ExportError {
    Container(String),
    CodecNotInContainer { codec: String, container: String },
    TargetExists(String),
    TargetIsSource(String),
    Declined(String),
    Unsupported(String),
    MissingSource(SourceId),
    Mismatch(String),
    Seam(JoinMismatch),
    Engine(JobError),
    Nut(NutError),
    Io(String),
    Cancelled,
    /// A clip's audio chain cannot be built: a model it needs is missing.
    AudioChain(String),
}

/// What an [`ExportError`] says.
pub enum ErrorModel {
    Container(Seq<char>),
    CodecNotInContainer { codec: Seq<char>, container: Seq<char> },
    TargetExists(Seq<char>),
    TargetIsSource(Seq<char>),
    Declined(Seq<char>),
    Unsupported(Seq<char>),
    MissingSource(SourceId),
    Mismatch(Seq<char>),
    Seam(JoinMismatch),
    Engine(JobError),
    Nut(NutError),
    Io(Seq<char>),
    Cancelled,
    AudioChain(Seq<char>),
}

impl View for ExportError {
    type V = ErrorModel;

    open spec fn view(&self) -> ErrorModel {
        match *self {
            ExportError::Container(text) => ErrorModel::Container(text@),
            ExportError::CodecNotInContainer { codec, container } => {
                ErrorModel::CodecNotInContainer { codec: codec@, container: container@ }
            },
            ExportError::TargetExists(text) => ErrorModel::TargetExists(text@),
            ExportError::TargetIsSource(text) => ErrorModel::TargetIsSource(text@),
            ExportError::Declined(text) => ErrorModel::Declined(text@),
            ExportError::Unsupported(text) => ErrorModel::Unsupported(text@),
            ExportError::MissingSource(id) => ErrorModel::MissingSource(id),
            ExportError::Mismatch(text) => ErrorModel::Mismatch(text@),
            ExportError::Seam(mismatch) => ErrorModel::Seam(mismatch),
            ExportError::Engine(error) => ErrorModel::Engine(error),
            ExportError::Nut(error) => ErrorModel::Nut(error),
            ExportError::Io(text) => ErrorModel::Io(text@),
            ExportError::Cancelled => ErrorModel::Cancelled,
            ExportError::AudioChain(text) => ErrorModel::AudioChain(text@),
        }
    }
}

impl ExportError {
    /// The error in words.
    pub open spec fn words(&self) -> Seq<char> {
        match self@ {
            ErrorModel::Container(text) => "\"."@ + text
                + "\" is not a container Blinkify writes: choose .mp4, .mov, .mkv or .webm"@,
            ErrorModel::CodecNotInContainer { codec, container } => codec
                + " cannot be written into a "@ + container + " file unchanged"@,
            ErrorModel::TargetExists(path) => path
                + " already exists, and replacing it was not confirmed"@,
            ErrorModel::TargetIsSource(path) => path
                + " is one of the export's sources, and a source is never written to"@,
            ErrorModel::Declined(text) => "the plan declines part of this export: "@ + text,
            ErrorModel::Unsupported(text) =>
                "this export needs a step Blinkify cannot run yet: "@ + text,
            ErrorModel::MissingSource(id) => "source "@ + decimal(id as nat)
                + " is not available to the export"@,
            ErrorModel::Mismatch(text) => "the file does not match the plan: "@ + text,
            ErrorModel::Seam(mismatch) =>
                "the re-encoded pictures cannot join the copied ones: "@ + mismatch.words(),
            ErrorModel::Engine(error) => error.words(),
            ErrorModel::Nut(error) => error.words(),
            ErrorModel::Io(text) => "the output could not be written: "@ + text,
            ErrorModel::Cancelled => "the export was cancelled"@,
            ErrorModel::AudioChain(text) => "the sound cannot be processed: "@ + text,
        }
    }
}

impl ExportError {
    /// The error in words.
    pub fn message(&self) -> (text: String)
        ensures
            text@ == self.words(),
    {
        match self {
            ExportError::Container(extension) => {
                "\".".to_owned().concat(extension.as_str()).concat(
                    "\" is not a container Blinkify writes: choose .mp4, .mov, .mkv or .webm",
                )
            },
            ExportError::CodecNotInContainer { codec, container } => {
                codec.clone().concat(" cannot be written into a ").concat(
                    container.as_str(),
                ).concat(" file unchanged")
            },
            ExportError::TargetExists(path) => {
                path.clone().concat(" already exists, and replacing it was not confirmed")
            },
            ExportError::TargetIsSource(path) => {
                path.clone().concat(
                    " is one of the export's sources, and a source is never written to",
                )
            },
            ExportError::Declined(text) => {
                "the plan declines part of this export: ".to_owned().concat(text.as_str())
            },
            ExportError::Unsupported(text) => {
                "this export needs a step Blinkify cannot run yet: ".to_owned().concat(
                    text.as_str(),
                )
            },
            ExportError::MissingSource(id) => {
                let mut text = "source ".to_owned();
                push_decimal(&mut text, *id);
                text.concat(" is not available to the export")
            },
            ExportError::Mismatch(text) => {
                "the file does not match the plan: ".to_owned().concat(text.as_str())
            },
            ExportError::Seam(mismatch) => {
                "the re-encoded pictures cannot join the copied ones: ".to_owned().concat(
                    mismatch.message(),
                )
            },
            ExportError::Engine(error) => error.message(),
            ExportError::Nut(error) => error.message(),
            ExportError::Io(text) => {
                "the output could not be written: ".to_owned().concat(text.as_str())
            },
            ExportError::Cancelled => "the export was cancelled".to_owned(),
            ExportError::AudioChain(text) => {
                "the sound cannot be processed: ".to_owned().concat(text.as_str())
            },
        }
    }
}

/// The container that an extension names, whatever its case.
pub open spec fn container_named(extension: Seq<char>) -> Option<Container> {
    let name = lowercase(extension);
    if name == "mp4"@ || name == "m4v"@ {
        Some(Container::Mp4)
    } else if name == "mov"@ {
        Some(Container::Mov)
    } else if name == "mkv"@ {
        Some(Container::Matroska)
    } else if name == "webm"@ {
        Some(Container::WebM)
    } else {
        None
    }
}

/// A text starts with another.
pub open spec fn starts_with(text: Seq<char>, lead: Seq<char>) -> bool {
    lead.len() <= text.len() && text.take(lead.len() as int) == lead
}

impl Container {
    /// The container an extension names; the error gives it in small letters.
    pub fn of(extension: &str) -> (container: Result<Container, ExportError>)
        ensures
            match container_named(extension@) {
                Some(named) => container == Ok::<Container, ExportError>(named),
                None => container is Err && container->Err_0@ == ErrorModel::Container(
                    lowercase(extension@),
                ),
            },
    {
        let name = to_lowercase(extension);
        if same_text(name.as_str(), "mp4") || same_text(name.as_str(), "m4v") {
            Ok(Container::Mp4)
        } else if same_text(name.as_str(), "mov") {
            Ok(Container::Mov)
        } else if same_text(name.as_str(), "mkv") {
            Ok(Container::Matroska)
        } else if same_text(name.as_str(), "webm") {
            Ok(Container::WebM)
        } else {
            Err(ExportError::Container(name))
        }
    }

    /// The muxer that writes the container.
    pub open spec fn muxer_name(self) -> Seq<char> {
        match self {
            Container::Mp4 => "mp4"@,
            Container::Mov => "mov"@,
            Container::Matroska => "matroska"@,
            Container::WebM => "webm"@,
        }
    }

    /// The muxer that writes the container.
    pub fn muxer(self) -> (name: &'static str)
        ensures
            name@ == self.muxer_name(),
    {
        match self {
            Container::Mp4 => "mp4",
            Container::Mov => "mov",
            Container::Matroska => "matroska",
            Container::WebM => "webm",
        }
    }

    /// The container's own name.
    pub open spec fn name(self) -> Seq<char> {
        match self {
            Container::Mp4 => "Mp4"@,
            Container::Mov => "Mov"@,
            Container::Matroska => "Matroska"@,
            Container::WebM => "WebM"@,
        }
    }

    /// The container's own name.
    pub fn text(self) -> (name: &'static str)
        ensures
            name@ == self.name(),
    {
        match self {
            Container::Mp4 => "Mp4",
            Container::Mov => "Mov",
            Container::Matroska => "Matroska",
            Container::WebM => "WebM",
        }
    }

    /// The container can hold packets of a codec unchanged.
    pub open spec fn holds(self, codec: Seq<char>) -> bool {
        match self {
            Container::Mp4 | Container::Mov => {
                ||| codec == "h264"@ || codec == "hevc"@ || codec == "av1"@ || codec == "vp9"@
                ||| codec == "mpeg4"@ || codec == "aac"@ || codec == "mp3"@ || codec == "opus"@
                ||| codec == "flac"@ || codec == "alac"@ || codec == "ac3"@ || codec == "eac3"@
                ||| self == Container::Mov && starts_with(codec, "pcm_"@)
            },
            Container::Matroska => true,
            Container::WebM => codec == "vp8"@ || codec == "vp9"@ || codec == "av1"@ || codec
                == "opus"@ || codec == "vorbis"@,
        }
    }

    /// Whether the container can hold packets of `codec` unchanged.
    pub fn accepts(self, codec: &str) -> (yes: bool)
        ensures
            yes == self.holds(codec@),
    {
        match self {
            Container::Mp4 | Container::Mov => {
                same_text(codec, "h264") || same_text(codec, "hevc") || same_text(codec, "av1")
                    || same_text(codec, "vp9") || same_text(codec, "mpeg4") || same_text(
                    codec,
                    "aac",
                ) || same_text(codec, "mp3") || same_text(codec, "opus") || same_text(codec, "flac")
                    || same_text(codec, "alac") || same_text(codec, "ac3") || same_text(
                    codec,
                    "eac3",
                ) || (self == Container::Mov && leads(codec, "pcm_"))
            },
            Container::Matroska => true,
            Container::WebM => {
                same_text(codec, "vp8") || same_text(codec, "vp9") || same_text(codec, "av1")
                    || same_text(codec, "opus") || same_text(codec, "vorbis")
            },
        }
    }
}

/// Whether `text` starts with `lead`.
fn leads(text: &str, lead: &str) -> (yes: bool)
    ensures
        yes == starts_with(text@, lead@),
{
    let text_chars = crate::text::characters(text);
    let lead_chars = crate::text::characters(lead);
    if lead_chars.len() > text_chars.len() {
        return false;
    }
    let head = crate::text::copy(&text_chars, 0, lead_chars.len());
    proof {
        assert(head@ =~= text@.take(lead@.len() as int));
    }
    crate::text::is_word(&head, lead)
}

/// The name the output has until it is complete, beside the target.
pub open spec fn partial_name(name: Seq<char>) -> Seq<char> {
    name + ".blinkify-partial"@
}

/// The name the output is written under until it is complete: beside the
/// target called `name`, so the rename is on one volume and cannot half-happen.
pub fn partial_path(name: &str) -> (partial: String)
    ensures
        partial@ == partial_name(name@),
{
    name.to_owned().concat(".blinkify-partial")
}

/// What an export wrote.
#[derive(Debug, PartialEq, Eq)]
pub struct ExportOutcome {
    pub path: String,
    /// Packets written, per output stream: video first where there is one.
    pub packets: Vec<u64>,
    /// How the re-encoded sound was made, where any was.
    pub audio: Option<AudioEncoding>,
    /// Every sidecar command the export ran, as a person reads it.
    pub commands: Vec<String>,
}

/// The stream of a file with a number.
pub open spec fn stream_numbered(info: MediaInfo, number: u32, at: int) -> int
    decreases info.streams@.len() - at,
{
    if at >= info.streams@.len() || info.streams@[at].index == number {
        at
    } else {
        stream_numbered(info, number, at + 1)
    }
}

/// The stream of a file with a number, where it has one.
pub fn find_stream(info: &MediaInfo, number: u32) -> (at: Option<usize>)
    ensures
        match at {
            Some(at) => at < info.streams@.len() && at == stream_numbered(*info, number, 0),
            None => stream_numbered(*info, number, 0) >= info.streams@.len(),
        },
{
    let mut i: usize = 0;
    while i < info.streams.len()
        invariant
            i <= info.streams@.len(),
            stream_numbered(*info, number, 0) == stream_numbered(*info, number, i as int),
        decreases info.streams@.len() - i,
    {
        if info.streams[i].index == number {
            return Some(i);
        }
        i += 1;
    }
    None
}

} // verus!
