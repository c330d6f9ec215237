//! The processes that read a finished file back.
use crate::export::execute::command::{pipe, piped, quiet};
use crate::orchestrator::command::{file_words, SidecarCommand, Stdout, Tool};
use vstd::prelude::*;

verus! {

/// The part of a file that is read: where to seek to, and where to stop.
pub open spec fn bounded(range: Option<(&str, &str)>) -> Seq<Seq<char>> {
    match range {
        Some((from, to)) => seq!["-ss"@, from@, "-to"@, to@],
        None => Seq::empty(),
    }
}

/// The command that copies the stream `selector` of a file, or the part of it
/// between two times in seconds, to be hashed packet by packet.
pub fn hash_command(path: &str, selector: &str, range: Option<(&str, &str)>) -> (command:
    SidecarCommand)
    ensures
        command.words() == quiet() + seq!["-copyts"@] + bounded(range) + seq![
            "-i"@,
            file_words(path@),
            "-map"@,
            "0:"@ + selector@,
            "-c"@,
            "copy"@,
        ] + piped(),
        command.tool == Tool::Ffmpeg,
        command.stdout == Stdout::Stream,
        command.progress_total is None,
{
    let mut map = "0:".to_owned();
    map.append(selector);
    let start = SidecarCommand::ffmpeg().option("-v", "error").flag("-copyts");
    let start = match range {
        Some((from, to)) => start.option("-ss", from).option("-to", to),
        None => start,
    };
    proof {
        assert(start.words() =~= quiet() + seq!["-copyts"@] + bounded(range));
    }
    let command = start.input(path).option("-map", map.as_str()).option("-c", "copy");
    proof {
        assert(command.words() =~= start.words() + seq![
            "-i"@,
            file_words(path@),
            "-map"@,
            "0:"@ + selector@,
            "-c"@,
            "copy"@,
        ]);
    }
    pipe(command)
}

/// The command that decodes every stream of a file, for what it says of it.
pub fn decode_command(path: &str) -> (command: SidecarCommand)
    ensures
        command.words() == quiet() + seq![
            "-i"@,
            file_words(path@),
            "-map"@,
            "0"@,
            "-fps_mode"@,
            "passthrough"@,
            "-enc_time_base"@,
            "demux"@,
            "-f"@,
            "null"@,
            "-"@,
        ],
        command.tool == Tool::Ffmpeg,
        command.stdout == Stdout::Collect,
        command.progress_total is None,
{
    let command = SidecarCommand::ffmpeg().option("-v", "error").input(path).option(
        "-map",
        "0",
    ).option("-fps_mode", "passthrough").option("-enc_time_base", "demux").output_null();
    proof {
        assert(command.words() =~= quiet() + seq![
            "-i"@,
            file_words(path@),
            "-map"@,
            "0"@,
            "-fps_mode"@,
            "passthrough"@,
            "-enc_time_base"@,
            "demux"@,
            "-f"@,
            "null"@,
            "-"@,
        ]);
    }
    command
}

} // verus!
