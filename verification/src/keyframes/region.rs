//! Reading one region of a stream: the process that lists its packets, and
//! the keyframes whose first bytes are looked at.
use crate::keyframes::nal::{Codec, HEAD};
use crate::keyframes::packet::Packet;
use crate::num::smaller;
use crate::orchestrator::command::{file_words, SidecarCommand, Stdout, Tool};
use crate::text::{decimal, push_decimal};
use vstd::prelude::*;

verus! {

/// The interval from a tick on, up to a time: from the start of the file where
/// nothing comes before the tick.
pub open spec fn interval_words(from: i64, start: Seq<char>, end: Seq<char>) -> Seq<char> {
    if from <= 0 {
        "%"@ + end
    } else {
        start + "%"@ + end
    }
}

/// The interval from tick `from` on, which is `start` seconds, up to `end`
/// seconds.
pub fn interval(from: i64, start: &str, end: &str) -> (text: String)
    ensures
        text@ == interval_words(from, start@, end@),
{
    if from <= 0 {
        "%".to_owned().concat(end)
    } else {
        start.to_owned().concat("%").concat(end)
    }
}

/// The command that lists the packets of a stream in an interval.
pub fn region_command(path: &str, stream: u32, interval: &str) -> (command: SidecarCommand)
    ensures
        command.words() == seq![
            "-hide_banner"@,
            "-v"@,
            "error"@,
            "-select_streams"@,
            decimal(stream as nat),
            "-show_entries"@,
            "packet=pts,dts,pos,size,flags"@,
            "-of"@,
            "compact=p=0"@,
            "-read_intervals"@,
            interval@,
            "-i"@,
            file_words(path@),
        ],
        command.tool == Tool::Ffprobe,
        command.stdout == Stdout::Collect,
        command.progress_total is None,
{
    let mut number = String::new();
    push_decimal(&mut number, stream as u64);
    proof {
        assert(number@ =~= decimal(stream as nat));
    }
    let command = SidecarCommand::ffprobe().option("-v", "error").option(
        "-select_streams",
        number.as_str(),
    ).option("-show_entries", "packet=pts,dts,pos,size,flags").option("-of", "compact=p=0").option(
        "-read_intervals",
        interval,
    ).input(path);
    proof {
        assert(command.words() =~= seq![
            "-hide_banner"@,
            "-v"@,
            "error"@,
            "-select_streams"@,
            decimal(stream as nat),
            "-show_entries"@,
            "packet=pts,dts,pos,size,flags"@,
            "-of"@,
            "compact=p=0"@,
            "-read_intervals"@,
            interval@,
            "-i"@,
            file_words(path@),
        ]);
    }
    command
}

/// The first bytes of a keyframe: where they are and how many are read.
#[derive(Debug, Clone, Copy, PartialEq, Eq, Structural)]
pub struct Head {
    pub pts: i64,
    pub pos: u64,
    pub length: u64,
}

/// What is read of a packet: nothing unless it is a keyframe whose time and
/// place are known.
pub open spec fn head_of(packet: Packet) -> Option<Head> {
    match (packet.pts, packet.pos) {
        (Some(pts), Some(pos)) => if packet.key {
            Some(Head { pts, pos, length: smaller(packet.size as int, HEAD as int) as u64 })
        } else {
            None
        },
        _ => None,
    }
}

/// What is read of the first `count` packets.
pub open spec fn heads_of(packets: Seq<Packet>, count: int) -> Seq<Head>
    decreases count,
{
    if count <= 0 {
        Seq::empty()
    } else {
        match head_of(packets[count - 1]) {
            Some(head) => heads_of(packets, count - 1).push(head),
            None => heads_of(packets, count - 1),
        }
    }
}

/// The keyframes whose pictures are looked at: only where the codec has units
/// to read and the file keeps each packet in one piece behind lengths.
pub fn heads(packets: &Vec<Packet>, codec: Option<Codec>, iso_bmff: bool) -> (list: Vec<Head>)
    ensures
        list@ == (if codec is Some && iso_bmff {
            heads_of(packets@, packets@.len() as int)
        } else {
            Seq::empty()
        }),
{
    let mut list: Vec<Head> = Vec::new();
    if codec.is_none() || !iso_bmff {
        return list;
    }
    let mut i: usize = 0;
    while i < packets.len()
        invariant
            i <= packets@.len(),
            list@ == heads_of(packets@, i as int),
        decreases packets@.len() - i,
    {
        let packet = packets[i];
        if packet.key {
            if let (Some(pts), Some(pos)) = (packet.pts, packet.pos) {
                let length: u64 = if packet.size < HEAD {
                    packet.size
                } else {
                    HEAD
                };
                list.push(Head { pts, pos, length });
            }
        }
        i += 1;
    }
    list
}

} // verus!
