//! What an export actually did, measured on the file it wrote.
use crate::export::verify::{same_hash, PacketHash};
use crate::tier::ExportTier;
use vstd::prelude::*;

verus! {

/// What happened to a segment's packets, as measured.
#[derive(Debug, Clone, Copy, PartialEq, Eq, Structural)]
pub enum Execution {
    /// Every packet is its source's.
    Copied,
    /// Some are, some were encoded: a smart-cut.
    PartlyReEncoded,
    /// None is.
    ReEncoded,
    /// The output has no packet here.
    Empty,
}

impl Execution {
    /// What the output shows, in words.
    pub open spec fn words(self) -> Seq<char> {
        match self {
            Execution::Copied => "every packet copied"@,
            Execution::PartlyReEncoded => "some packets re-encoded"@,
            Execution::ReEncoded => "every packet re-encoded"@,
            Execution::Empty => "no packets"@,
        }
    }

    /// What the output shows, in words.
    pub fn text(self) -> (text: &'static str)
        ensures
            text@ == self.words(),
    {
        match self {
            Execution::Copied => "every packet copied",
            Execution::PartlyReEncoded => "some packets re-encoded",
            Execution::ReEncoded => "every packet re-encoded",
            Execution::Empty => "no packets",
        }
    }
}

/// What the plan decided, in words.
pub open spec fn tier_words(tier: ExportTier) -> Seq<char> {
    match tier {
        ExportTier::StreamCopy => "a copy"@,
        ExportTier::SmartCut { .. } => "a smart-cut"@,
        ExportTier::FullReEncode { .. } => "a re-encode"@,
    }
}

/// What the plan decided, in words.
pub fn tier_text(tier: ExportTier) -> (text: &'static str)
    ensures
        text@ == tier_words(tier),
{
    match tier {
        ExportTier::StreamCopy => "a copy",
        ExportTier::SmartCut { .. } => "a smart-cut",
        ExportTier::FullReEncode { .. } => "a re-encode",
    }
}

/// A hash is among those known.
pub open spec fn is_known(known: Seq<[u8; 32]>, hash: Seq<u8>) -> bool {
    exists|i: int| 0 <= i < known.len() && (#[trigger] known[i])@ == hash
}

/// A packet is shown within a range, a microsecond early at most.
pub open spec fn is_inside(packet: PacketHash, from: int, to: int) -> bool {
    from - 1 <= packet.micros < to - 1
}

/// How many of the first `count` packets are shown within a range.
pub open spec fn inside(output: Seq<PacketHash>, from: int, to: int, count: int) -> nat
    decreases count,
{
    if count <= 0 {
        0
    } else {
        inside(output, from, to, count - 1) + (if is_inside(output[count - 1], from, to) {
            1nat
        } else {
            0
        })
    }
}

/// How many of those are bit-identical to the source's.
pub open spec fn identical(
    output: Seq<PacketHash>,
    known: Seq<[u8; 32]>,
    from: int,
    to: int,
    count: int,
) -> nat
    decreases count,
{
    if count <= 0 {
        0
    } else {
        identical(output, known, from, to, count - 1) + (if is_inside(output[count - 1], from, to)
            && is_known(known, output[count - 1].sha256@) {
            1nat
        } else {
            0
        })
    }
}

/// What happened, from how many packets there are and how many are the
/// source's.
pub open spec fn execution_of(packets: u32, same: u32) -> Execution {
    if packets == 0 {
        Execution::Empty
    } else if packets == same {
        Execution::Copied
    } else if same == 0 {
        Execution::ReEncoded
    } else {
        Execution::PartlyReEncoded
    }
}

/// What happened is what was planned. A seam can be narrower than its window,
/// and then nothing needed encoding.
pub open spec fn is_as_planned(tier: ExportTier, execution: Execution) -> bool {
    match execution {
        Execution::Empty => true,
        Execution::Copied => tier is StreamCopy || tier is SmartCut,
        Execution::PartlyReEncoded => tier is SmartCut,
        Execution::ReEncoded => tier is FullReEncode,
    }
}

/// A count, as far as 32 bits go.
pub open spec fn counted(n: nat) -> u32 {
    if n <= u32::MAX {
        n as u32
    } else {
        u32::MAX
    }
}

/// The packets of a segment, measured.
#[derive(Debug, Clone, Copy, PartialEq, Eq, Structural)]
pub struct Measured {
    /// What the output shows.
    pub execution: Execution,
    /// The execution is what the plan decided.
    pub as_planned: bool,
    pub packets: u32,
    /// Packets bit-identical to the source's, by the hash boundary.
    pub identical: u32,
}

/// Whether a hash is among those known.
fn knows(known: &[[u8; 32]], hash: &[u8; 32]) -> (yes: bool)
    ensures
        yes == is_known(known@, hash@),
{
    let mut i: usize = 0;
    while i < known.len()
        invariant
            i <= known@.len(),
            forall|k: int| 0 <= k < i ==> (#[trigger] known@[k])@ != hash@,
        decreases known@.len() - i,
    {
        if same_hash(&known[i], hash) {
            return true;
        }
        i += 1;
    }
    false
}

/// A segment's packets, measured: the output's packets shown in `from..to`
/// microseconds, and how many of them are among `known`, its sources'.
pub fn measure(tier: ExportTier, from: i64, to: i64, output: &[PacketHash], known: &[[u8; 32]]) -> (
measured: Measured)
    ensures
        ({
            let n = output@.len() as int;
            let packets = counted(inside(output@, from as int, to as int, n));
            let same = counted(identical(output@, known@, from as int, to as int, n));
            let execution = execution_of(packets, same);
            measured == (Measured {
                execution,
                as_planned: is_as_planned(tier, execution),
                packets,
                identical: same,
            })
        }),
{
    let (low, high) = (from as i128, to as i128);
    let mut packets: u32 = 0;
    let mut same: u32 = 0;
    let mut i: usize = 0;
    while i < output.len()
        invariant
            i <= output@.len(),
            low == from,
            high == to,
            packets == counted(inside(output@, from as int, to as int, i as int)),
            same == counted(identical(output@, known@, from as int, to as int, i as int)),
        decreases output@.len() - i,
    {
        let packet = &output[i];
        if low - 1 <= packet.micros as i128 && (packet.micros as i128) < high - 1 {
            if packets < u32::MAX {
                packets += 1;
            }
            if knows(known, &packet.sha256) && same < u32::MAX {
                same += 1;
            }
        }
        i += 1;
    }
    let execution = if packets == 0 {
        Execution::Empty
    } else if packets == same {
        Execution::Copied
    } else if same == 0 {
        Execution::ReEncoded
    } else {
        Execution::PartlyReEncoded
    };
    let as_planned = match execution {
        Execution::Empty => true,
        Execution::Copied => match tier {
            ExportTier::StreamCopy | ExportTier::SmartCut { .. } => true,
            ExportTier::FullReEncode { .. } => false,
        },
        Execution::PartlyReEncoded => match tier {
            ExportTier::SmartCut { .. } => true,
            _ => false,
        },
        Execution::ReEncoded => match tier {
            ExportTier::FullReEncode { .. } => true,
            _ => false,
        },
    };
    Measured { execution, as_planned, packets, identical: same }
}

/// A copy that is not one is not reported as one: a segment of which some
/// packet is not its source's is not reported as copied, and where the plan
/// called it a copy, not as planned.
pub proof fn a_false_copy_is_told(
    output: Seq<PacketHash>,
    known: Seq<[u8; 32]>,
    from: int,
    to: int,
    i: int,
)
    requires
        0 <= i < output.len(),
        output.len() <= u32::MAX,
        is_inside(output[i], from, to),
        !is_known(known, output[i].sha256@),
    ensures
        ({
            let n = output.len() as int;
            let execution = execution_of(
                counted(inside(output, from, to, n)),
                counted(identical(output, known, from, to, n)),
            );
            &&& execution == Execution::ReEncoded || execution == Execution::PartlyReEncoded
            &&& !is_as_planned(ExportTier::StreamCopy, execution)
        }),
{
    lemma_counts(output, known, from, to, output.len() as int, i);
}

/// Fewer packets are identical than there are, where one is not.
proof fn lemma_counts(
    output: Seq<PacketHash>,
    known: Seq<[u8; 32]>,
    from: int,
    to: int,
    count: int,
    i: int,
)
    requires
        0 <= count <= output.len(),
    ensures
        identical(output, known, from, to, count) <= inside(output, from, to, count) <= count,
        0 <= i < count && is_inside(output[i], from, to) && !is_known(known, output[i].sha256@)
            ==> identical(output, known, from, to, count) < inside(output, from, to, count),
    decreases count,
{
    if count > 0 {
        lemma_counts(output, known, from, to, count - 1, i);
    }
}

} // verus!
