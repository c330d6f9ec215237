//! Sorted tables of keyframes and frames, searched by timestamp.
use super::nal::PictureKind;
use vstd::prelude::*;

verus! {

/// Whether a cut at a keyframe can depend on the group of pictures before it.
#[derive(Debug, Clone, Copy, PartialEq, Eq, Structural)]
pub enum GopKind {
    /// Nothing at or after this keyframe references anything before it.
    Closed,
    /// Leading pictures after this keyframe reference the previous group. A
    /// stream copy starting here loses them; the safe cut window is wider.
    Open,
}

/// One keyframe of one stream.
#[derive(Debug, Clone, Copy, PartialEq, Eq, Structural)]
pub struct Keyframe {
    /// Presentation timestamp, in the stream's time base.
    pub pts: i64,
    /// Decode timestamp, in the stream's time base.
    pub dts: Option<i64>,
    /// Byte offset of the packet in the file, where the container knows it.
    pub pos: Option<u64>,
    pub gop: GopKind,
    /// What the first coded picture is, where it could be read.
    pub picture: Option<PictureKind>,
    /// Pictures presented before this one follow it in decode order.
    pub has_leading_pictures: bool,
}

/// What is known about one keyframe while its group is still being observed.
#[derive(Debug, Clone, Copy, PartialEq, Eq, Structural)]
pub struct Entry {
    pub keyframe: Keyframe,
    pub size: u64,
    /// Packets seen after it in decode order.
    pub observed_after: u32,
    /// The next keyframe, or the end of the stream, has been seen.
    pub closed_out: bool,
}

/// Entries in order of presentation timestamp, no timestamp twice.
pub open spec fn by_pts(entries: Seq<Entry>) -> bool {
    forall|i: int, j: int|
        0 <= i < j < entries.len() ==> (#[trigger] entries[i]).keyframe.pts < (
        #[trigger] entries[j]).keyframe.pts
}

/// An entry of `entries` has the timestamp `pts`.
pub open spec fn listed_at(entries: Seq<Entry>, pts: i64) -> bool {
    exists|i: int| 0 <= i < entries.len() && (#[trigger] entries[i]).keyframe.pts == pts
}

/// The entry with the timestamp `pts`.
pub open spec fn entry_at(entries: Seq<Entry>, pts: i64) -> Entry {
    entries[choose|i: int| 0 <= i < entries.len() && (#[trigger] entries[i]).keyframe.pts == pts]
}

/// The entries of a list, by timestamp.
pub open spec fn table_of(entries: Seq<Entry>) -> Map<i64, Entry> {
    Map::new(|pts: i64| listed_at(entries, pts), |pts: i64| entry_at(entries, pts))
}

/// The entries of one stream, by presentation timestamp.
#[derive(Debug)]
pub struct KeyTable {
    pub entries: Vec<Entry>,
}

impl View for KeyTable {
    type V = Map<i64, Entry>;

    open spec fn view(&self) -> Map<i64, Entry> {
        table_of(self.entries@)
    }
}

/// In a sorted table, the entry found by a timestamp is the one that has it.
pub proof fn lemma_entry_at(entries: Seq<Entry>, i: int)
    requires
        by_pts(entries),
        0 <= i < entries.len(),
    ensures
        listed_at(entries, entries[i].keyframe.pts),
        entry_at(entries, entries[i].keyframe.pts) == entries[i],
{
    let pts = entries[i].keyframe.pts;
    assert(entries[i].keyframe.pts == pts);
    let k = choose|k: int| 0 <= k < entries.len() && (#[trigger] entries[k]).keyframe.pts == pts;
    if k < i {
        assert(entries[k].keyframe.pts < entries[i].keyframe.pts);
    } else if i < k {
        assert(entries[i].keyframe.pts < entries[k].keyframe.pts);
    }
}

impl KeyTable {
    /// The entries are sorted by timestamp, none twice.
    pub open spec fn wf(&self) -> bool {
        by_pts(self.entries@)
    }

    /// An empty table.
    pub fn new() -> (table: KeyTable)
        ensures
            table.wf(),
            table@ == Map::<i64, Entry>::empty(),
            table.entries@.len() == 0,
    {
        let table = KeyTable { entries: Vec::new() };
        assert(table@ =~= Map::<i64, Entry>::empty());
        table
    }

    /// How many entries lie before `pts`.
    pub fn before(&self, pts: i64) -> (count: usize)
        requires
            self.wf(),
        ensures
            count <= self.entries.len(),
            forall|j: int| 0 <= j < count ==> (#[trigger] self.entries@[j]).keyframe.pts < pts,
            forall|j: int|
                count <= j < self.entries.len() ==> pts <= (
                #[trigger] self.entries@[j]).keyframe.pts,
    {
        let mut low: usize = 0;
        let mut high: usize = self.entries.len();
        while low < high
            invariant
                self.wf(),
                low <= high <= self.entries.len(),
                forall|j: int| 0 <= j < low ==> (#[trigger] self.entries@[j]).keyframe.pts < pts,
                forall|j: int|
                    high <= j < self.entries.len() ==> pts <= (
                    #[trigger] self.entries@[j]).keyframe.pts,
            decreases high - low,
        {
            let middle: usize = low + (high - low) / 2;
            if self.entries[middle].keyframe.pts < pts {
                assert forall|j: int| 0 <= j < middle + 1 implies (
                #[trigger] self.entries@[j]).keyframe.pts < pts by {
                    if j < middle {
                        assert(self.entries@[j].keyframe.pts
                            < self.entries@[middle as int].keyframe.pts);
                    }
                }
                low = middle + 1;
            } else {
                assert forall|j: int| middle <= j < self.entries.len() implies pts <= (
                #[trigger] self.entries@[j]).keyframe.pts by {
                    if j > middle {
                        assert(self.entries@[middle as int].keyframe.pts
                            < self.entries@[j].keyframe.pts);
                    }
                }
                high = middle;
            }
        }
        low
    }

    /// The entry with the timestamp `pts`.
    pub fn get(&self, pts: i64) -> (entry: Option<Entry>)
        requires
            self.wf(),
        ensures
            entry == (if self@.contains_key(pts) {
                Some(self@[pts])
            } else {
                None
            }),
    {
        let at: usize = self.before(pts);
        if at < self.entries.len() && self.entries[at].keyframe.pts == pts {
            proof {
                lemma_entry_at(self.entries@, at as int);
            }
            Some(self.entries[at])
        } else {
            assert(!listed_at(self.entries@, pts)) by {
                if listed_at(self.entries@, pts) {
                    let k = choose|k: int|
                        0 <= k < self.entries@.len() && (#[trigger] self.entries@[k]).keyframe.pts
                            == pts;
                    if k > at {
                        assert(self.entries@[at as int].keyframe.pts
                            < self.entries@[k].keyframe.pts);
                    }
                }
            }
            None
        }
    }

    /// Put `entry` at its timestamp, in place of any entry there.
    pub fn put(&mut self, entry: Entry)
        requires
            old(self).wf(),
        ensures
            final(self).wf(),
            final(self)@ == old(self)@.insert(entry.keyframe.pts, entry),
    {
        let ghost before = self.entries@;
        let pts: i64 = entry.keyframe.pts;
        let at: usize = self.before(pts);
        if at < self.entries.len() && self.entries[at].keyframe.pts == pts {
            self.entries.set(at, entry);
            let ghost after = self.entries@;
            assert(after =~= before.update(at as int, entry));
            proof {
                assert forall|i: int, j: int| 0 <= i < j < after.len() implies (
                #[trigger] after[i]).keyframe.pts < (#[trigger] after[j]).keyframe.pts by {
                    assert(before[i].keyframe.pts < before[j].keyframe.pts);
                }
                lemma_put(before, after, at as int, entry, 0);
            }
        } else {
            self.entries.insert(at, entry);
            let ghost after = self.entries@;
            assert(after =~= before.insert(at as int, entry));
            proof {
                assert forall|i: int, j: int| 0 <= i < j < after.len() implies (
                #[trigger] after[i]).keyframe.pts < (#[trigger] after[j]).keyframe.pts by {
                    let p = if i < at {
                        i
                    } else {
                        i - 1
                    };
                    let q = if j < at {
                        j
                    } else {
                        j - 1
                    };
                    if i != at && j != at {
                        assert(before[p].keyframe.pts < before[q].keyframe.pts);
                    } else if i == at {
                        assert(pts <= before[q].keyframe.pts);
                        if q > at {
                            assert(before[at as int].keyframe.pts < before[q].keyframe.pts);
                        }
                    } else {
                        assert(before[p].keyframe.pts < pts);
                    }
                }
                lemma_put(before, after, at as int, entry, 1);
            }
        }
    }

    /// The newest keyframe at or before `pts`.
    pub fn at_or_before(&self, pts: i64) -> (keyframe: Option<Keyframe>)
        requires
            self.wf(),
        ensures
            newest_at_or_before(self@, pts, keyframe),
    {
        let at: usize = self.before(pts);
        let index: usize = if at < self.entries.len() && self.entries[at].keyframe.pts == pts {
            at + 1
        } else {
            at
        };
        if index == 0 {
            return None;
        }
        proof {
            lemma_entry_at(self.entries@, index - 1);
            assert forall|k: i64| #[trigger] self@.contains_key(k) && k <= pts implies k
                <= self.entries@[index - 1].keyframe.pts by {
                let j = choose|j: int|
                    0 <= j < self.entries@.len() && (#[trigger] self.entries@[j]).keyframe.pts
                        == k;
                if j < index - 1 {
                    assert(self.entries@[j].keyframe.pts < self.entries@[index - 1].keyframe.pts);
                } else if j > index - 1 && at < self.entries.len() && j > at {
                    assert(self.entries@[at as int].keyframe.pts < self.entries@[j].keyframe.pts);
                }
            }
        }
        Some(self.entries[index - 1].keyframe)
    }

    /// The first keyframe at or after `pts`.
    pub fn at_or_after(&self, pts: i64) -> (keyframe: Option<Keyframe>)
        requires
            self.wf(),
        ensures
            first_at_or_after(self@, pts, keyframe),
    {
        let at: usize = self.before(pts);
        if at == self.entries.len() {
            return None;
        }
        proof {
            lemma_entry_at(self.entries@, at as int);
            assert forall|k: i64| #[trigger] self@.contains_key(k) && pts <= k implies self.entries@[
            at as int].keyframe.pts <= k by {
                let j = choose|j: int|
                    0 <= j < self.entries@.len() && (#[trigger] self.entries@[j]).keyframe.pts
                        == k;
                if j > at {
                    assert(self.entries@[at as int].keyframe.pts < self.entries@[j].keyframe.pts);
                }
            }
        }
        Some(self.entries[at].keyframe)
    }

    /// Every keyframe, in presentation order.
    pub fn keyframes(&self) -> (list: Vec<Keyframe>)
        ensures
            list@ == Seq::new(self.entries@.len(), |i: int| self.entries@[i].keyframe),
    {
        let mut list: Vec<Keyframe> = Vec::new();
        let mut i: usize = 0;
        while i < self.entries.len()
            invariant
                i <= self.entries.len(),
                list@ == Seq::new(i as nat, |i: int| self.entries@[i].keyframe),
            decreases self.entries.len() - i,
        {
            list.push(self.entries[i].keyframe);
            i = i + 1;
            assert(list@ =~= Seq::new(i as nat, |i: int| self.entries@[i].keyframe));
        }
        list
    }
}

/// `answer` is the entry of `table` with the greatest timestamp up to `pts`,
/// and nothing where there is none.
pub open spec fn newest_at_or_before(
    table: Map<i64, Entry>,
    pts: i64,
    answer: Option<Keyframe>,
) -> bool {
    match answer {
        Some(keyframe) => {
            &&& table.contains_key(keyframe.pts) && table[keyframe.pts].keyframe == keyframe
            &&& keyframe.pts <= pts
            &&& forall|k: i64| #[trigger] table.contains_key(k) && k <= pts ==> k <= keyframe.pts
        },
        None => forall|k: i64| #[trigger] table.contains_key(k) ==> k > pts,
    }
}

/// `answer` is the entry of `table` with the least timestamp from `pts` on,
/// and nothing where there is none.
pub open spec fn first_at_or_after(
    table: Map<i64, Entry>,
    pts: i64,
    answer: Option<Keyframe>,
) -> bool {
    match answer {
        Some(keyframe) => {
            &&& table.contains_key(keyframe.pts) && table[keyframe.pts].keyframe == keyframe
            &&& pts <= keyframe.pts
            &&& forall|k: i64| #[trigger] table.contains_key(k) && pts <= k ==> keyframe.pts <= k
        },
        None => forall|k: i64| #[trigger] table.contains_key(k) ==> k < pts,
    }
}

/// Setting (`grown` 0) or inserting (`grown` 1) an entry at its place.
proof fn lemma_put(before: Seq<Entry>, after: Seq<Entry>, at: int, entry: Entry, grown: int)
    requires
        by_pts(before),
        by_pts(after),
        grown == 0 || grown == 1,
        0 <= at < after.len(),
        after.len() == before.len() + grown,
        after[at] == entry,
        grown == 0 ==> before[at].keyframe.pts == entry.keyframe.pts,
        forall|j: int| 0 <= j < at ==> #[trigger] after[j] == before[j],
        forall|j: int| at < j < after.len() ==> #[trigger] after[j] == before[j - grown],
    ensures
        table_of(after) == table_of(before).insert(entry.keyframe.pts, entry),
{
    let old_table = table_of(before);
    let table = table_of(after);
    assert forall|k: i64| #[trigger] table.contains_key(k) == (old_table.contains_key(k) || k
        == entry.keyframe.pts) by {
        if listed_at(after, k) {
            let j = choose|j: int| 0 <= j < after.len() && (#[trigger] after[j]).keyframe.pts == k;
            if j < at {
                assert(before[j].keyframe.pts == k);
            } else if j > at {
                assert(before[j - grown].keyframe.pts == k);
            }
        }
        if listed_at(before, k) {
            let j = choose|j: int|
                0 <= j < before.len() && (#[trigger] before[j]).keyframe.pts == k;
            if j < at {
                assert(after[j].keyframe.pts == k);
            } else if j + grown > at {
                assert(after[j + grown].keyframe.pts == k);
            }
        }
        if k == entry.keyframe.pts {
            assert(after[at].keyframe.pts == k);
        }
    }
    assert forall|k: i64| #[trigger] table.contains_key(k) implies table[k] == old_table.insert(
        entry.keyframe.pts,
        entry,
    )[k] by {
        let j = choose|j: int| 0 <= j < after.len() && (#[trigger] after[j]).keyframe.pts == k;
        lemma_entry_at(after, j);
        if j < at {
            lemma_entry_at(before, j);
            assert(after[j].keyframe.pts < after[at].keyframe.pts);
        } else if j > at {
            lemma_entry_at(before, j - grown);
            assert(after[at].keyframe.pts < after[j].keyframe.pts);
        }
    }
    assert(table =~= old_table.insert(entry.keyframe.pts, entry));
}

/// Ticks in increasing order, none twice.
pub open spec fn increasing(ticks: Seq<i64>) -> bool {
    forall|i: int, j: int| 0 <= i < j < ticks.len() ==> #[trigger] ticks[i] < #[trigger] ticks[j]
}

/// The presentation timestamps of a stream's frames.
#[derive(Debug)]
pub struct FrameTable {
    pub ticks: Vec<i64>,
}

impl View for FrameTable {
    type V = Set<i64>;

    open spec fn view(&self) -> Set<i64> {
        self.ticks@.to_set()
    }
}

impl FrameTable {
    /// The ticks are sorted, none twice.
    pub open spec fn wf(&self) -> bool {
        increasing(self.ticks@)
    }

    /// An empty table.
    pub fn new() -> (table: FrameTable)
        ensures
            table.wf(),
            table@ == Set::<i64>::empty(),
    {
        let table = FrameTable { ticks: Vec::new() };
        assert(table@ =~= Set::<i64>::empty());
        table
    }

    /// How many frames lie before `pts`.
    pub fn before(&self, pts: i64) -> (count: usize)
        requires
            self.wf(),
        ensures
            count <= self.ticks.len(),
            forall|j: int| 0 <= j < count ==> #[trigger] self.ticks@[j] < pts,
            forall|j: int| count <= j < self.ticks.len() ==> pts <= #[trigger] self.ticks@[j],
    {
        let mut low: usize = 0;
        let mut high: usize = self.ticks.len();
        while low < high
            invariant
                self.wf(),
                low <= high <= self.ticks.len(),
                forall|j: int| 0 <= j < low ==> #[trigger] self.ticks@[j] < pts,
                forall|j: int| high <= j < self.ticks.len() ==> pts <= #[trigger] self.ticks@[j],
            decreases high - low,
        {
            let middle: usize = low + (high - low) / 2;
            if self.ticks[middle] < pts {
                low = middle + 1;
            } else {
                high = middle;
            }
        }
        low
    }

    /// Add a frame.
    pub fn insert(&mut self, pts: i64)
        requires
            old(self).wf(),
        ensures
            final(self).wf(),
            final(self)@ == old(self)@.insert(pts),
    {
        let ghost before = self.ticks@;
        let at: usize = self.before(pts);
        if at < self.ticks.len() && self.ticks[at] == pts {
            assert(before[at as int] == pts);
            assert(self@ =~= old(self)@.insert(pts));
            return;
        }
        self.ticks.insert(at, pts);
        let ghost after = self.ticks@;
        assert(after =~= before.insert(at as int, pts));
        proof {
            assert forall|i: int, j: int| 0 <= i < j < after.len() implies #[trigger] after[i]
                < #[trigger] after[j] by {
                let p = if i < at {
                    i
                } else {
                    i - 1
                };
                let q = if j < at {
                    j
                } else {
                    j - 1
                };
                if i != at && j != at {
                    assert(before[p] < before[q]);
                } else if i == at {
                    assert(pts <= before[q]);
                    if q > at {
                        assert(before[at as int] < before[q]);
                    }
                } else {
                    assert(before[p] < pts);
                }
            }
            assert forall|k: i64| after.contains(k) == (before.contains(k) || k == pts) by {
                if before.contains(k) {
                    let j = choose|j: int| 0 <= j < before.len() && before[j] == k;
                    if j < at {
                        assert(after[j] == k);
                    } else {
                        assert(after[j + 1] == k);
                    }
                }
                if after.contains(k) {
                    let j = choose|j: int| 0 <= j < after.len() && after[j] == k;
                    if j < at {
                        assert(before[j] == k);
                    } else if j > at {
                        assert(before[j - 1] == k);
                    }
                }
                assert(after[at as int] == pts);
            }
        }
        assert(self@ =~= old(self)@.insert(pts));
    }

    /// The newest frame at or before `pts`.
    pub fn at_or_before(&self, pts: i64) -> (frame: Option<i64>)
        requires
            self.wf(),
        ensures
            newest_frame(self@, pts, frame),
    {
        let at: usize = self.before(pts);
        let index: usize = if at < self.ticks.len() && self.ticks[at] == pts {
            at + 1
        } else {
            at
        };
        if index == 0 {
            return None;
        }
        proof {
            assert(self@.contains(self.ticks@[index - 1]));
            assert forall|k: i64| #[trigger] self@.contains(k) && k <= pts implies k
                <= self.ticks@[index - 1] by {
                let j = choose|j: int| 0 <= j < self.ticks@.len() && self.ticks@[j] == k;
                if j < index - 1 {
                    assert(self.ticks@[j] < self.ticks@[index - 1]);
                } else if j > index - 1 && at < self.ticks.len() && j > at {
                    assert(self.ticks@[at as int] < self.ticks@[j]);
                }
            }
        }
        Some(self.ticks[index - 1])
    }

    /// The first frame at or after `pts`.
    pub fn at_or_after(&self, pts: i64) -> (frame: Option<i64>)
        requires
            self.wf(),
        ensures
            first_frame(self@, pts, frame),
    {
        let at: usize = self.before(pts);
        if at == self.ticks.len() {
            return None;
        }
        proof {
            assert(self@.contains(self.ticks@[at as int]));
            assert forall|k: i64| #[trigger] self@.contains(k) && pts <= k implies self.ticks@[
            at as int] <= k by {
                let j = choose|j: int| 0 <= j < self.ticks@.len() && self.ticks@[j] == k;
                if j > at {
                    assert(self.ticks@[at as int] < self.ticks@[j]);
                }
            }
        }
        Some(self.ticks[at])
    }
}

/// `answer` is the greatest frame up to `pts`, and nothing where there is none.
pub open spec fn newest_frame(frames: Set<i64>, pts: i64, answer: Option<i64>) -> bool {
    match answer {
        Some(frame) => {
            &&& frames.contains(frame) && frame <= pts
            &&& forall|k: i64| #[trigger] frames.contains(k) && k <= pts ==> k <= frame
        },
        None => forall|k: i64| #[trigger] frames.contains(k) ==> k > pts,
    }
}

/// `answer` is the least frame from `pts` on, and nothing where there is none.
pub open spec fn first_frame(frames: Set<i64>, pts: i64, answer: Option<i64>) -> bool {
    match answer {
        Some(frame) => {
            &&& frames.contains(frame) && pts <= frame
            &&& forall|k: i64| #[trigger] frames.contains(k) && pts <= k ==> frame <= k
        },
        None => forall|k: i64| #[trigger] frames.contains(k) ==> k < pts,
    }
}

} // verus!
