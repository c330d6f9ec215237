//! Monitoring: what the editor hears, as opposed to what is exported.
//!
//! A track's monitor mute or solo changes what comes out of the speaker, and
//! nothing else. They are kept apart from clip gain, which is written to the
//! file.
use super::plan::TrackId;
use vstd::prelude::*;

verus! {

/// Tracks in increasing order, none twice.
pub open spec fn in_order(tracks: Seq<TrackId>) -> bool {
    forall|i: int, j: int|
        0 <= i < j < tracks.len() ==> #[trigger] tracks[i] < #[trigger] tracks[j]
}

/// A monitoring change.
#[derive(Debug, Clone, Copy, PartialEq, Eq, Structural)]
pub enum MonitorCommand {
    Mute { muted: bool },
    /// Solo a track: while any track is soloed, only soloed tracks are heard.
    Solo { track: TrackId, on: bool },
    /// Silence one track in the monitor.
    MuteTrack { track: TrackId, on: bool },
    /// Put the meter's clip indication out.
    ResetClip,
}

/// Every monitoring setting but the volume.
#[derive(Debug)]
pub struct MonitorSettings {
    pub muted: bool,
    pub soloed: Vec<TrackId>,
    pub muted_tracks: Vec<TrackId>,
}

impl Default for MonitorSettings {
    fn default() -> (settings: Self)
        ensures
            settings.wf(),
            !settings.muted,
            settings.soloed@.len() == 0,
            settings.muted_tracks@.len() == 0,
    {
        MonitorSettings { muted: false, soloed: Vec::new(), muted_tracks: Vec::new() }
    }
}

/// `tracks` with `track` in it, or not.
pub open spec fn toggled(tracks: Set<TrackId>, track: TrackId, on: bool) -> Set<TrackId> {
    if on {
        tracks.insert(track)
    } else {
        tracks.remove(track)
    }
}

impl MonitorSettings {
    /// The lists of tracks are sorted.
    pub open spec fn wf(&self) -> bool {
        in_order(self.soloed@) && in_order(self.muted_tracks@)
    }

    /// `track` reaches the monitor: not muted, and soloed if anything is.
    pub open spec fn heard(&self, track: TrackId) -> bool {
        !self.muted_tracks@.contains(track) && (self.soloed@.len() == 0 || self.soloed@.contains(
            track,
        ))
    }

    /// Whether `track` reaches the monitor: not muted, and soloed if anything
    /// is.
    pub fn audible(&self, track: TrackId) -> (yes: bool)
        ensures
            yes == self.heard(track),
    {
        !listed(&self.muted_tracks, track) && (self.soloed.len() == 0 || listed(
            &self.soloed,
            track,
        ))
    }

    /// Carry out a monitoring change.
    pub fn apply(&mut self, command: MonitorCommand)
        requires
            old(self).wf(),
        ensures
            final(self).wf(),
            final(self).muted == (match command {
                MonitorCommand::Mute { muted } => muted,
                _ => old(self).muted,
            }),
            final(self).soloed@.to_set() == (match command {
                MonitorCommand::Solo { track, on } => toggled(
                    old(self).soloed@.to_set(),
                    track,
                    on,
                ),
                _ => old(self).soloed@.to_set(),
            }),
            final(self).muted_tracks@.to_set() == (match command {
                MonitorCommand::MuteTrack { track, on } => toggled(
                    old(self).muted_tracks@.to_set(),
                    track,
                    on,
                ),
                _ => old(self).muted_tracks@.to_set(),
            }),
    {
        match command {
            MonitorCommand::Mute { muted } => {
                self.muted = muted;
            },
            MonitorCommand::Solo { track, on } => {
                toggle(&mut self.soloed, track, on);
            },
            MonitorCommand::MuteTrack { track, on } => {
                toggle(&mut self.muted_tracks, track, on);
            },
            MonitorCommand::ResetClip => {},
        }
    }
}

/// Whether `track` is in `tracks`.
fn listed(tracks: &Vec<TrackId>, track: TrackId) -> (yes: bool)
    ensures
        yes == tracks@.contains(track),
{
    let mut i: usize = 0;
    while i < tracks.len()
        invariant
            i <= tracks.len(),
            forall|j: int| 0 <= j < i ==> tracks@[j] != track,
        decreases tracks.len() - i,
    {
        if tracks[i] == track {
            assert(tracks@[i as int] == track);
            return true;
        }
        i = i + 1;
    }
    false
}

/// Put `track` into a sorted list, or take it out.
fn toggle(tracks: &mut Vec<TrackId>, track: TrackId, on: bool)
    requires
        in_order(old(tracks)@),
    ensures
        in_order(final(tracks)@),
        final(tracks)@.to_set() == toggled(old(tracks)@.to_set(), track, on),
{
    let ghost before = tracks@;
    let mut at: usize = 0;
    while at < tracks.len() && tracks[at] < track
        invariant
            at <= tracks.len(),
            forall|j: int| 0 <= j < at ==> #[trigger] tracks@[j] < track,
        decreases tracks.len() - at,
    {
        at = at + 1;
    }
    let here = at < tracks.len() && tracks[at] == track;
    assert(here == before.contains(track)) by {
        if here {
            assert(before[at as int] == track);
        } else if before.contains(track) {
            let j = choose|j: int| 0 <= j < before.len() && before[j] == track;
            if j > at {
                assert(before[at as int] < before[j]);
            }
        }
    }
    if on && !here {
        tracks.insert(at, track);
        let ghost after = tracks@;
        proof {
            assert(after =~= before.insert(at as int, track));
            assert forall|i: int, j: int| 0 <= i < j < after.len() implies #[trigger] after[i]
                < #[trigger] after[j] by {
                let p = if i < at {
                    i
                } else {
                    i - 1
                };
                let q = if j < at {
                    j
                } else {
                    j - 1
                };
                if i != at && j != at {
                    assert(before[p] < before[q]);
                } else if i == at && q > at {
                    assert(before[at as int] < before[q]);
                }
            }
            assert forall|k: TrackId| after.contains(k) == (before.contains(k) || k == track) by {
                if before.contains(k) {
                    let j = choose|j: int| 0 <= j < before.len() && before[j] == k;
                    if j < at {
                        assert(after[j] == k);
                    } else {
                        assert(after[j + 1] == k);
                    }
                }
                if after.contains(k) {
                    let j = choose|j: int| 0 <= j < after.len() && after[j] == k;
                    if j < at {
                        assert(before[j] == k);
                    } else if j > at {
                        assert(before[j - 1] == k);
                    }
                }
                assert(after[at as int] == track);
            }
        }
    } else if !on && here {
        let _ = tracks.remove(at);
        let ghost after = tracks@;
        proof {
            assert(after =~= before.remove(at as int));
            assert forall|i: int, j: int| 0 <= i < j < after.len() implies #[trigger] after[i]
                < #[trigger] after[j] by {
                let p = if i < at {
                    i
                } else {
                    i + 1
                };
                let q = if j < at {
                    j
                } else {
                    j + 1
                };
                assert(before[p] < before[q]);
            }
            assert forall|k: TrackId| after.contains(k) == (before.contains(k) && k != track) by {
                if before.contains(k) && k != track {
                    let j = choose|j: int| 0 <= j < before.len() && before[j] == k;
                    if j < at {
                        assert(after[j] == k);
                    } else {
                        assert(after[j - 1] == k);
                    }
                }
                if after.contains(k) {
                    let j = choose|j: int| 0 <= j < after.len() && after[j] == k;
                    if j < at {
                        assert(before[j] == k);
                        assert(before[j] < before[at as int]);
                    } else {
                        assert(before[j + 1] == k);
                        assert(before[at as int] < before[j + 1]);
                    }
                }
            }
        }
    }
    assert(tracks@.to_set() =~= toggled(before.to_set(), track, on));
}

/// A muted track is never heard, soloed or not.
pub proof fn mute_wins_over_solo(settings: &MonitorSettings, track: TrackId)
    requires
        settings.muted_tracks@.contains(track),
    ensures
        !settings.heard(track),
{
}

} // verus!
