//! The keyframe index.
use blinkify_engine::keyframes::coverage::Coverage;
use blinkify_engine::keyframes::nal::{classify_length_prefixed, Codec};
use blinkify_engine::keyframes::packet::{parse_packets, Packet};
use blinkify_engine::keyframes::region::{heads, interval, region_command, Head};
use blinkify_engine::keyframes::{
    classify, is_iso_bmff, merge, reached_end, GopKind, IndexError, KeyframeIndex, PictureKind,
    Query, Region, Stored, StreamIndex, VideoTrack, FORMAT_VERSION,
};
use blinkify_engine::playback::plan::{Segment, SourceMedia, VideoStream};
use blinkify_engine::playback::scrub::{scrub_frame, window_start};
use blinkify_engine::preview::seek_point;
use blinkify_engine::probe::Rational;
use std::collections::BTreeMap;

#[test]
fn coverage_merges_overlapping_and_adjacent_ranges() {
    let mut coverage = Coverage::default();
    coverage.add(10, 20);
    coverage.add(30, 40);
    coverage.add(15, 30);
    assert_eq!(coverage.0, vec![(10, 40)]);
    assert!(coverage.contains(39));
    assert!(!coverage.contains(40));
    assert_eq!(coverage.end_of_range(12), Some(40));
}

#[test]
fn what_is_covered_is_counted_up_to_a_limit() {
    let mut coverage = Coverage::default();
    coverage.add(0, 10);
    coverage.add(20, 40);
    assert_eq!(coverage.covered_within(30), 20);
    assert_eq!(coverage.end_of_range(15), None);
    coverage.add(5, 5);
    assert_eq!(coverage.0, vec![(0, 10), (20, 40)]);
}

#[test]
fn packets_parse_from_compact_output() {
    let packets = parse_packets(
        "pts=10752|dts=9728|size=9694|pos=83252|flags=K__\npts=N/A|dts=11|size=1|pos=N/A|flags=___\n",
    );
    assert_eq!(packets.len(), 2);
    assert_eq!(packets[0].pts, Some(10752));
    assert!(packets[0].key);
    assert_eq!(packets[1].pts, None);
    assert_eq!(packets[1].pos, None);
}

#[test]
fn an_idr_with_leading_pictures_is_still_closed() {
    assert_eq!(classify(Some(PictureKind::Idr), true), GopKind::Closed);
    assert_eq!(classify(Some(PictureKind::Cra), true), GopKind::Open);
    assert_eq!(classify(Some(PictureKind::Cra), false), GopKind::Closed);
    assert_eq!(
        classify(Some(PictureKind::RecoveryPoint), true),
        GopKind::Open
    );
    assert_eq!(classify(None, true), GopKind::Open);
    assert_eq!(classify(None, false), GopKind::Closed);
}

fn unit(header: &[u8], body_len: usize) -> Vec<u8> {
    let length = u32::try_from(header.len() + body_len).unwrap_or(0);
    let mut out = length.to_be_bytes().to_vec();
    out.extend_from_slice(header);
    out.extend(std::iter::repeat(0xAB).take(body_len));
    out
}

#[test]
fn h264_idr_after_parameter_sets() {
    // SPS (7), PPS (8), SEI (6), then an IDR slice (5).
    let packet = [
        unit(&[0x67], 20),
        unit(&[0x68], 4),
        unit(&[0x06], 30),
        unit(&[0x65], 100),
    ]
    .concat();
    assert_eq!(
        classify_length_prefixed(Codec::H264, &packet),
        Some(PictureKind::Idr)
    );
}

#[test]
fn h264_non_idr_intra_is_a_recovery_point() {
    let packet = [unit(&[0x06], 10), unit(&[0x41], 100)].concat();
    assert_eq!(
        classify_length_prefixed(Codec::H264, &packet),
        Some(PictureKind::RecoveryPoint)
    );
}

#[test]
fn hevc_idr_cra_and_bla() {
    let hevc = |nal_type: u8| {
        let packet = [unit(&[32 << 1, 1], 10), unit(&[nal_type << 1, 1], 50)].concat();
        classify_length_prefixed(Codec::Hevc, &packet)
    };
    assert_eq!(hevc(19), Some(PictureKind::Idr));
    assert_eq!(hevc(20), Some(PictureKind::Idr));
    assert_eq!(hevc(21), Some(PictureKind::Cra));
    assert_eq!(hevc(17), Some(PictureKind::Bla));
    assert_eq!(hevc(1), None, "a trailing picture is not a keyframe kind");
}

#[test]
fn a_length_past_the_end_is_not_believed() {
    let mut packet = unit(&[0x67], 4);
    packet[0..4].copy_from_slice(&u32::MAX.to_be_bytes());
    assert_eq!(classify_length_prefixed(Codec::H264, &packet), None);
    assert_eq!(classify_length_prefixed(Codec::H264, &[]), None);
    assert_eq!(
        classify_length_prefixed(Codec::H264, &[0, 0, 0, 0, 0x65]),
        None
    );
}

#[test]
fn only_idr_and_bla_close_by_themselves() {
    assert!(PictureKind::Idr.closes_gop());
    assert!(PictureKind::Bla.closes_gop());
    assert!(!PictureKind::Cra.closes_gop());
    assert!(!PictureKind::RecoveryPoint.closes_gop());
}

#[test]
fn only_two_codecs_have_units_to_read() {
    assert_eq!(Codec::from_name(Some("h264")), Some(Codec::H264));
    assert_eq!(Codec::from_name(Some("hevc")), Some(Codec::Hevc));
    assert_eq!(Codec::from_name(Some("av1")), None);
    assert_eq!(Codec::from_name(None), None);
    assert!(is_iso_bmff("mov,mp4,m4a,3gp,3g2,mj2"));
    assert!(!is_iso_bmff("matroska,webm"));
}

fn track(index: u32) -> VideoTrack {
    VideoTrack {
        index,
        time_base: Some(Rational { num: 1, den: 1000 }),
        end: Some(4000),
        is_attached_picture: false,
    }
}

fn packet(pts: i64, key: bool) -> Packet {
    Packet {
        pts: Some(pts),
        dts: Some(pts),
        pos: None,
        size: 10,
        key,
        discard: false,
    }
}

#[test]
fn a_merged_region_answers_and_the_rest_is_unread() {
    let mut index = StreamIndex::new(track(0));
    assert_eq!(index.at_or_before(500), Query::Unread(500));
    let region = Region {
        packets: vec![
            packet(0, true),
            packet(40, false),
            packet(1000, true),
            packet(960, false),
            packet(1040, false),
            packet(2000, true),
            packet(2040, false),
        ],
        reached_end: false,
        limit: 2040,
        margin: 0,
    };
    merge(&mut index, &region, 0, &BTreeMap::new());
    let at = |query: Query<Option<blinkify_engine::keyframes::Keyframe>>| match query {
        Query::Known(found) => found.map(|keyframe| keyframe.pts),
        Query::Unread(_) => panic!("unread"),
    };
    assert_eq!(at(index.at_or_before(999)), Some(0));
    assert_eq!(at(index.at_or_after(1)), Some(1000));
    assert_eq!(index.is_keyframe(1000), Query::Known(true));
    assert_eq!(index.is_keyframe(1040), Query::Known(false));
    assert_eq!(index.frame_at_or_before(1039), Query::Known(Some(1000)));
    assert!(matches!(index.at_or_before(3500), Query::Unread(_)));
    assert!(!index.complete());
    // The picture at 960 is decoded after the keyframe at 1000 and shown before it.
    assert!(index.entries.get(1000).expect("entry").keyframe.has_leading_pictures);
    assert_eq!(
        index.entries.get(1000).expect("entry").keyframe.gop,
        GopKind::Open
    );
    // Nothing comes before the first keyframe: decoding starts there anyway.
    assert_eq!(seek_point(&index, 1500), Query::Known(Some(1000)));
    assert_eq!(seek_point(&index, 999), Query::Known(None));
}

#[test]
fn a_keyframe_behind_an_unread_gap_is_no_answer() {
    let mut index = StreamIndex::new(track(0));
    let first = Region {
        packets: vec![packet(0, true), packet(40, false)],
        reached_end: false,
        limit: 500,
        margin: 0,
    };
    merge(&mut index, &first, 0, &BTreeMap::new());
    let last = Region {
        packets: vec![packet(2000, true), packet(2040, false)],
        reached_end: true,
        limit: 4000,
        margin: 0,
    };
    merge(&mut index, &last, 2000, &BTreeMap::new());
    assert_eq!(index.at_or_after(100), Query::Unread(500));
    assert_eq!(index.frame_after(40), Query::Unread(500));
    assert!(matches!(index.at_or_after(0), Query::Known(Some(key)) if key.pts == 0));
    assert_eq!(index.frame_after(0), Query::Known(Some(40)));
    let between = Region {
        packets: vec![packet(1000, true), packet(1040, false)],
        reached_end: false,
        limit: 2000,
        margin: 0,
    };
    merge(&mut index, &between, 500, &BTreeMap::new());
    assert!(matches!(index.at_or_after(100), Query::Known(Some(key)) if key.pts == 1000));
    assert_eq!(index.frame_after(40), Query::Known(Some(1000)));
    assert_eq!(index.at_or_after(2001), Query::Known(None));
    assert_eq!(index.frame_after(2040), Query::Known(None));
}

#[test]
fn a_region_that_reached_the_end_completes_the_index() {
    let mut index = StreamIndex::new(track(0));
    merge(
        &mut index,
        &Region {
            packets: vec![packet(0, true), packet(3960, false)],
            reached_end: true,
            limit: 10_000,
            margin: 0,
        },
        0,
        &BTreeMap::new(),
    );
    assert!(index.complete());
    assert_eq!(index.next_unread(0), None);
    assert!(reached_end(&vec![packet(3960, false)], Some(4000), 9000, 2000));
}

#[test]
fn an_index_opens_on_its_video_streams() {
    let mut cover = track(1);
    cover.is_attached_picture = true;
    let index = KeyframeIndex::open(&vec![track(0), cover, track(2)], None);
    assert_eq!(index.streams(), vec![0, 2]);
    assert_eq!(index.locate(2), Ok(1));
    assert_eq!(index.locate(1), Err(IndexError::NoSuchStream(1)));
    assert_eq!(index.time_base(2), Ok(Rational { num: 1, den: 1000 }));
    assert_eq!(index.keyframes(0), Ok(Vec::new()));
    assert!(!index.is_complete());
}

#[test]
fn a_stored_index_of_another_version_is_not_used() {
    let stored = |version: u32| {
        let mut stream = StreamIndex::new(track(0));
        stream.frames.insert(7);
        Some(Stored {
            version,
            streams: vec![stream],
        })
    };
    let fresh = KeyframeIndex::open(&vec![track(0)], stored(FORMAT_VERSION - 1));
    assert_eq!(fresh.streams[0].frames.ticks, Vec::<i64>::new());
    let kept = KeyframeIndex::open(&vec![track(0)], stored(FORMAT_VERSION));
    assert_eq!(kept.streams[0].frames.ticks, vec![7]);
}

#[test]
fn a_region_is_listed_and_its_keyframes_are_looked_at() {
    assert_eq!(interval(0, "0.000000", "10.000000"), "%10.000000");
    assert_eq!(interval(500, "0.500000", "10.500000"), "0.500000%10.500000");
    let command = region_command("in.mp4", 3, "%10.000000");
    assert!(command.args.contains(&"%10.000000".to_owned()));
    assert_eq!(
        command.args.last().map(String::as_str),
        Some("file:in.mp4")
    );
    let mut key = packet(40, true);
    key.pos = Some(1_000);
    key.size = 1_000_000;
    let packets = vec![packet(0, true), key, packet(80, false)];
    assert_eq!(
        heads(&packets, Some(Codec::H264), true),
        vec![Head {
            pts: 40,
            pos: 1_000,
            length: 4096
        }]
    );
    assert!(heads(&packets, None, true).is_empty());
    assert!(heads(&packets, Some(Codec::H264), false).is_empty());
}

/// An index of one region, whose frames are known up to tick 2040.
fn read_index() -> StreamIndex {
    let mut index = StreamIndex::new(track(0));
    let region = Region {
        packets: vec![
            packet(0, true),
            packet(40, false),
            packet(1000, true),
            packet(1040, false),
            packet(2000, true),
        ],
        reached_end: false,
        limit: 2040,
        margin: 0,
    };
    merge(&mut index, &region, 0, &BTreeMap::new());
    index
}

fn clip(source_in: i64, source_out: i64, start: i64) -> Segment {
    let source = SourceMedia {
        id: 1,
        video: Some(VideoStream {
            index: 0,
            time_base: Rational { num: 1, den: 1000 },
            rotation: 0,
            average_frame_rate: None,
            base_frame_rate: None,
        }),
        audio: None,
        proxy: false,
    };
    Segment::new(source, source_in, source_out, start)
}

#[test]
fn a_seek_waits_for_what_it_has_to_read() {
    assert_eq!(
        seek_point(&StreamIndex::new(track(0)), 1500),
        Query::Unread(1500)
    );
    assert_eq!(seek_point(&read_index(), 3000), Query::Unread(3000));
    // The keyframe is known, what comes before it is not.
    let mut late = StreamIndex::new(track(0));
    let region = Region {
        packets: vec![packet(2000, true), packet(2040, false)],
        reached_end: false,
        limit: 3000,
        margin: 0,
    };
    merge(&mut late, &region, 2000, &BTreeMap::new());
    assert_eq!(seek_point(&late, 2500), Query::Unread(1999));
    assert_eq!(seek_point(&read_index(), 1500), Query::Known(Some(1000)));
}

#[test]
fn a_position_shows_the_frame_at_or_before_it() {
    let index = read_index();
    let shown = clip(0, 2000, 0);
    assert_eq!(scrub_frame(&index, &shown, 1_039_000), Query::Known(1000));
    assert_eq!(scrub_frame(&index, &shown, 1_041_000), Query::Known(1040));
    // Never past the segment's last tick.
    assert_eq!(scrub_frame(&index, &shown, 9_000_000), Query::Known(1040));
    // Nothing at or before the first tick of a stream that starts late.
    let mut late = StreamIndex::new(track(0));
    let region = Region {
        packets: vec![packet(100, true), packet(140, false)],
        reached_end: true,
        limit: 4000,
        margin: 0,
    };
    merge(&mut late, &region, 0, &BTreeMap::new());
    assert_eq!(scrub_frame(&late, &shown, 0), Query::Known(100));
    assert_eq!(
        scrub_frame(&index, &clip(0, 4000, 0), 3_000_000),
        Query::Unread(3000)
    );
}

#[test]
fn a_stream_without_frames_shows_the_tick_itself() {
    let mut empty = StreamIndex::new(track(0));
    let region = Region {
        packets: Vec::new(),
        reached_end: true,
        limit: 4000,
        margin: 0,
    };
    merge(&mut empty, &region, 0, &BTreeMap::new());
    assert_eq!(
        scrub_frame(&empty, &clip(0, 4000, 0), 1_500_000),
        Query::Known(1500)
    );
}

#[test]
fn a_window_walks_back_frame_by_frame() {
    let index = read_index();
    let whole = clip(0, 2000, 0);
    assert_eq!(window_start(&index, &whole, 1040, 0), Query::Known(1040));
    assert_eq!(window_start(&index, &whole, 1040, 2), Query::Known(40));
    assert_eq!(window_start(&index, &whole, 1040, 9), Query::Known(0));
    // A frame that began before the in point starts with the segment.
    let later = clip(1000, 2000, 0);
    assert_eq!(window_start(&index, &later, 1040, 2), Query::Known(40));
    let mut late = StreamIndex::new(track(0));
    let region = Region {
        packets: vec![packet(2000, true), packet(2040, false)],
        reached_end: false,
        limit: 3000,
        margin: 0,
    };
    merge(&mut late, &region, 2000, &BTreeMap::new());
    assert_eq!(
        window_start(&late, &clip(0, 4000, 0), 2040, 3),
        Query::Unread(1999)
    );
}
