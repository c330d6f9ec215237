//! Parameter sets, seams and the hash boundary.
use blinkify_engine::capability::VideoCodec;
use blinkify_engine::export::plan::{Cause, Media, SeamWindow, Segment};
use blinkify_engine::export::seam::{pieces, Piece, Stitch};
use blinkify_engine::export::sps::{
    av1_sequence, h264, h264_sequence, hevc, hevc_sequence, Bits, Sequence,
};
use blinkify_engine::export::verify::{
    boundary, codec_of, contains, hash, range_of, stream_hashes, Divergence, PacketHash,
    VerifyError,
};
use blinkify_engine::tier::{ExportTier, SeamReason};

/// A real High-profile level 3.0 SPS (x264, 640x360, 4:2:0, 8-bit).
const SPS: [u8; 26] = [
    0x67, 0x64, 0x00, 0x1E, 0xAC, 0xD9, 0x40, 0xA0, 0x2F, 0xF9, 0x70, 0x11, 0x00, 0x00, 0x03, 0x00,
    0x01, 0x00, 0x00, 0x03, 0x00, 0x3C, 0x0F, 0x16, 0x2D, 0x96,
];

#[test]
fn an_sps_reads_the_same_from_a_record_and_from_annex_b() {
    let mut record = vec![1, 0x64, 0, 0x1E, 0xFF, 0xE1, 0, 26];
    record.extend_from_slice(&SPS);
    record.extend_from_slice(&[1, 0, 1, 0x68]);
    let mut stream = vec![0, 0, 0, 1];
    stream.extend_from_slice(&SPS);
    stream.extend_from_slice(&[0, 0, 0, 1, 0x68, 0xEB]);
    let from_record = h264_sequence(&record).expect("record");
    assert_eq!(from_record, h264_sequence(&stream).expect("annex b"));
    assert_eq!(from_record.profile, 100);
    assert_eq!(from_record.level, 30);
    assert_eq!(from_record.chroma, Some(1));
    assert_eq!(from_record.bit_depth, Some(8));
}

#[test]
fn a_truncated_record_is_none_not_a_panic() {
    for cut in 0..SPS.len() {
        let _ = h264(&SPS[..cut]);
        let _ = hevc(&SPS[..cut]);
        let _ = av1_sequence(&SPS[..cut]);
        let _ = hevc_sequence(&SPS[..cut]);
    }
    assert_eq!(h264_sequence(&[]), None);
}

#[test]
fn emulation_prevention_bytes_are_removed() {
    let bits = Bits::new(&[0, 0, 3, 1, 0, 0, 3, 0]);
    assert_eq!(bits.bytes, vec![0, 0, 1, 0, 0, 0]);
}

#[test]
fn an_av1_record_states_profile_and_level() {
    assert_eq!(
        av1_sequence(&[0x81, 0x28, 0, 0]),
        Some(Sequence {
            profile: 1,
            level: 8,
            chroma: None,
            bit_depth: None
        })
    );
    // A sequence header OBU with a size field: a full header, no timing.
    assert_eq!(
        av1_sequence(&[0x0A, 0x04, 0x00, 0x00, 0x00, 0x40]),
        Some(Sequence {
            profile: 0,
            level: 8,
            chroma: None,
            bit_depth: None
        })
    );
    assert_eq!(av1_sequence(&[0x12, 0x00]), None);
    assert_eq!(av1_sequence(&[]), None);
}

/// A High 3.0 `avcC`: one SPS, one PPS, four-byte lengths.
const AVCC: [u8; 47] = [
    0x01, 0x64, 0x00, 0x1E, 0xFF, 0xE1, 0x00, 0x1A, 0x67, 0x64, 0x00, 0x1E, 0xAC, 0xD9, 0x40, 0xA0,
    0x2F, 0xF9, 0x70, 0x11, 0x00, 0x00, 0x03, 0x00, 0x01, 0x00, 0x00, 0x03, 0x00, 0x3C, 0x0F, 0x16,
    0x2D, 0x96, 0x01, 0x00, 0x06, 0x68, 0xEB, 0xE3, 0xCB, 0x22, 0xC0, 0xFD, 0xF8, 0xF8, 0x00,
];

fn segment(causes: Vec<Cause>, windows: Vec<SeamWindow>) -> Segment {
    Segment {
        media: Media::Video,
        start: 0,
        length: 100,
        sources: Vec::new(),
        tier: ExportTier::SmartCut {
            reason: SeamReason::InPointNotKeyframeAligned,
        },
        causes,
        windows,
        decline: None,
        alternative: None,
        encoder: None,
    }
}

#[test]
fn a_clip_is_recoded_to_its_first_keyframe_and_copied_from_there() {
    let head = segment(
        vec![Cause::InPointNotKeyframe {
            keyframe_before: Some(0),
            keyframe_after: Some(30),
        }],
        vec![SeamWindow { from: 12, to: 30 }],
    );
    assert_eq!(
        pieces(&head, 12, 90),
        vec![
            Piece::Recode { from: 12, to: 30 },
            Piece::Remux {
                from: 30,
                to: 90,
                leading: false
            }
        ]
    );
}

#[test]
fn both_ends_off_keyframes_recode_both_windows() {
    let both = segment(
        vec![
            Cause::InPointNotKeyframe {
                keyframe_before: Some(0),
                keyframe_after: Some(30),
            },
            Cause::OutPointNotKeyframe {
                keyframe_before: Some(60),
                keyframe_after: Some(90),
            },
        ],
        vec![
            SeamWindow { from: 12, to: 30 },
            SeamWindow { from: 60, to: 75 },
        ],
    );
    assert_eq!(
        pieces(&both, 12, 75),
        vec![
            Piece::Recode { from: 12, to: 30 },
            Piece::Remux {
                from: 30,
                to: 60,
                leading: true
            },
            Piece::Recode { from: 60, to: 75 },
        ]
    );
}

#[test]
fn a_clip_inside_one_gop_is_recoded_whole() {
    let inside = segment(
        vec![
            Cause::InPointNotKeyframe {
                keyframe_before: Some(0),
                keyframe_after: Some(30),
            },
            Cause::OutPointNotKeyframe {
                keyframe_before: Some(0),
                keyframe_after: Some(30),
            },
        ],
        vec![SeamWindow { from: 5, to: 20 }],
    );
    assert_eq!(
        pieces(&inside, 5, 20),
        vec![Piece::Recode { from: 5, to: 20 }]
    );
}

#[test]
fn the_source_sets_come_back_before_the_first_copied_keyframe_after_a_seam() {
    let mut stitch = Stitch::new(VideoCodec::H264, &AVCC);
    // A copied packet before any seam is untouched.
    let slice = vec![0, 0, 0, 3, 0x65, 0x88, 0x84];
    assert_eq!(stitch.copied(slice.clone(), true), slice);
    // The seam, from an encoder writing Annex B with its own parameter sets, is
    // framed with four-byte lengths and carries its sets first.
    let seam_sets = [
        0, 0, 0, 1, 0x67, 0x64, 0x00, 0x1E, 0xAA, 0, 0, 0, 1, 0x68, 0xCE,
    ];
    stitch.begin_seam(&seam_sets);
    let seam = stitch.seam(&[0, 0, 0, 1, 0x65, 0x11, 0x22]);
    assert_eq!(
        seam,
        vec![
            0, 0, 0, 5, 0x67, 0x64, 0x00, 0x1E, 0xAA, 0, 0, 0, 2, 0x68, 0xCE, 0, 0, 0, 3, 0x65,
            0x11, 0x22
        ]
    );
    assert_eq!(
        stitch.seam(&[0, 0, 1, 0x41, 0x9A]),
        vec![0, 0, 0, 2, 0x41, 0x9A]
    );
    // A copied non-keyframe cannot follow a seam in a valid plan, but is passed
    // through untouched if it does; the keyframe gets the sets.
    let after = stitch.copied(slice.clone(), true);
    assert_eq!(&after[..4], &[0, 0, 0, 26]);
    assert_eq!(&after[4..30], &AVCC[8..34]);
    assert_eq!(&after[30..34], &[0, 0, 0, 6]);
    assert!(after.ends_with(&slice));
    // Only once.
    assert_eq!(stitch.copied(slice.clone(), true), slice);
    assert!(stitch.stitched());
}

#[test]
fn sets_sent_again_leave_the_hash_as_it_was() {
    let mut stitch = Stitch::new(VideoCodec::H264, &AVCC);
    stitch.begin_seam(&AVCC);
    let _ = stitch.seam(&[0, 0, 0, 1, 0x65, 0x11]);
    let slice = vec![0, 0, 0, 3, 0x65, 0x88, 0x84];
    let sent = stitch.copied(slice.clone(), true);
    assert_ne!(sent, slice);
    let codec = Some(VideoCodec::H264);
    assert_eq!(
        hash(codec, Some(4), &sent),
        hash(codec, Some(4), &slice)
    );
}

#[test]
fn sets_sent_again_behind_start_codes_leave_the_hash_as_it_was() {
    let sets = [0, 0, 0, 1, 0x67, 0x64, 0x00, 0x1E, 0xAC, 0, 0, 0, 1, 0x68, 0xEB];
    let mut stitch = Stitch::new(VideoCodec::H264, &sets);
    stitch.begin_seam(&sets);
    let _ = stitch.seam(&[0, 0, 0, 1, 0x65, 0x11]);
    let slice = vec![0, 0, 0, 1, 0x65, 0x88, 0x84];
    let sent = stitch.copied(slice.clone(), true);
    assert!(sent.len() > slice.len() && sent.ends_with(&slice));
    let codec = Some(VideoCodec::H264);
    assert_eq!(hash(codec, None, &sent), hash(codec, None, &slice));
    assert_ne!(hash(None, None, &sent), hash(None, None, &slice));
}

#[test]
fn headers_sent_again_leave_the_hash_as_it_was() {
    let record = [0x81, 0x08, 0, 0, 0x0A, 0x03, 0x00, 0x00, 0x40];
    let mut stitch = Stitch::new(VideoCodec::Av1, &record);
    stitch.begin_seam(&record);
    let _ = stitch.seam(&[0x32, 0x01, 0x55]);
    let frame = vec![0x32, 0x02, 0x11, 0x22];
    let sent = stitch.copied(frame.clone(), true);
    assert_eq!(sent, vec![0x0A, 0x03, 0x00, 0x00, 0x40, 0x32, 0x02, 0x11, 0x22]);
    let codec = Some(VideoCodec::Av1);
    assert_eq!(hash(codec, None, &sent), hash(codec, None, &frame));
}

#[test]
fn parameter_sets_are_outside_the_boundary_and_pictures_inside() {
    let slice = [0, 0, 0, 3, 0x65, 0x88, 0x84];
    let mut with_sets = vec![0, 0, 0, 2, 0x67, 0x64, 0, 0, 0, 2, 0x68, 0xEB];
    with_sets.extend_from_slice(&slice);
    let h264 = Some(VideoCodec::H264);
    assert_eq!(hash(h264, Some(4), &slice), hash(h264, Some(4), &with_sets));
    let mut changed = slice;
    changed[6] ^= 1;
    assert_ne!(hash(h264, Some(4), &slice), hash(h264, Some(4), &changed));
}

#[test]
fn a_run_is_found_and_a_changed_packet_is_named() {
    let packet = |n: u8| PacketHash {
        micros: i64::from(n),
        key: n == 0,
        sha256: [n; 32],
    };
    let output: Vec<PacketHash> = (0..6).map(packet).collect();
    assert_eq!(contains(&output, &[[2; 32], [3; 32], [4; 32]]), Ok(()));
    assert_eq!(
        contains(&output, &[[2; 32], [9; 32]]),
        Err(Divergence::Differs { index: 1 })
    );
    assert_eq!(
        contains(&output, &[[5; 32], [6; 32]]),
        Err(Divergence::Short { missing: 1 })
    );
    assert_eq!(contains(&output, &[[7; 32]]), Err(Divergence::Missing));
}

#[test]
fn a_run_is_found_behind_a_packet_like_its_first() {
    let packet = |of: u8| PacketHash {
        micros: 0,
        key: false,
        sha256: [of; 32],
    };
    let output = [packet(1), packet(2), packet(1), packet(3)];
    assert_eq!(contains(&output, &[[1; 32], [3; 32]]), Ok(()));
    assert_eq!(
        contains(&output, &[[1; 32], [2; 32], [3; 32]]),
        Err(Divergence::Differs { index: 2 })
    );
    assert_eq!(
        contains(&output, &[[3; 32], [1; 32]]),
        Err(Divergence::Short { missing: 1 })
    );
    assert_eq!(contains(&output, &[]), Ok(()));
}

#[test]
fn a_range_runs_from_its_keyframe_to_the_one_that_ends_it() {
    let packet = |micros: i64, key: bool| PacketHash {
        micros,
        key,
        sha256: [micros as u8; 32],
    };
    // An open group: the picture at 95 is decoded after the keyframe at 100.
    let source = [
        packet(0, true),
        packet(40, false),
        packet(100, true),
        packet(95, false),
        packet(140, false),
        packet(200, true),
    ];
    assert_eq!(
        range_of(&source, 100, 200),
        Ok(vec![[100; 32], [140; 32]])
    );
    assert_eq!(range_of(&source, 0, 100), Ok(vec![[0; 32], [40; 32]]));
    assert_eq!(range_of(&source, 50, 100), Err(Divergence::NoKeyframe));
}

#[test]
fn the_hash_is_the_sha_256_of_what_is_inside() {
    // The digest of "abc".
    let expected = [
        0xba, 0x78, 0x16, 0xbf, 0x8f, 0x01, 0xcf, 0xea, 0x41, 0x41, 0x40, 0xde, 0x5d, 0xae, 0x22,
        0x23, 0xb0, 0x03, 0x61, 0xa3, 0x96, 0x17, 0x7a, 0x9c, 0xb4, 0x10, 0xff, 0x61, 0xf2, 0x00,
        0x15, 0xad,
    ];
    assert_eq!(hash(None, None, b"abc"), expected);
    assert_eq!(boundary(None, None, b"abc"), b"abc".to_vec());
    // Annex B: the SPS out, the slice in, behind its length.
    assert_eq!(
        boundary(
            Some(VideoCodec::H264),
            None,
            &[0, 0, 1, 0x67, 0x64, 0, 0, 1, 0x65, 0x88]
        ),
        vec![0, 0, 0, 0, 0, 0, 0, 2, 0x65, 0x88]
    );
    // AV1: the delimiter and the sequence header out, the frame in.
    assert_eq!(
        boundary(
            Some(VideoCodec::Av1),
            None,
            &[0x12, 0x00, 0x0A, 0x01, 0x55, 0x32, 0x02, 0x01, 0x02]
        ),
        vec![0x32, 0x02, 0x01, 0x02]
    );
}

#[test]
fn codes_name_their_codecs() {
    assert_eq!(codec_of(b"avc1"), Some(VideoCodec::H264));
    assert_eq!(codec_of(b"hev1"), Some(VideoCodec::Hevc));
    assert_eq!(codec_of(b"AV01"), Some(VideoCodec::Av1));
    assert_eq!(codec_of(b"mp4a"), None);
}

#[test]
fn a_stream_that_cannot_be_read_is_an_error() {
    match stream_hashes(vec![1, 2, 3], "v:0") {
        Err(VerifyError::Nut(_)) => {}
        other => panic!("{other:?}"),
    }
}

#[test]
fn divergences_read_plainly() {
    assert_eq!(
        Divergence::Differs { index: 7 }.message(),
        "packet 7 of the range differs from the source's"
    );
    assert_eq!(
        Divergence::Short { missing: 2 }.message(),
        "the output ends 2 packets before the range does"
    );
}

#[test]
fn an_hevc_set_reads_the_same_from_a_record_and_from_annex_b() {
    let mut unit = vec![0x42, 0x01, 0x01, 0x01];
    unit.extend_from_slice(&[0x60; 10]);
    // Level 3.1; then the set's id, 4:2:0, the dimensions, no window, 8 bits.
    unit.extend_from_slice(&[93, 0xAD]);
    let expected = Some(Sequence {
        profile: 1,
        level: 93,
        chroma: Some(1),
        bit_depth: Some(8),
    });
    for zeros in [0, 1] {
        unit.extend(vec![0; zeros]);
        let mut record = vec![1];
        record.extend_from_slice(&[0x60; 21]);
        record.extend_from_slice(&[1, 33, 0, 1, 0, unit.len() as u8]);
        record.extend_from_slice(&unit);
        let mut stream = vec![0, 0, 0, 1];
        stream.extend_from_slice(&unit);
        assert_eq!(hevc_sequence(&record), expected);
        assert_eq!(hevc_sequence(&stream), expected);
    }
}
