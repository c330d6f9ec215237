//! Matching a re-encode to its source.
use blinkify_engine::capability::{
    Chroma, CodecCapability, EncoderCapabilities, EncoderCapability, EncoderSource,
    ProfileCapability, VideoCodec,
};
use blinkify_engine::export::profile::{
    level_number, max_kilobits, profile_name, select, source_profile, validate_join, JoinMismatch,
    SourceProfile, Unmatched,
};
use blinkify_engine::probe::{
    ChromaSubsampling, ColorInfo, Rational, StreamInfo, StreamKind, VideoInfo,
};

fn source(codec: VideoCodec, profile: &str, bit_depth: u8, level: Option<i32>) -> SourceProfile {
    SourceProfile {
        codec,
        profile: profile.to_owned(),
        level,
        pixel_format: if bit_depth == 10 {
            "yuv420p10le".to_owned()
        } else {
            "yuv420p".to_owned()
        },
        bit_depth,
        width: 1920,
        height: 1080,
        colour: [Some("bt709".to_owned()), None, None, Some("tv".to_owned())],
        time_base: Rational {
            num: 1,
            den: 90_000,
        },
    }
}

fn capability(profile: &str, pixel_format: &str, bit_depth: u8, level: &str) -> ProfileCapability {
    ProfileCapability {
        profile: profile.to_owned(),
        pixel_format: pixel_format.to_owned(),
        bit_depth,
        chroma: Chroma::Yuv420,
        max_level: Some(level.to_owned()),
    }
}

fn machine(h264: Vec<EncoderCapability>, hevc: Vec<EncoderCapability>) -> EncoderCapabilities {
    let entry = |codec, encoders| CodecCapability { codec, encoders };
    EncoderCapabilities {
        codecs: vec![
            entry(VideoCodec::H264, h264),
            entry(VideoCodec::Hevc, hevc),
            entry(VideoCodec::Vp9, Vec::new()),
            entry(VideoCodec::Av1, Vec::new()),
        ],
    }
}

fn nvidia() -> EncoderCapabilities {
    machine(
        vec![EncoderCapability {
            encoder: "h264_nvenc".to_owned(),
            source: EncoderSource::Nvidia,
            profiles: vec![
                capability("main", "yuv420p", 8, "6.2"),
                capability("high", "yuv420p", 8, "6.2"),
            ],
        }],
        vec![EncoderCapability {
            encoder: "hevc_nvenc".to_owned(),
            source: EncoderSource::Nvidia,
            profiles: vec![capability("main", "yuv420p", 8, "5.1")],
        }],
    )
}

#[test]
fn a_high_profile_source_gets_the_hardware_encoder_that_makes_high() {
    let choice =
        select(&source(VideoCodec::H264, "high", 8, Some(41)), &nvidia()).expect("an encoder");
    assert_eq!(choice.encoder, "h264_nvenc");
    let arguments = choice.arguments(VideoCodec::H264);
    assert!(arguments.contains(&("-profile:v", "high".to_owned())));
    assert!(arguments.contains(&("-level:v", "41".to_owned())));
    assert!(arguments.contains(&("-color_primaries", "bt709".to_owned())));
    assert!(arguments.contains(&("-color_range", "tv".to_owned())));
}

#[test]
fn with_no_hardware_hevc_encoder_hevc_is_refused_not_substituted() {
    let software_only = machine(Vec::new(), Vec::new());
    assert_eq!(
        select(
            &source(VideoCodec::Hevc, "main", 8, Some(120)),
            &software_only
        ),
        Err(Unmatched::NoEncoder {
            codec: VideoCodec::Hevc
        })
    );
}

#[test]
fn a_ten_bit_source_is_never_given_an_eight_bit_encoder() {
    assert_eq!(
        select(
            &source(VideoCodec::Hevc, "main10", 10, Some(120)),
            &nvidia()
        ),
        Err(Unmatched::Profile {
            codec: VideoCodec::Hevc,
            profile: "main10".to_owned()
        })
    );
    // The same profile name at the wrong depth is a bit-depth refusal.
    let mut odd = nvidia();
    odd.codecs[1].encoders[0].profiles[0].profile = "main10".to_owned();
    assert_eq!(
        select(&source(VideoCodec::Hevc, "main10", 10, Some(120)), &odd),
        Err(Unmatched::BitDepth {
            codec: VideoCodec::Hevc,
            bit_depth: 10
        })
    );
}

#[test]
fn a_level_above_every_encoders_ceiling_is_refused() {
    // HEVC 6.1 is 183; the encoder reaches 5.1 (153).
    assert_eq!(
        select(&source(VideoCodec::Hevc, "main", 8, Some(183)), &nvidia()),
        Err(Unmatched::Level {
            codec: VideoCodec::Hevc,
            level: 183
        })
    );
    assert!(select(&source(VideoCodec::Hevc, "main", 8, Some(153)), &nvidia()).is_ok());
}

#[test]
fn a_baseline_source_has_no_match_among_main_and_high() {
    assert_eq!(
        select(
            &source(VideoCodec::H264, "constrained-baseline", 8, Some(30)),
            &nvidia()
        ),
        Err(Unmatched::Profile {
            codec: VideoCodec::H264,
            profile: "constrained-baseline".to_owned()
        })
    );
}

#[test]
fn the_next_qualifying_encoder_is_used_when_the_first_cannot() {
    let mut two = nvidia();
    two.codecs[0].encoders.push(EncoderCapability {
        encoder: "h264_qsv".to_owned(),
        source: EncoderSource::Intel,
        profiles: vec![capability("high10", "yuv420p10le", 10, "5.1")],
    });
    let choice = select(&source(VideoCodec::H264, "high10", 10, Some(41)), &two).expect("qsv");
    assert_eq!(choice.encoder, "h264_qsv");
    assert_eq!(choice.pixel_format, "yuv420p10le");
}

/// A real High 3.0 SPS as an `avcC`, with its profile and level bytes replaced.
fn record(profile: u8, level: u8) -> Vec<u8> {
    let mut record = vec![
        0x01, 0x64, 0x00, 0x1E, 0xFF, 0xE1, 0x00, 0x1A, 0x67, 0x64, 0x00, 0x1E, 0xAC, 0xD9, 0x40,
        0xA0, 0x2F, 0xF9, 0x70, 0x11, 0x00, 0x00, 0x03, 0x00, 0x01, 0x00, 0x00, 0x03, 0x00, 0x3C,
        0x0F, 0x16, 0x2D, 0x96, 0x01, 0x00, 0x06, 0x68, 0xEB, 0xE3, 0xCB, 0x22, 0xC0, 0xFD, 0xF8,
        0xF8, 0x00,
    ];
    record[9] = profile;
    record[11] = level;
    record
}

#[test]
fn a_join_is_refused_on_the_first_field_that_differs() {
    let source = record(100, 30);
    assert_eq!(
        validate_join(VideoCodec::H264, &source, &record(100, 30)),
        Ok(())
    );
    assert_eq!(
        validate_join(VideoCodec::H264, &source, &record(100, 21)),
        Ok(())
    );
    assert_eq!(
        validate_join(VideoCodec::H264, &source, &record(100, 31)),
        Err(JoinMismatch::Level)
    );
    // Main profile: a different profile, and no chroma or depth fields.
    assert_eq!(
        validate_join(VideoCodec::H264, &source, &record(77, 30)),
        Err(JoinMismatch::Profile)
    );
    assert_eq!(
        validate_join(VideoCodec::H264, &source, &[1, 2]),
        Err(JoinMismatch::Unreadable)
    );
    // The same parameter sets in Annex B form, as an encoder writes them.
    let mut annex_b = vec![0, 0, 0, 1];
    annex_b.extend_from_slice(&source[8..34]);
    assert_eq!(validate_join(VideoCodec::H264, &source, &annex_b), Ok(()));
}

#[test]
fn vp9_has_no_configuration_to_disagree_on() {
    assert_eq!(validate_join(VideoCodec::Vp9, &[], &[1, 2, 3]), Ok(()));
}

#[test]
fn level_labels_read_as_their_codec_numbers_them() {
    assert_eq!(level_number(VideoCodec::H264, "4.1"), Some(41));
    assert_eq!(level_number(VideoCodec::Hevc, "5.1"), Some(153));
    assert_eq!(level_number(VideoCodec::Av1, "5.1"), None);
    assert_eq!(level_number(VideoCodec::H264, "41"), None);
    assert_eq!(level_number(VideoCodec::H264, "x.1"), None);
}

#[test]
fn profiles_take_the_names_of_the_capabilities() {
    assert_eq!(profile_name(VideoCodec::H264, "High"), "high");
    assert_eq!(profile_name(VideoCodec::H264, "High 10"), "high10");
    assert_eq!(profile_name(VideoCodec::Hevc, "Main 10"), "main10");
    assert_eq!(profile_name(VideoCodec::Vp9, "Profile 0"), "0");
    assert_eq!(
        profile_name(VideoCodec::H264, "Constrained Baseline"),
        "constrained-baseline"
    );
}

#[test]
fn a_ceiling_holds_back_a_tenth() {
    assert_eq!(max_kilobits(VideoCodec::H264, "high", 41), Some(56_250));
    assert_eq!(max_kilobits(VideoCodec::H264, "main", 41), Some(45_000));
    assert_eq!(max_kilobits(VideoCodec::H264, "high10", 30), Some(27_000));
    assert_eq!(max_kilobits(VideoCodec::Hevc, "main", 153), Some(36_000));
    assert_eq!(max_kilobits(VideoCodec::H264, "main", 13), Some(691));
    assert_eq!(max_kilobits(VideoCodec::H264, "main", 20), Some(1_800));
    assert_eq!(max_kilobits(VideoCodec::H264, "main", 61), Some(432_000));
    assert_eq!(max_kilobits(VideoCodec::H264, "high", 62), Some(900_000));
    assert_eq!(max_kilobits(VideoCodec::H264, "high", 99), None);
}

#[test]
fn an_encoder_is_asked_for_exactly_the_source() {
    let choice = select(&source(VideoCodec::H264, "high", 8, Some(41)), &nvidia()).expect("nvenc");
    let arguments = choice.arguments(VideoCodec::H264);
    let expected = [
        ("-c:v", "h264_nvenc"),
        ("-pix_fmt", "yuv420p"),
        ("-profile:v", "high"),
        ("-level:v", "41"),
        ("-preset", "p7"),
        ("-rc", "vbr"),
        ("-cq", "16"),
        ("-b:v", "0"),
        ("-maxrate", "56250k"),
        ("-bufsize", "56250k"),
        ("-color_primaries", "bt709"),
        ("-color_range", "tv"),
    ];
    assert_eq!(arguments.len(), expected.len());
    for (argument, (name, value)) in arguments.iter().zip(expected) {
        assert_eq!(argument.0, name);
        assert_eq!(argument.1, value);
    }
}

fn stream() -> StreamInfo {
    StreamInfo {
        index: 0,
        is_default: true,
        codec: Some("h264".to_owned()),
        profile: Some("High".to_owned()),
        level: Some(41),
        time_base: Some(Rational { num: 1, den: 90_000 }),
        extradata_hash: None,
        end: None,
        kilobits: None,
        kind: StreamKind::Video(VideoInfo {
            width: 1920,
            height: 1080,
            pixel_format: Some("yuv420p".to_owned()),
            bit_depth: None,
            chroma_subsampling: Some(ChromaSubsampling::Yuv420),
            field_order: Some("progressive".to_owned()),
            hdr: false,
            color: ColorInfo {
                primaries: Some("bt709".to_owned()),
                transfer: Some("unknown".to_owned()),
                matrix: None,
                range: Some("tv".to_owned()),
            },
            average_frame_rate: None,
            base_frame_rate: None,
            geometry: None,
            rotation: 0,
            has_b_frames: true,
            is_attached_picture: false,
        }),
    }
}

fn picture(stream: &mut StreamInfo) -> &mut VideoInfo {
    match &mut stream.kind {
        StreamKind::Video(video) => video,
        _ => unreachable!("a stream of pictures"),
    }
}

#[test]
fn a_stream_that_no_encoder_could_match_says_why() {
    let profile = source_profile(&stream()).expect("a profile");
    assert_eq!(profile.profile, "high");
    assert_eq!(profile.bit_depth, 8);
    assert_eq!(
        profile.colour,
        [Some("bt709".to_owned()), None, None, Some("tv".to_owned())]
    );

    let mut ten = stream();
    picture(&mut ten).pixel_format = Some("yuv420p10le".to_owned());
    assert_eq!(source_profile(&ten).expect("a profile").bit_depth, 10);

    let mut hdr = stream();
    picture(&mut hdr).hdr = true;
    assert_eq!(source_profile(&hdr), Err(Unmatched::Hdr));

    let mut interlaced = stream();
    picture(&mut interlaced).field_order = Some("tt".to_owned());
    assert_eq!(source_profile(&interlaced), Err(Unmatched::Interlaced));

    let mut chroma = stream();
    picture(&mut chroma).chroma_subsampling = Some(ChromaSubsampling::Yuv422);
    assert_eq!(source_profile(&chroma), Err(Unmatched::Chroma));

    let mut codec = stream();
    codec.codec = Some("prores".to_owned());
    assert_eq!(
        source_profile(&codec),
        Err(Unmatched::Codec {
            codec: "prores".to_owned()
        })
    );

    let mut other = stream();
    other.kind = StreamKind::Other;
    assert_eq!(
        source_profile(&other),
        Err(Unmatched::Codec {
            codec: "h264".to_owned()
        })
    );
}

#[test]
fn refusals_read_plainly() {
    assert_eq!(
        Unmatched::BitDepth {
            codec: VideoCodec::Hevc,
            bit_depth: 10
        }
        .message(),
        "no encoder on this computer makes 10-bit Hevc"
    );
    assert_eq!(
        Unmatched::Level {
            codec: VideoCodec::H264,
            level: 62
        }
        .message(),
        "no encoder on this computer reaches level 62 of H264"
    );
    assert_eq!(JoinMismatch::Chroma.message(), "the chroma format differs");
}
