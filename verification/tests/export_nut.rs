//! The NUT reader and writer.
use blinkify_engine::export::nut::cursor::trim_nulls;
use blinkify_engine::export::nut::number::{crc, put_s, put_v};
use blinkify_engine::export::nut::read::Reader;
use blinkify_engine::export::nut::write::Writer;
use blinkify_engine::export::nut::{
    Bytes, Chapter, Class, Fault, Header, NutError, Packet, StreamHeader,
};
use blinkify_engine::probe::Rational;

fn header() -> Header {
    Header {
        streams: vec![
            StreamHeader {
                class: Class::Video,
                fourcc: b"H264".to_vec(),
                time_base: Rational {
                    num: 1,
                    den: 61_440,
                },
                msb_pts_shift: 7,
                max_pts_distance: 61_440,
                decode_delay: 2,
                flags: 0,
                extradata: vec![1, 100, 0, 31, 0xFF],
                video: Some([1920, 1080, 1, 1, 0]),
                audio: None,
                metadata: vec![("language".to_owned(), "aze".to_owned())],
            },
            StreamHeader {
                class: Class::Audio,
                fourcc: vec![0xFF, 0x00],
                time_base: Rational {
                    num: 1,
                    den: 48_000,
                },
                msb_pts_shift: 14,
                max_pts_distance: 48_000,
                decode_delay: 0,
                flags: 0,
                extradata: vec![0x11, 0x90],
                video: None,
                audio: Some([48_000, 1, 2]),
                metadata: Vec::new(),
            },
        ],
        metadata: vec![(
            "creation_time".to_owned(),
            "2026-09-25T10:00:00.000000Z".to_owned(),
        )],
        chapters: vec![Chapter {
            time_base: Rational { num: 1, den: 1000 },
            start: 2000,
            length: 1500,
            metadata: vec![("title".to_owned(), "Middle".to_owned())],
        }],
    }
}

#[test]
fn numbers_round_trip_through_their_encodings() {
    for value in [
        0,
        1,
        127,
        128,
        16_383,
        16_384,
        u64::from(u32::MAX),
        u64::MAX,
    ] {
        let mut out = Vec::new();
        put_v(&mut out, value);
        assert_eq!(Bytes::new(&out).v().expect("v"), value, "{value}");
    }
    for value in [0, 1, -1, 63, -64, 1 << 40, -(1 << 40)] {
        let mut out = Vec::new();
        put_s(&mut out, value);
        assert_eq!(Bytes::new(&out).s().expect("s"), value, "{value}");
    }
}

#[test]
fn numbers_take_seven_bits_a_byte() {
    let mut out = Vec::new();
    put_v(&mut out, 300);
    assert_eq!(out, vec![0x82, 0x2C]);
    let mut out = Vec::new();
    put_s(&mut out, -1);
    assert_eq!(out, vec![2]);
}

#[test]
fn the_checksum_of_data_with_its_checksum_appended_is_zero() {
    let data = b"nut/multimedia container";
    let mut with = data.to_vec();
    with.extend_from_slice(&crc(0, data).to_be_bytes());
    assert_eq!(crc(0, &with), 0);
    assert_ne!(crc(0, data), 0);
}

#[test]
fn the_checksum_is_the_unreflected_one() {
    assert_eq!(crc(0, &[1]), 0x04C1_1DB7);
    assert_eq!(crc(0, &[0x80]), 0x690C_E0EE);
}

#[test]
fn what_the_writer_writes_the_reader_reads_back_exactly() {
    let header = header();
    let packets = vec![
        Packet {
            stream: 0,
            pts: 614_400,
            key: true,
            data: vec![0, 0, 1, 0x65, 1, 2, 3],
        },
        Packet {
            stream: 1,
            pts: 480_000,
            key: true,
            data: vec![0x21; 300],
        },
        Packet {
            stream: 0,
            pts: 620_544,
            key: false,
            data: vec![7; 9000],
        },
        Packet {
            stream: 0,
            pts: 616_448,
            key: false,
            data: Vec::new(),
        },
    ];
    let mut writer = Writer::new(Vec::new(), &header).expect("writer");
    for packet in &packets {
        writer.write(packet).expect("write");
    }
    let bytes = writer.finish();
    let mut reader = Reader::open(bytes).expect("open");
    assert_eq!(reader.header(), &header);
    let mut read = Vec::new();
    while let Some(packet) = reader.next_packet().expect("packet") {
        read.push(packet);
    }
    assert_eq!(read, packets);
}

#[test]
fn a_stream_can_be_written_and_read_in_parts() {
    let packet = |pts| Packet {
        stream: 1,
        pts,
        key: true,
        data: vec![1, 2, 3],
    };
    let mut writer = Writer::new(Vec::new(), &header()).expect("writer");
    let headers = writer.take();
    writer.write(&packet(96_000)).expect("write");
    let first = writer.take();
    // Where the headers end shows only in what follows them.
    assert!(matches!(
        Reader::open(headers.clone()),
        Err(NutError::NoHeaders)
    ));
    let mut reader = Reader::open([headers, first].concat()).expect("open");
    assert_eq!(reader.next_packet(), Ok(Some(packet(96_000))));
    assert_eq!(reader.next_packet(), Ok(None));
    writer.write(&packet(97_000)).expect("write");
    reader.feed(&writer.take());
    assert_eq!(reader.next_packet(), Ok(Some(packet(97_000))));
    assert_eq!(reader.next_packet(), Ok(None));
}

#[test]
fn a_corrupted_stream_is_an_error_not_a_panic() {
    let mut writer = Writer::new(Vec::new(), &header()).expect("writer");
    writer
        .write(&Packet {
            stream: 0,
            pts: 1,
            key: true,
            data: vec![9; 64],
        })
        .expect("write");
    let bytes = writer.finish();
    for cut in 0..bytes.len() {
        // Every truncation, and every single flipped byte, either reads or
        // fails; none may panic or allocate without bound.
        let _ = Reader::open(bytes[..cut].to_vec())
            .map(|mut r| while let Ok(Some(_)) = r.next_packet() {});
        let mut flipped = bytes.clone();
        flipped[cut] ^= 0x5A;
        let _ = Reader::open(flipped).map(|mut r| while let Ok(Some(_)) = r.next_packet() {});
    }
    assert!(matches!(
        Reader::open(b"not a nut stream".to_vec()),
        Err(NutError::NoHeaders)
    ));
}

#[test]
fn a_stream_cut_off_gives_the_first_packets() {
    let packets: Vec<Packet> = (0..3)
        .map(|n| Packet {
            stream: n % 2,
            pts: 100 * n as i64,
            key: n == 0,
            data: vec![n as u8; 20],
        })
        .collect();
    let mut writer = Writer::new(Vec::new(), &header()).expect("writer");
    for packet in &packets {
        writer.write(packet).expect("write");
    }
    let bytes = writer.finish();
    let mut most = 0;
    for cut in 0..=bytes.len() {
        if let Ok(mut reader) = Reader::open(bytes[..cut].to_vec()) {
            let mut read = Vec::new();
            while let Ok(Some(packet)) = reader.next_packet() {
                read.push(packet);
            }
            assert!(read.len() >= most && read.len() <= packets.len());
            assert_eq!(read[..], packets[..read.len()]);
            most = read.len();
        }
    }
    assert_eq!(most, packets.len());
}

#[test]
fn packets_come_back_behind_a_header_whose_texts_do_not() {
    let mut changed = header();
    changed.metadata.push(("title".to_owned(), "a\0\0".to_owned()));
    let packet = Packet {
        stream: 1,
        pts: 7,
        key: true,
        data: vec![1, 2, 3],
    };
    let mut writer = Writer::new(Vec::new(), &changed).expect("writer");
    writer.write(&packet).expect("write");
    let mut reader = Reader::open(writer.finish()).expect("open");
    assert_eq!(reader.header().metadata[1].1, "a");
    assert_eq!(reader.next_packet(), Ok(Some(packet)));
    assert_eq!(reader.next_packet(), Ok(None));
}

#[test]
fn a_checksum_is_continued_over_parts() {
    let whole = [1, 2, 3, 4, 5];
    assert_eq!(crc(crc(0, &whole[..2]), &whole[2..]), crc(0, &whole));
}

#[test]
fn a_negative_timestamp_is_refused() {
    let mut writer = Writer::new(Vec::new(), &header()).expect("writer");
    assert!(writer
        .write(&Packet {
            stream: 0,
            pts: -1,
            key: true,
            data: Vec::new(),
        })
        .is_err());
}

#[test]
fn a_packet_of_no_stream_is_refused() {
    let mut writer = Writer::new(Vec::new(), &header()).expect("writer");
    assert_eq!(
        writer.write(&Packet {
            stream: 2,
            pts: 0,
            key: true,
            data: Vec::new(),
        }),
        Err(NutError::Malformed(Fault::NoStream(2)))
    );
    assert_eq!(
        Writer::new(
            Vec::new(),
            &Header {
                streams: Vec::new(),
                metadata: Vec::new(),
                chapters: Vec::new(),
            }
        )
        .map(|_| ()),
        Err(NutError::Malformed(Fault::NeedsAStream))
    );
}

#[test]
fn text_that_is_not_utf_8_is_read_with_replacements() {
    let mut bytes = Bytes::new(&[3, b'a', 0xFF, b'b']);
    assert_eq!(bytes.string(), Ok("a\u{FFFD}b".to_owned()));
    assert_eq!(bytes.remaining(), 0);
    assert_eq!(trim_nulls("tag\0\0"), "tag");
}

#[test]
fn faults_read_plainly() {
    assert_eq!(
        NutError::NoHeaders.message(),
        "the NUT stream ended before its headers"
    );
    assert!(NutError::Malformed(Fault::NegativeTimestamp(-1))
        .message()
        .contains("-1"));
}

#[test]
fn a_stream_in_pieces_of_any_size_gives_its_packets() {
    let mut writer = Writer::new(Vec::new(), &header()).expect("header");
    let packets: Vec<Packet> = (0..6)
        .map(|i| Packet {
            stream: i % 2,
            pts: 1_000 * i as i64,
            key: i % 3 == 0,
            data: vec![i as u8; 5 * i],
        })
        .collect();
    for packet in &packets {
        writer.write(packet).expect("written");
    }
    let bytes = writer.finish();
    let opens = (0..=bytes.len())
        .find(|cut| Reader::open(bytes[..*cut].to_vec()).is_ok())
        .expect("opens");
    for size in [1, 2, 7, 64, bytes.len()] {
        let mut reader = Reader::open(bytes[..opens].to_vec()).expect("open");
        let mut back = Vec::new();
        let mut rest = bytes[opens..].chunks(size);
        loop {
            match reader.next_packet() {
                Ok(Some(packet)) => back.push(packet),
                Ok(None) | Err(_) => match rest.next() {
                    Some(piece) => reader.feed(piece),
                    None => break,
                },
            }
        }
        assert_eq!(back, packets, "in pieces of {size}");
    }
}
