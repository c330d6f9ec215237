//! Filmstrips and their sheets.
use blinkify_engine::filmstrip::{
    sheet_name, stream_for, strip_command, strip_name, thumbnail_count, thumbnails_after,
    tile_height, tile_width, usable, Filmstrip, FilmstripError, JpegSplitter, SheetWriter,
    FORMAT_VERSION,
};
use blinkify_engine::probe::MediaInfo;

fn strip() -> Filmstrip {
    Filmstrip {
        version: FORMAT_VERSION,
        interval_ms: 1000,
        tile_width: 128,
        tile_height: 72,
        columns: 10,
        rows: 10,
        count: 150,
        sheets: vec!["a.jpg".to_owned(), "b.jpg".to_owned()],
    }
}

#[test]
fn a_thumbnail_is_found_on_its_sheet() {
    let strip = strip();
    assert_eq!(strip.locate(0), Some((&"a.jpg".to_owned(), 0, 0)));
    assert_eq!(strip.locate(13), Some((&"a.jpg".to_owned(), 3 * 128, 72)));
    assert_eq!(
        strip.locate(149),
        Some((&"b.jpg".to_owned(), 9 * 128, 4 * 72))
    );
    assert_eq!(strip.locate(150), None);
}

#[test]
fn a_strip_is_usable_while_all_its_sheets_are_there() {
    let mut strip = strip();
    assert!(usable(&strip, &vec![true, true]));
    assert!(!usable(&strip, &vec![true, false]));
    strip.version += 1;
    assert!(!usable(&strip, &vec![true, true]));
}

#[test]
fn jpegs_are_split_across_arbitrary_chunk_boundaries() {
    let one = [0xFF, 0xD8, 0x01, 0xFF, 0x00, 0x02, 0xFF, 0xD9];
    let two = [0xFF, 0xD8, 0x03, 0xFF, 0xD9];
    let stream: Vec<u8> = one.iter().chain(two.iter()).copied().collect();
    let mut splitter = JpegSplitter::default();
    let mut images = Vec::new();
    for byte in &stream {
        images.extend(splitter.push(&[*byte]));
    }
    assert_eq!(images, vec![one.to_vec(), two.to_vec()]);
}

#[test]
fn a_portrait_display_makes_a_narrow_tile() {
    assert_eq!(tile_width(1920, 1080, 72), 128);
    assert_eq!(tile_width(720, 1280, 72), 40);
    assert_eq!(tile_width(0, 0, 72), 72);
    assert_eq!(tile_width(0, 0, 71), 70);
    assert_eq!(tile_width(0, 0, 0), 2);
}

#[test]
fn tile_heights_are_even() {
    assert_eq!(tile_height(72), 72);
    assert_eq!(tile_height(73), 72);
}

#[test]
fn sheets_count_their_thumbnails() {
    assert_eq!(thumbnails_after(0, 150), 100);
    assert_eq!(thumbnails_after(1, 150), 150);
    assert_eq!(thumbnail_count(2, 150), 150);
    assert_eq!(thumbnail_count(1, 150), 100);
    assert_eq!(thumbnail_count(0, 150), 0);
}

#[test]
fn sheets_are_named_and_written_in_order() {
    let name = strip_name(72, 500);
    let mut writer = SheetWriter::new(name.clone(), 150);
    let one = [0xFF, 0xD8, 0x01, 0xFF, 0xD9];
    let ready = writer.chunk(&one);
    assert_eq!(ready.len(), 1);
    assert_eq!(ready[0].index, 0);
    assert_eq!(ready[0].name, sheet_name(&name, 0));
    assert_eq!(ready[0].image, one.to_vec());
    assert_eq!(ready[0].thumbnails, 100);
    let strip = writer.finish(500, 128, 72, vec![sheet_name(&name, 0)]);
    assert_eq!(strip.count, 100);
    assert_eq!(strip.version, FORMAT_VERSION);
}

#[test]
fn a_file_without_pictures_has_no_strip() {
    let none = MediaInfo {
        streams: Vec::new(),
    };
    assert_eq!(stream_for(&none), Err(FilmstripError::NoVideo));
    assert_eq!(FilmstripError::Io("full".to_owned()).message(), "could not write the filmstrip: full");
}

#[test]
fn the_command_names_the_stream_and_the_tile() {
    let command = strip_command("in.mp4", 2, "0.5", 128, 72);
    assert!(command.args.contains(&"file:in.mp4".to_owned()));
    assert!(command.args.contains(&"0:2".to_owned()));
    assert!(command.args.iter().any(|arg| arg.contains("scale=128:72")));
}
