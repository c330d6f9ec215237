//! Filmstrip thumbnails for the timeline, packed into sprite sheets.
//!
//! Thumbnails are tiled into sheets, one JPEG holding a grid of them, written
//! as each one completes, so the timeline shows the start of a clip while the
//! end is still being decoded.
use crate::orchestrator::command::{file_words, SidecarCommand, Stdout, Tool};
use crate::orchestrator::JobError;
use crate::probe::{MediaInfo, StreamKind};
use crate::text::{decimal, push_decimal, push_digit};
use crate::time::{rounded, Rounding};
use vstd::prelude::*;

verus! {

/// Thumbnails per row of a sheet.
pub const COLUMNS: u32 = 10;

/// Rows of a sheet.
pub const ROWS: u32 = 10;

/// The version of the manifest and the sheet layout.
pub const FORMAT_VERSION: u32 = 1;

/// Where a filmstrip's sheets are, and how to find one thumbnail in them.
#[derive(Debug)]
pub struct Filmstrip {
    pub version: u32,
    /// Milliseconds between thumbnails.
    pub interval_ms: u64,
    pub tile_width: u32,
    pub tile_height: u32,
    pub columns: u32,
    pub rows: u32,
    /// How many thumbnails there are. The last sheet may be partly empty.
    pub count: u32,
    /// Sheet files, in order, each `columns` by `rows` tiles.
    pub sheets: Vec<String>,
}

impl Filmstrip {
    /// A sheet's tiles and their origins can be counted.
    pub open spec fn measurable(&self) -> bool {
        &&& self.columns * self.rows <= u32::MAX
        &&& self.columns * self.tile_width <= u32::MAX
        &&& self.rows * self.tile_height <= u32::MAX
    }

    /// The sheet holding thumbnail `n`, and the tile's pixel origin in it:
    /// nothing where there is no such thumbnail or no such sheet.
    pub fn locate(&self, n: u32) -> (place: Option<(&String, u32, u32)>)
        requires
            self.measurable(),
        ensures
            ({
                let per_sheet = self.columns * self.rows;
                let sheet = n as int / per_sheet;
                let within = n as int % per_sheet;
                match place {
                    Some((path, x, y)) => {
                        &&& n < self.count && per_sheet > 0 && sheet < self.sheets@.len()
                        &&& *path == self.sheets@[sheet]
                        &&& x == (within % self.columns as int) * self.tile_width
                        &&& y == (within / self.columns as int) * self.tile_height
                    },
                    None => n >= self.count || per_sheet == 0 || sheet >= self.sheets@.len(),
                }
            }),
    {
        if n >= self.count {
            return None;
        }
        let per_sheet: u32 = self.columns * self.rows;
        if per_sheet == 0 {
            return None;
        }
        let (c, r) = (self.columns, self.rows);
        assert(c > 0 && r > 0) by (nonlinear_arith)
            requires
                c * r > 0,
                c >= 0,
                r >= 0,
        ;
        let sheet: u32 = n / per_sheet;
        let within: u32 = n % per_sheet;
        if sheet as usize >= self.sheets.len() {
            return None;
        }
        let column: u32 = within % self.columns;
        let row: u32 = within / self.columns;
        let (w, h) = (self.tile_width, self.tile_height);
        assert(row < r) by (nonlinear_arith)
            requires
                row == within / c,
                within < c * r,
                c > 0,
        ;
        assert(column * w <= c * w && row * h <= r * h) by (nonlinear_arith)
            requires
                column <= c,
                row <= r,
                w >= 0,
                h >= 0,
        ;
        Some((&self.sheets[sheet as usize], column * self.tile_width, row * self.tile_height))
    }
}

/// Two thumbnails are never at one place of one sheet.
pub proof fn thumbnails_have_places_of_their_own(columns: int, rows: int, n: int, m: int)
    requires
        columns > 0,
        rows > 0,
        0 <= n,
        0 <= m,
        n / (columns * rows) == m / (columns * rows),
        (n % (columns * rows)) % columns == (m % (columns * rows)) % columns,
        (n % (columns * rows)) / columns == (m % (columns * rows)) / columns,
    ensures
        n == m,
{
    let per = columns * rows;
    assert(per > 0) by (nonlinear_arith)
        requires
            per == columns * rows,
            columns > 0,
            rows > 0,
    ;
    vstd::arithmetic::div_mod::lemma_fundamental_div_mod(n, per);
    vstd::arithmetic::div_mod::lemma_fundamental_div_mod(m, per);
    vstd::arithmetic::div_mod::lemma_fundamental_div_mod(n % per, columns);
    vstd::arithmetic::div_mod::lemma_fundamental_div_mod(m % per, columns);
}

/// The end-of-image marker stands at `i`.
pub open spec fn ends_at(bytes: Seq<u8>, i: int) -> bool {
    0 <= i && i + 1 < bytes.len() && bytes[i] == 0xFF && bytes[i + 1] == 0xD9
}

/// Where the first end-of-image marker stands, or the length where there is
/// none.
pub open spec fn first_end(bytes: Seq<u8>) -> int
    decreases bytes.len(),
{
    if bytes.len() == 0 || ends_at(bytes, 0) {
        0
    } else {
        1 + first_end(bytes.skip(1))
    }
}

/// `first_end` is the first place of the marker.
proof fn lemma_first_end_is(bytes: Seq<u8>, i: int)
    requires
        0 <= i <= bytes.len(),
        forall|j: int| 0 <= j < i ==> !#[trigger] ends_at(bytes, j),
        i < bytes.len() ==> ends_at(bytes, i),
    ensures
        first_end(bytes) == i,
    decreases bytes.len(),
{
    if i > 0 {
        assert(!ends_at(bytes, 0));
        let rest = bytes.skip(1);
        assert forall|j: int| 0 <= j < i - 1 implies !#[trigger] ends_at(rest, j) by {
            assert(!ends_at(bytes, j + 1));
        }
        if i < bytes.len() {
            assert(ends_at(rest, i - 1));
        }
        lemma_first_end_is(rest, i - 1);
    }
}

/// Nothing before `first_end` is the marker.
proof fn lemma_first_end_bounds(bytes: Seq<u8>)
    ensures
        0 <= first_end(bytes) <= bytes.len(),
        forall|j: int| 0 <= j < first_end(bytes) ==> !#[trigger] ends_at(bytes, j),
        first_end(bytes) < bytes.len() ==> ends_at(bytes, first_end(bytes)),
    decreases bytes.len(),
{
    if bytes.len() > 0 && !ends_at(bytes, 0) {
        let rest = bytes.skip(1);
        lemma_first_end_bounds(rest);
        assert forall|j: int| 0 <= j < first_end(bytes) implies !#[trigger] ends_at(bytes, j) by {
            if j > 0 {
                assert(!ends_at(rest, j - 1));
            }
        }
    }
}

/// A JPEG opens with its start-of-image marker.
pub open spec fn opens(image: Seq<u8>) -> bool {
    image.len() >= 2 && image[0] == 0xFF && image[1] == 0xD8
}

/// The whole images of a stream of concatenated JPEGs, and what is left after
/// the last. Whatever ends without having opened is dropped.
pub open spec fn images(bytes: Seq<u8>) -> (Seq<Seq<u8>>, Seq<u8>)
    decreases bytes.len(),
    via images_decrease
{
    let end = first_end(bytes);
    if end >= bytes.len() {
        (Seq::empty(), bytes)
    } else {
        let image = bytes.take(end + 2);
        let (rest, left) = images(bytes.skip(end + 2));
        (if opens(image) {
            seq![image] + rest
        } else {
            rest
        }, left)
    }
}

#[via_fn]
proof fn images_decrease(bytes: Seq<u8>) {
    lemma_first_end_bounds(bytes);
}

/// Splits a stream of concatenated JPEGs into images.
///
/// A JPEG ends at its end-of-image marker `FF D9`. Inside entropy-coded data a
/// literal `FF` is always followed by a stuffed `00`, and restart markers are
/// `FF D0` to `FF D7`, so the marker cannot occur before the real end.
#[derive(Debug)]
pub struct JpegSplitter {
    pub pending: Vec<u8>,
}

impl Default for JpegSplitter {
    fn default() -> (splitter: Self)
        ensures
            splitter.pending@.len() == 0,
    {
        JpegSplitter { pending: Vec::new() }
    }
}

/// The bytes of a list of images.
pub open spec fn contents(list: Seq<Vec<u8>>) -> Seq<Seq<u8>> {
    Seq::new(list.len(), |i: int| list[i]@)
}

/// The bytes of `bytes` from `from` up to `to`.
fn part(bytes: &Vec<u8>, from: usize, to: usize) -> (part: Vec<u8>)
    requires
        from <= to <= bytes.len(),
    ensures
        part@ == bytes@.subrange(from as int, to as int),
{
    let mut part: Vec<u8> = Vec::new();
    let mut i: usize = from;
    while i < to
        invariant
            from <= i <= to <= bytes.len(),
            part@ == bytes@.subrange(from as int, i as int),
        decreases to - i,
    {
        part.push(bytes[i]);
        i = i + 1;
        assert(bytes@.subrange(from as int, i as int) =~= bytes@.subrange(
            from as int,
            i - 1,
        ).push(bytes@[i - 1]));
    }
    part
}

impl JpegSplitter {
    /// Take in a chunk of the stream, and give the images it completes.
    pub fn push(&mut self, bytes: &[u8]) -> (list: Vec<Vec<u8>>)
        ensures
            contents(list@) == images(old(self).pending@ + bytes@).0,
            final(self).pending@ == images(old(self).pending@ + bytes@).1,
    {
        crate::bytes::push_all(&mut self.pending, bytes);
        let ghost all = self.pending@;
        let mut list: Vec<Vec<u8>> = Vec::new();
        let mut start: usize = 0;
        let mut at: usize = 0;
        assert(all.skip(0) =~= all);
        assert(contents(list@) + images(all).0 =~= images(all).0);
        while at < self.pending.len()
            invariant
                start <= at <= self.pending.len(),
                self.pending@ == all,
                contents(list@) + images(all.skip(start as int)).0 == images(all).0,
                images(all.skip(start as int)).1 == images(all).1,
                forall|j: int|
                    0 <= j < at - start ==> !#[trigger] ends_at(all.skip(start as int), j),
            decreases self.pending.len() - at,
        {
            let ghost rest = all.skip(start as int);
            if at + 1 < self.pending.len() && self.pending[at] == 0xFF && self.pending[at + 1]
                == 0xD9 {
                let ghost end = at - start;
                assert(ends_at(rest, end));
                proof {
                    lemma_first_end_is(rest, end);
                }
                let image: Vec<u8> = part(&self.pending, start, at + 2);
                assert(image@ =~= rest.take(end + 2));
                assert(rest.skip(end + 2) =~= all.skip(at + 2));
                let ghost before = contents(list@);
                if image.len() >= 2 && image[0] == 0xFF && image[1] == 0xD8 {
                    list.push(image);
                    assert(contents(list@) =~= before.push(image@));
                    assert(contents(list@) + images(all.skip(at + 2)).0 =~= before + (
                    seq![image@] + images(all.skip(at + 2)).0));
                }
                start = at + 2;
                at = at + 2;
            } else {
                assert(!ends_at(rest, at - start));
                at = at + 1;
            }
        }
        proof {
            let rest = all.skip(start as int);
            lemma_first_end_is(rest, rest.len() as int);
            assert(contents(list@) =~= contents(list@) + images(rest).0);
        }
        let left: Vec<u8> = part(&self.pending, start, self.pending.len());
        assert(left@ =~= all.skip(start as int));
        self.pending = left;
        list
    }
}

/// Where the chunks of a stream are cut decides nothing: pushing `a` and then
/// `b` gives the images, and leaves the bytes, that pushing both at once does.
pub proof fn chunk_boundaries_decide_nothing(a: Seq<u8>, b: Seq<u8>)
    ensures
        ({
            let (first, left) = images(a);
            let (second, rest) = images(left + b);
            &&& first + second == images(a + b).0
            &&& rest == images(a + b).1
        }),
    decreases a.len(),
{
    let end = first_end(a);
    lemma_first_end_bounds(a);
    if end >= a.len() {
        assert(Seq::<Seq<u8>>::empty() + images(a + b).0 =~= images(a + b).0);
    } else {
        let whole = a + b;
        assert forall|j: int| 0 <= j < end implies !#[trigger] ends_at(whole, j) by {
            assert(!ends_at(a, j));
        }
        assert(ends_at(whole, end));
        lemma_first_end_is(whole, end);
        let after = a.skip(end + 2);
        assert(whole.skip(end + 2) =~= after + b);
        assert(whole.take(end + 2) =~= a.take(end + 2));
        chunk_boundaries_decide_nothing(after, b);
        let image = a.take(end + 2);
        let (first, left) = images(after);
        let (second, rest) = images(left + b);
        if opens(image) {
            assert((seq![image] + first) + second =~= seq![image] + (first + second));
        }
    }
}

/// The thumbnails there are once sheet number `index` is written: a sheet's
/// worth for each, but no more than are expected where that is known.
pub fn thumbnails_after(index: u32, expected: u32) -> (thumbnails: u32)
    requires
        index < u32::MAX,
    ensures
        thumbnails == ({
            let filled = if (index + 1) * 100 > u32::MAX {
                u32::MAX as int
            } else {
                (index + 1) * 100
            };
            if expected > 0 && expected < filled {
                expected as int
            } else {
                filled
            }
        }),
{
    let filled: u32 = match (index + 1).checked_mul(COLUMNS * ROWS) {
        Some(filled) => filled,
        None => u32::MAX,
    };
    if expected > 0 && expected < filled {
        expected
    } else {
        filled
    }
}

/// How many thumbnails a finished filmstrip of `sheets` sheets has.
pub fn thumbnail_count(sheets: u32, expected: u32) -> (count: u32)
    ensures
        count == ({
            let filled = if sheets * 100 > u32::MAX {
                u32::MAX as int
            } else {
                sheets * 100
            };
            if expected > 0 && expected < filled {
                expected as int
            } else {
                filled
            }
        }),
{
    let filled: u32 = match sheets.checked_mul(COLUMNS * ROWS) {
        Some(filled) => filled,
        None => u32::MAX,
    };
    if expected > 0 && expected < filled {
        expected
    } else {
        filled
    }
}

/// The largest even number up to `n`, and at least two.
pub open spec fn even(n: u32) -> int {
    if n < 2 {
        2
    } else {
        n - n % 2
    }
}

/// A tile's height: even, and at least two.
pub fn tile_height(height: u32) -> (tall: u32)
    ensures
        tall == even(height),
        tall % 2 == 0 && tall >= 2,
{
    if height < 2 {
        2
    } else {
        height - height % 2
    }
}

/// Half the width a display size has at `height`, to the nearest whole number.
pub open spec fn half_width(display_width: u32, display_height: u32, height: u32) -> int {
    rounded(height * display_width, 2 * display_height, Rounding::Nearest)
}

/// The tile width for a display size at `height`, rounded to an even number as
/// the scaler and the JPEG encoder want, and at least two. A display without a
/// height has square tiles.
pub fn tile_width(display_width: u32, display_height: u32, height: u32) -> (width: u32)
    requires
        display_height > 0 ==> 2 * half_width(display_width, display_height, height) <= u32::MAX,
    ensures
        width % 2 == 0 && width >= 2,
        width == (if display_height == 0 {
            even(height)
        } else if half_width(display_width, display_height, height) < 1 {
            2
        } else {
            2 * half_width(display_width, display_height, height)
        }),
{
    if display_height == 0 {
        return tile_height(height);
    }
    let (h, w) = (height as u64, display_width as u64);
    assert(0 <= h * w <= 0xffff_ffff * 0xffff_ffff) by (nonlinear_arith)
        requires
            0 <= h <= 0xffff_ffff,
            0 <= w <= 0xffff_ffff,
    ;
    let n: u64 = h * w;
    let d: u64 = 2 * display_height as u64;
    let half: u64 = if 2 * (n % d) < d {
        n / d
    } else {
        n / d + 1
    };
    if half < 1 {
        2
    } else {
        (2 * half) as u32
    }
}

/// A number of four digits at least.
pub open spec fn four_digits(n: nat) -> Seq<char> {
    if n < 10 {
        seq!['0', '0', '0'] + decimal(n)
    } else if n < 100 {
        seq!['0', '0'] + decimal(n)
    } else if n < 1000 {
        seq!['0'] + decimal(n)
    } else {
        decimal(n)
    }
}

/// What a filmstrip's files are named by: its tile height and its interval.
pub fn strip_name(tile_height: u32, interval_ms: u64) -> (name: String)
    ensures
        name@ == "-h"@ + decimal(tile_height as nat) + "-i"@ + decimal(interval_ms as nat),
{
    let mut name: String = "-h".to_owned();
    push_decimal(&mut name, tile_height as u64);
    name.append("-i");
    push_decimal(&mut name, interval_ms);
    name
}

/// The name of sheet number `index` of a filmstrip named `name`.
pub fn sheet_name(name: &str, index: u32) -> (sheet: String)
    ensures
        sheet@ == name@ + "-"@ + four_digits(index as nat) + ".jpg"@,
{
    let mut sheet: String = name.to_owned();
    sheet.append("-");
    let ghost lead = sheet@;
    if index < 1000 {
        push_digit(&mut sheet, 0);
    }
    if index < 100 {
        push_digit(&mut sheet, 0);
    }
    if index < 10 {
        push_digit(&mut sheet, 0);
    }
    push_decimal(&mut sheet, index as u64);
    assert(sheet@ =~= lead + four_digits(index as nat));
    sheet.append(".jpg");
    sheet
}

/// Why there is no filmstrip.
#[derive(Debug, PartialEq, Eq)]
pub enum FilmstripError {
    NoVideo,
    Engine(JobError),
    Io(String),
}

impl FilmstripError {
    /// The error in words.
    pub open spec fn words(&self) -> Seq<char> {
        match *self {
            FilmstripError::NoVideo => "the file has no video stream"@,
            FilmstripError::Engine(error) => "could not generate the filmstrip: "@ + error.words(),
            FilmstripError::Io(reason) => "could not write the filmstrip: "@ + reason@,
        }
    }

    /// The error in words.
    pub fn message(&self) -> (text: String)
        ensures
            text@ == self.words(),
    {
        match self {
            FilmstripError::NoVideo => "the file has no video stream".to_owned(),
            FilmstripError::Engine(error) => {
                let why = error.message();
                "could not generate the filmstrip: ".to_owned().concat(why.as_str())
            },
            FilmstripError::Io(reason) => {
                "could not write the filmstrip: ".to_owned().concat(reason.as_str())
            },
        }
    }
}

/// The place of the first stream of pictures at `at` or behind, cover images
/// aside.
pub open spec fn first_pictures(info: MediaInfo, at: int) -> int
    decreases info.streams@.len() - at,
{
    if at >= info.streams@.len() || (info.streams@[at].kind matches StreamKind::Video(video)
        && !video.is_attached_picture) {
        at
    } else {
        first_pictures(info, at + 1)
    }
}

/// The stream a filmstrip is made from: the first of pictures that is no cover
/// image.
pub fn stream_for(info: &MediaInfo) -> (place: Result<usize, FilmstripError>)
    ensures
        match place {
            Ok(at) => at < info.streams@.len() && at == first_pictures(*info, 0),
            Err(error) => first_pictures(*info, 0) >= info.streams@.len() && error
                == FilmstripError::NoVideo,
        },
{
    let mut at: usize = 0;
    while at < info.streams.len()
        invariant
            at <= info.streams@.len(),
            first_pictures(*info, 0) == first_pictures(*info, at as int),
        decreases info.streams@.len() - at,
    {
        if let StreamKind::Video(video) = &info.streams[at].kind {
            if !video.is_attached_picture {
                return Ok(at);
            }
        }
        at += 1;
    }
    Err(FilmstripError::NoVideo)
}

/// A stored filmstrip can be used: it is of this version, and every sheet of it
/// is there.
pub fn usable(filmstrip: &Filmstrip, there: &Vec<bool>) -> (yes: bool)
    requires
        there@.len() == filmstrip.sheets@.len(),
    ensures
        yes == (filmstrip.version == FORMAT_VERSION && forall|i: int|
            0 <= i < there@.len() ==> #[trigger] there@[i]),
{
    if filmstrip.version != FORMAT_VERSION {
        return false;
    }
    let mut i: usize = 0;
    while i < there.len()
        invariant
            i <= there@.len(),
            forall|k: int| 0 <= k < i ==> #[trigger] there@[k],
        decreases there@.len() - i,
    {
        if !there[i] {
            return false;
        }
        i += 1;
    }
    true
}

/// The filters that make sheets: a picture every so often, scaled to a tile,
/// tiles put together.
pub open spec fn sheet_filters(interval: Seq<char>, width: u32, height: u32) -> Seq<char> {
    "fps=1/"@ + interval + ",scale="@ + decimal(width as nat) + ":"@ + decimal(height as nat)
        + ":flags=bicubic,tile=10x10"@
}

/// The process that makes the sheets of stream `stream` of the file at `path`.
/// `interval` is the seconds between thumbnails in decimals.
pub fn strip_command(path: &str, stream: u32, interval: &str, width: u32, height: u32) -> (command:
    SidecarCommand)
    ensures
        command.words() == seq![
            "-hide_banner"@,
            "-nostdin"@,
            "-n"@,
            "-loglevel"@,
            "error"@,
            "-i"@,
            file_words(path@),
            "-map"@,
            "0:"@ + decimal(stream as nat),
            "-an"@,
            "-sn"@,
            "-dn"@,
            "-vf"@,
            sheet_filters(interval@, width, height),
            "-c:v"@,
            "mjpeg"@,
            "-q:v"@,
            "4"@,
            "-f"@,
            "image2pipe"@,
            "pipe:1"@,
        ],
        command.tool == Tool::Ffmpeg,
        command.stdout == Stdout::Stream,
        command.progress_total is None,
{
    let mut map = "0:".to_owned();
    push_decimal(&mut map, stream as u64);
    let mut filters = "fps=1/".to_owned();
    filters.append(interval);
    filters.append(",scale=");
    push_decimal(&mut filters, width as u64);
    filters.append(":");
    push_decimal(&mut filters, height as u64);
    filters.append(":flags=bicubic,tile=10x10");
    let opened = SidecarCommand::ffmpeg().option("-loglevel", "error").input(path).option(
        "-map",
        map.as_str(),
    );
    let pictures = opened.flag("-an").flag("-sn").flag("-dn").option("-vf", filters.as_str());
    let command = pictures.option("-c:v", "mjpeg").option("-q:v", "4").option(
        "-f",
        "image2pipe",
    ).output_stdout();
    proof {
        assert(command.words() =~= seq![
            "-hide_banner"@,
            "-nostdin"@,
            "-n"@,
            "-loglevel"@,
            "error"@,
            "-i"@,
            file_words(path@),
            "-map"@,
            "0:"@ + decimal(stream as nat),
            "-an"@,
            "-sn"@,
            "-dn"@,
            "-vf"@,
            sheet_filters(interval@, width, height),
            "-c:v"@,
            "mjpeg"@,
            "-q:v"@,
            "4"@,
            "-f"@,
            "image2pipe"@,
            "pipe:1"@,
        ]);
    }
    command
}

/// A sheet that is to be written.
#[derive(Debug, PartialEq, Eq)]
pub struct SheetReady {
    pub index: u32,
    /// The sheet's file name.
    pub name: String,
    /// The sheet's JPEG.
    pub image: Vec<u8>,
    /// Thumbnails available so far, from the start of the clip.
    pub thumbnails: u32,
}

/// Turns the stream of a filmstrip's process into sheets.
#[derive(Debug)]
pub struct SheetWriter {
    pub name: String,
    /// How many thumbnails are expected; zero where that is not known.
    pub expected: u32,
    pub written: u32,
    pub splitter: JpegSplitter,
}

/// Sheets filled, as thumbnails.
pub open spec fn filled(sheets: int, expected: u32) -> int {
    let all = if sheets * 100 > u32::MAX {
        u32::MAX as int
    } else {
        sheets * 100
    };
    if expected > 0 && expected < all {
        expected as int
    } else {
        all
    }
}

/// A sheet's number, as far as numbers go.
pub open spec fn numbered(n: int) -> int {
    if n < u32::MAX {
        n
    } else {
        u32::MAX - 1
    }
}

impl SheetWriter {
    /// No sheet yet.
    pub fn new(name: String, expected: u32) -> (writer: SheetWriter)
        ensures
            writer.name == name,
            writer.expected == expected,
            writer.written == 0,
            writer.splitter.pending@.len() == 0,
    {
        SheetWriter { name, expected, written: 0, splitter: JpegSplitter { pending: Vec::new() } }
    }

    /// The sheet that an image is, `n` having been made before it.
    pub open spec fn is_sheet(&self, sheet: SheetReady, image: Seq<u8>, n: int) -> bool {
        &&& sheet.index == numbered(n)
        &&& sheet.name@ == self.name@ + "-"@ + four_digits(numbered(n) as nat) + ".jpg"@
        &&& sheet.image@ == image
        &&& sheet.thumbnails == filled(numbered(n) + 1, self.expected)
    }

    /// Take in a chunk of the stream: the sheets it completes, in order.
    pub fn chunk(&mut self, bytes: &[u8]) -> (sheets: Vec<SheetReady>)
        requires
            old(self).written < u32::MAX,
        ensures
            final(self).name == old(self).name,
            final(self).expected == old(self).expected,
            ({
                let (made, rest) = images(old(self).splitter.pending@ + bytes@);
                &&& final(self).splitter.pending@ == rest
                &&& sheets@.len() == made.len()
                &&& forall|i: int|
                    0 <= i < made.len() ==> old(self).is_sheet(
                        #[trigger] sheets@[i],
                        made[i],
                        old(self).written + i,
                    )
                &&& final(self).written == numbered(old(self).written + made.len())
            }),
    {
        let images = self.splitter.push(bytes);
        let ghost made = contents(images@);
        let mut rest = images;
        let mut sheets: Vec<SheetReady> = Vec::new();
        let ghost first = self.written as int;
        proof {
            assert(contents(rest@) =~= made.skip(0));
        }
        while rest.len() > 0
            invariant
                self.name == old(self).name,
                self.expected == old(self).expected,
                self.splitter.pending@ == crate::filmstrip::images(
                    old(self).splitter.pending@ + bytes@,
                ).1,
                made == crate::filmstrip::images(old(self).splitter.pending@ + bytes@).0,
                first == old(self).written,
                first < u32::MAX,
                sheets@.len() + rest@.len() == made.len(),
                contents(rest@) == made.skip(sheets@.len() as int),
                self.written == numbered(first + sheets@.len()),
                forall|i: int|
                    0 <= i < sheets@.len() ==> old(self).is_sheet(
                        #[trigger] sheets@[i],
                        made[i],
                        first + i,
                    ),
            decreases rest@.len(),
        {
            let ghost n = sheets@.len() as int;
            let ghost left = rest@;
            let image = rest.remove(0);
            let index = self.written;
            proof {
                assert(contents(left)[0] == made[n]);
                assert forall|k: int| 0 <= k < rest@.len() implies contents(rest@)[k] == made.skip(
                    n + 1,
                )[k] by {
                    assert(rest@[k] == left[k + 1]);
                    assert(contents(left)[k + 1] == made.skip(n)[k + 1]);
                }
                assert(contents(rest@) =~= made.skip(n + 1));
            }
            let name = sheet_name(self.name.as_str(), index);
            sheets.push(
                SheetReady {
                    index,
                    name,
                    image,
                    thumbnails: thumbnails_after(index, self.expected),
                },
            );
            if self.written < u32::MAX - 1 {
                self.written += 1;
            }
        }
        sheets
    }

    /// The filmstrip, once its process has ended: of the sheets written, each
    /// `COLUMNS` by `ROWS` tiles.
    pub fn finish(&self, interval_ms: u64, tile_width: u32, tile_height: u32, sheets: Vec<String>) -> (
    filmstrip: Filmstrip)
        ensures
            filmstrip.version == FORMAT_VERSION,
            filmstrip.interval_ms == interval_ms,
            filmstrip.tile_width == tile_width,
            filmstrip.tile_height == tile_height,
            filmstrip.columns == COLUMNS,
            filmstrip.rows == ROWS,
            filmstrip.sheets == sheets,
            filmstrip.count == filled(
                if sheets@.len() <= u32::MAX {
                    sheets@.len() as int
                } else {
                    0
                },
                self.expected,
            ),
    {
        let count: u32 = if sheets.len() <= 0xffff_ffff {
            sheets.len() as u32
        } else {
            0
        };
        Filmstrip {
            version: FORMAT_VERSION,
            interval_ms,
            tile_width,
            tile_height,
            columns: COLUMNS,
            rows: ROWS,
            count: thumbnail_count(count, self.expected),
            sheets,
        }
    }
}

/// An image comes out as it went in: where its end mark is its last two bytes
/// and the first in it, it is one, if it starts as one, and what follows is read
/// on as if it were alone. Without an end mark everything is left over.
pub proof fn an_image_comes_out_whole(image: Seq<u8>, rest: Seq<u8>)
    requires
        image.len() >= 2,
        forall|j: int|
            0 <= j < image.len() - 2 ==> !(#[trigger] image[j] == 0xFF && image[j + 1] == 0xD9),
        image[image.len() - 2] == 0xFF,
        image[image.len() - 1] == 0xD9,
    ensures
        ({
            let (all, left) = images(image + rest);
            let (more, remains) = images(rest);
            &&& left == remains
            &&& image[0] == 0xFF && image[1] == 0xD8 ==> all == seq![image] + more
            &&& image[0] != 0xFF || image[1] != 0xD8 ==> all == more
        }),
{
    let bytes = image + rest;
    let end = image.len() - 2;
    assert forall|j: int| 0 <= j < end implies !#[trigger] ends_at(bytes, j) by {
        assert(bytes[j] == image[j] && bytes[j + 1] == image[j + 1]);
    }
    assert(bytes[end] == image[end] && bytes[end + 1] == image[end + 1]);
    lemma_first_end_is(bytes, end);
    assert(bytes.take(end + 2) =~= image);
    assert(bytes.skip(end + 2) =~= rest);
}

/// Without an end mark everything is left over.
pub proof fn an_image_without_an_end_is_left_over(bytes: Seq<u8>)
    requires
        forall|j: int|
            0 <= j < bytes.len() - 1 ==> !(#[trigger] bytes[j] == 0xFF && bytes[j + 1] == 0xD9),
    ensures
        images(bytes) == (Seq::<Seq<u8>>::empty(), bytes),
{
    assert forall|j: int| 0 <= j < bytes.len() implies !#[trigger] ends_at(bytes, j) by {}
    lemma_first_end_is(bytes, bytes.len() as int);
}

/// A thumbnail is as wide as its picture is shown, to the nearest even number.
pub proof fn a_thumbnail_keeps_its_shape(width: u32, height: u32, tall: u32)
    requires
        height > 0,
    ensures
        ({
            let wide = 2 * half_width(width, height, tall);
            -(2 * height) <= 2 * (tall * width - wide * height) < 2 * height
        }),
{
    let n = tall * width;
    let d = 2 * height;
    vstd::arithmetic::div_mod::lemma_fundamental_div_mod(n, d);
    vstd::arithmetic::div_mod::lemma_mod_bound(n, d);
    let f = half_width(width, height, tall);
    let q = n / d;
    assert(d * q == q * d && (q + 1) * d == q * d + d && (2 * f) * height == f * d)
        by (nonlinear_arith)
        requires
            d == 2 * height,
    ;
}

/// A sheet holds a hundred thumbnails, the last as many as are left.
pub proof fn a_sheet_holds_a_hundred(sheets: u32, expected: u32)
    requires
        sheets * 100 <= u32::MAX,
    ensures
        expected == 0 || expected >= sheets * 100 ==> filled(sheets as int, expected) == sheets
            * 100,
        0 < expected < sheets * 100 ==> filled(sheets as int, expected) == expected,
        even(sheets) % 2 == 0 && even(sheets) >= 2,
        sheets >= 2 ==> even(sheets) == sheets || even(sheets) == sheets - 1,
{
}

/// A sheet's number is written with four digits at least, and reads back.
pub proof fn a_sheet_is_numbered_with_four_digits(n: nat)
    ensures
        four_digits(n).len() >= 4,
        n < 10_000 ==> four_digits(n).len() == 4,
        crate::text::all_digits(four_digits(n)),
        crate::text::digits_value(four_digits(n)) == n,
{
    crate::text::a_number_reads_back(n);
    let digits = decimal(n);
    lemma_digits(n);
    if n < 10 {
        crate::text::lemma_zeros(3, digits);
        assert(seq!['0', '0', '0'] =~= Seq::new(3, |i: int| '0'));
    } else if n < 100 {
        crate::text::lemma_zeros(2, digits);
        assert(seq!['0', '0'] =~= Seq::new(2, |i: int| '0'));
    } else if n < 1000 {
        crate::text::lemma_zeros(1, digits);
        assert(seq!['0'] =~= Seq::new(1, |i: int| '0'));
    }
}

proof fn lemma_digits(n: nat)
    ensures
        n < 10 ==> decimal(n).len() == 1,
        10 <= n < 100 ==> decimal(n).len() == 2,
        100 <= n < 1000 ==> decimal(n).len() == 3,
        1000 <= n < 10_000 ==> decimal(n).len() == 4,
        n >= 1000 ==> decimal(n).len() >= 4,
    decreases n,
{
    if n >= 10 {
        lemma_digits(n / 10);
    }
}

/// A filmstrip is made of the first stream of pictures; a cover image is none.
pub proof fn a_filmstrip_shows_the_first_pictures(info: MediaInfo, at: int)
    requires
        0 <= at <= info.streams@.len(),
        forall|i: int|
            0 <= i < at ==> !((#[trigger] info.streams@[i]).kind matches StreamKind::Video(video)
                && !video.is_attached_picture),
        at < info.streams@.len() ==> (info.streams@[at].kind matches StreamKind::Video(video)
            && !video.is_attached_picture),
    ensures
        first_pictures(info, 0) == at,
{
    lemma_first_pictures(info, 0, at);
}

proof fn lemma_first_pictures(info: MediaInfo, from: int, at: int)
    requires
        0 <= from <= at <= info.streams@.len(),
        forall|i: int|
            from <= i < at ==> !((#[trigger] info.streams@[i]).kind matches StreamKind::Video(video)
                && !video.is_attached_picture),
        at < info.streams@.len() ==> (info.streams@[at].kind matches StreamKind::Video(video)
            && !video.is_attached_picture),
    ensures
        first_pictures(info, from) == at,
    decreases at - from,
{
    if from < at {
        assert(!(info.streams@[from].kind matches StreamKind::Video(video)
            && !video.is_attached_picture));
        lemma_first_pictures(info, from + 1, at);
    }
}

} // verus!
