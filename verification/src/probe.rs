//! What is known of a media file.
use vstd::prelude::*;

verus! {

/// An exact fraction: a time base, a frame rate, a speed or an aspect ratio.
#[derive(Debug, Clone, Copy, PartialEq, Eq, Structural)]
pub struct Rational {
    pub num: i64,
    pub den: i64,
}

impl Rational {
    /// Both terms are positive: a usable time base or frame rate.
    pub open spec fn positive(self) -> bool {
        self.num > 0 && self.den > 0
    }

    /// The fraction in lowest terms, where both terms are positive.
    pub open spec fn lowest(self) -> Rational {
        if self.positive() {
            let divisor = gcd(self.num as nat, self.den as nat);
            Rational {
                num: (self.num as int / divisor as int) as i64,
                den: (self.den as int / divisor as int) as i64,
            }
        } else {
            self
        }
    }

    /// The fraction in lowest terms. One whose terms are not both positive is
    /// left as it is.
    pub fn reduced(self) -> (fraction: Rational)
        ensures
            fraction == self.lowest(),
            self.positive() ==> fraction.positive(),
    {
        if !self.is_positive() {
            return self;
        }
        let mut a: u64 = self.num as u64;
        let mut b: u64 = self.den as u64;
        while b != 0
            invariant
                gcd(a as nat, b as nat) == gcd(self.num as nat, self.den as nat),
                self.positive(),
            decreases b,
        {
            let rest: u64 = a % b;
            a = b;
            b = rest;
        }
        proof {
            lemma_gcd(self.num as nat, self.den as nat);
            reducing_keeps_the_value(self);
        }
        Rational { num: self.num / a as i64, den: self.den / a as i64 }
    }

    /// Whether both terms are positive.
    pub fn is_positive(self) -> (usable: bool)
        ensures
            usable == self.positive(),
    {
        self.num > 0 && self.den > 0
    }
}

/// The greatest common divisor.
pub open spec fn gcd(a: nat, b: nat) -> nat
    decreases b,
{
    if b == 0 {
        a
    } else {
        gcd(b, a % b)
    }
}

/// The greatest common divisor divides both numbers, and is no greater than
/// either that is positive.
pub proof fn lemma_gcd(a: nat, b: nat)
    requires
        a > 0 || b > 0,
    ensures
        gcd(a, b) > 0,
        a % gcd(a, b) == 0,
        b % gcd(a, b) == 0,
        a > 0 ==> gcd(a, b) <= a,
        b > 0 ==> gcd(a, b) <= b,
    decreases b,
{
    if b == 0 {
        assert(a % a == 0) by (nonlinear_arith)
            requires
                a > 0,
        ;
    } else {
        let (q, r) = (a / b, a % b);
        lemma_gcd(b, r);
        let g = gcd(a, b);
        vstd::arithmetic::div_mod::lemma_fundamental_div_mod(a as int, b as int);
        let (x, y) = (b / g, r / g);
        vstd::arithmetic::div_mod::lemma_fundamental_div_mod(b as int, g as int);
        vstd::arithmetic::div_mod::lemma_fundamental_div_mod(r as int, g as int);
        assert(a == g * (x * q + y)) by (nonlinear_arith)
            requires
                a == b * q + r,
                b == g * x,
                r == g * y,
        ;
        vstd::arithmetic::div_mod::lemma_mod_multiples_basic((x * q + y) as int, g as int);
        assert((x * q + y) * g == g * (x * q + y)) by (nonlinear_arith);
        assert(a > 0 ==> g <= a) by (nonlinear_arith)
            requires
                a == g * (x * q + y),
                x * q + y >= 0,
                g > 0,
        ;
        assert(x * q >= 0) by (nonlinear_arith)
            requires
                x >= 0,
                q >= 0,
        ;
    }
}

/// A fraction in lowest terms is the same number, and its terms are no
/// greater.
pub proof fn reducing_keeps_the_value(fraction: Rational)
    requires
        fraction.positive(),
    ensures
        fraction.lowest().positive(),
        fraction.lowest().num * fraction.den == fraction.num * fraction.lowest().den,
        fraction.lowest().num <= fraction.num,
        fraction.lowest().den <= fraction.den,
{
    let (n, d) = (fraction.num as int, fraction.den as int);
    lemma_gcd(n as nat, d as nat);
    let g = gcd(n as nat, d as nat) as int;
    vstd::arithmetic::div_mod::lemma_fundamental_div_mod(n, g);
    vstd::arithmetic::div_mod::lemma_fundamental_div_mod(d, g);
    let (p, q) = (n / g, d / g);
    assert(0 < p <= n && 0 < q <= d) by (nonlinear_arith)
        requires
            n == g * p,
            d == g * q,
            g > 0,
            n > 0,
            d > 0,
    ;
    assert(p * d == n * q) by (nonlinear_arith)
        requires
            n == g * p,
            d == g * q,
    ;
}

/// How a stream's chroma is sampled.
#[derive(Debug, Clone, Copy, PartialEq, Eq, Structural)]
pub enum ChromaSubsampling {
    Yuv420,
    Yuv422,
    Yuv444,
    Other,
}

/// How a stream's colours are meant, where it says so.
#[derive(Debug, PartialEq, Eq)]
pub struct ColorInfo {
    pub primaries: Option<String>,
    pub transfer: Option<String>,
    pub matrix: Option<String>,
    pub range: Option<String>,
}

/// The shape of a stream's pictures, as a sequence compares it.
#[derive(Debug, Clone, Copy, PartialEq, Eq, Structural)]
pub struct StreamGeometry {
    pub width: u32,
    pub height: u32,
    pub frame_rate: Rational,
    pub pixel_aspect: Rational,
    pub hdr: bool,
}

/// What is known of a video stream.
#[derive(Debug, PartialEq, Eq)]
pub struct VideoInfo {
    pub width: u32,
    pub height: u32,
    pub pixel_format: Option<String>,
    pub bit_depth: Option<u8>,
    pub chroma_subsampling: Option<ChromaSubsampling>,
    pub field_order: Option<String>,
    pub hdr: bool,
    pub color: ColorInfo,
    pub average_frame_rate: Option<Rational>,
    pub base_frame_rate: Option<Rational>,
    /// The shape of its pictures, where the stream says enough of it.
    pub geometry: Option<StreamGeometry>,
    pub rotation: u32,
    pub has_b_frames: bool,
    /// A cover image.
    pub is_attached_picture: bool,
}

/// What is known of an audio stream.
#[derive(Debug, PartialEq, Eq)]
pub struct AudioInfo {
    pub sample_rate: Option<u32>,
    pub channels: Option<u32>,
    pub sample_format: Option<String>,
}

/// What a stream carries.
#[derive(Debug, PartialEq, Eq)]
pub enum StreamKind {
    Video(VideoInfo),
    Audio(AudioInfo),
    Other,
}

/// What is known of a stream.
#[derive(Debug, PartialEq, Eq)]
pub struct StreamInfo {
    pub index: u32,
    pub is_default: bool,
    pub codec: Option<String>,
    pub profile: Option<String>,
    pub level: Option<i32>,
    pub time_base: Option<Rational>,
    /// The hash of the codec configuration record.
    pub extradata_hash: Option<String>,
    /// The first tick behind the stream, where its length is known.
    pub end: Option<i64>,
    /// Kilobits a second, rounded up, where recorded.
    pub kilobits: Option<u32>,
    pub kind: StreamKind,
}

/// What is known of a media file.
#[derive(Debug, PartialEq, Eq)]
pub struct MediaInfo {
    pub streams: Vec<StreamInfo>,
}

} // verus!
