//! The sender's logic: which files are videos, how a picture becomes a frame
//! line, which extracted files are frames, and the connection retry policy.
use vstd::prelude::*;
use image::imageops::FilterType;
use image::imageops::resize;
use image::ColorType::{La16, La8, Rgb16, Rgb8, Rgba16, Rgba8, L16, L8};
use image::DynamicImage::{
    ImageLuma16, ImageLuma8, ImageLumaA16, ImageLumaA8, ImageRgb16, ImageRgb8, ImageRgba16,
    ImageRgba8,
};
use image::{ImageBuffer as B, ImageFormat, Luma, LumaA, Rgb, Rgba};
use self::Channels::{Colour, ColourAlpha, Grey, GreyAlpha};

use crate::display_controller::{after_update, frame_step, step_of, ControllerView, FrameStep};
use crate::drivers::osl641505::{lemma_frame_pixels, pixel};
use crate::protocol::{
    all_binary, binary_u64, frame_check, is_binary_digit, FRAME_BITS,
};
use crate::text::{chars_of, is_white_space, trimmed, trimmed_end, trimmed_start};

verus! {

broadcast use vstd::string::group_string_axioms;

/// Side, in pixels, of the square picture that becomes a frame.
pub const FRAME_SIDE: u32 = 8;

/// A grey level above this is a lit pixel.
pub const LIT_THRESHOLD: u8 = 128;

/// Number of connection attempts before the sender gives up.
pub const CONNECT_ATTEMPTS: u32 = 5;

/// The sender reports progress after every this many frames.
pub const PROGRESS_EVERY: usize = 30;

/// The extension of a path as `std::path::Path::extension` finds it, as text.
pub uninterp spec fn path_extension(path: Seq<char>) -> Option<Seq<char>>;

/// The lowercase form of a text as `str::to_lowercase` computes it.
pub uninterp spec fn lowercase(s: Seq<char>) -> Seq<char>;


/// Index of the last `c` in `s`, or -1 when there is none.
pub open spec fn last_index_of(s: Seq<char>, c: char) -> int
    decreases s.len(),
{
    if s.len() == 0 {
        -1
    } else if s.last() == c {
        s.len() - 1
    } else {
        last_index_of(s.drop_last(), c)
    }
}

pub proof fn lemma_last_index_range(s: Seq<char>, c: char)
    ensures
        -1 <= last_index_of(s, c) < s.len(),
        last_index_of(s, c) >= 0 ==> s[last_index_of(s, c)] == c,
    decreases s.len(),
{
    if s.len() > 0 && s.last() != c {
        lemma_last_index_range(s.drop_last(), c);
    }
}

/// The extension of a file name as std documents it: none without a `'.'`, none when
/// the only `'.'` leads the name, otherwise the text after the last `'.'`.
pub open spec fn name_extension(name: Seq<char>) -> Option<Seq<char>> {
    if last_index_of(name, '.') <= 0 {
        None
    } else {
        Some(name.skip(last_index_of(name, '.') + 1))
    }
}

/// The file name of a `/`-separated path as std documents it: the last component,
/// where empty and `.` components are skipped; none when that component is `..` or
/// there is none.
pub open spec fn file_name_of(path: Seq<char>) -> Option<Seq<char>>
    decreases path.len(),
{
    let j = last_index_of(path, '/');
    let seg = path.skip(j + 1);
    if seg.len() == 0 || seg == seq!['.'] {
        if j < 0 {
            None
        } else {
            proof {
                lemma_last_index_range(path, '/');
            }
            file_name_of(path.take(j))
        }
    } else if seg == seq!['.', '.'] {
        None
    } else {
        Some(seg)
    }
}

/// The extension of a path as std documents it: that of its file name.
pub open spec fn documented_extension(path: Seq<char>) -> Option<Seq<char>> {
    match file_name_of(path) {
        Some(name) => name_extension(name),
        None => None,
    }
}

/// A path that `/` alone separates on every platform: no `\\`, no `:`, and no leading `//`.
pub open spec fn is_portable_path(path: Seq<char>) -> bool {
    &&& forall|i: int| 0 <= i < path.len() ==> #[trigger] path[i] != '\\' && path[i] != ':'
    &&& !(path.len() >= 2 && path[0] == '/' && path[1] == '/')
}

/// ASCII lower case letters to upper case; other characters unchanged.
pub open spec fn ascii_upper(c: char) -> char {
    if 'a' <= c <= 'z' {
        ((c as u32) - 32) as char
    } else {
        c
    }
}

/// ASCII upper case letters to lower case; other characters unchanged.
pub open spec fn ascii_lower(c: char) -> char {
    if 'A' <= c <= 'Z' {
        ((c as u32) + 32) as char
    } else {
        c
    }
}

/// `std::path::Path::extension` of `path`, as a `String`. Its contract claims: the
/// result is the one the call gives for this path, `None` exactly when the call finds
/// no extension; for a path that `/` alone separates, it is the extension of the file
/// name as std documents both. Paths with `\\`, `:` or a leading `//` are left to
/// std's documentation for the platform.
#[verifier::external_body]
fn extension_of(path: &str) -> (r: Option<String>)
    ensures
        r is None <==> path_extension(path@) is None,
        r matches Some(e) ==> path_extension(path@) == Some(e@),
        is_portable_path(path@) ==> match r {
            Some(e) => documented_extension(path@) == Some(e@),
            None => documented_extension(path@) is None,
        },
{
    std::path::Path::new(path).extension().and_then(|e| e.to_str()).map(|e| e.to_string())
}

/// `str::to_lowercase`. Its contract claims: the result is the one the call gives for
/// this text, and an ASCII text has its letters `A`-`Z` turned into `a`-`z` and
/// nothing else changed. Non-ASCII mappings are left to std's documentation.
#[verifier::external_body]
fn to_lowercase(s: &str) -> (r: String)
    ensures
        r@ == lowercase(s@),
        vstd::utf8::is_ascii_chars(s@) ==> r@ == s@.map_values(|c: char| ascii_lower(c)),
{
    s.to_lowercase()
}

/// Which samples make up a pixel: grey, grey and alpha, red-green-blue, or
/// red-green-blue and alpha.
#[derive(Clone, Copy, Debug, PartialEq, Eq, Structural)]
pub enum Channels {
    Grey,
    GreyAlpha,
    Colour,
    ColourAlpha,
}

/// Samples per pixel.
pub open spec fn channel_count(channels: Channels) -> nat {
    match channels {
        Channels::Grey => 1,
        Channels::GreyAlpha => 2,
        Channels::Colour => 3,
        Channels::ColourAlpha => 4,
    }
}

/// A decoded picture: its pixels row by row, each pixel `channel_count(channels)`
/// samples, held in `bytes` when samples have 8 bits and in `words` when they have 16
/// (`wide`); the other vector is empty.
pub struct Picture {
    pub channels: Channels,
    pub wide: bool,
    pub width: u32,
    pub height: u32,
    pub bytes: Vec<u8>,
    pub words: Vec<u16>,
}

/// Whether the samples fill a picture of this size exactly, in the vector of its
/// sample size.
pub open spec fn samples_fit(
    channels: Channels,
    wide: bool,
    width: u32,
    height: u32,
    bytes: Seq<u8>,
    words: Seq<u16>,
) -> bool {
    if wide {
        bytes.len() == 0 && words.len() == width * height * channel_count(channels)
    } else {
        words.len() == 0 && bytes.len() == width * height * channel_count(channels)
    }
}

pub open spec fn picture_fits(p: Picture) -> bool {
    samples_fit(p.channels, p.wide, p.width, p.height, p.bytes@, p.words@)
}

/// What `image::load_from_memory_with_format` gives for `bytes` in the format that
/// `ImageFormat::from_extension` picks for `extension` (as `image::open` picks it), as
/// channels, sample size, picture size and samples; `None` when there is no such
/// format, decoding fails, or the samples are floating point.
pub uninterp spec fn decoded_picture(bytes: Seq<u8>, extension: Seq<char>) -> Option<
    (Channels, bool, u32, u32, Seq<u8>, Seq<u16>),
>;

/// The samples of an 8-bit picture resized by `image::DynamicImage::resize_exact`
/// with the triangle filter.
pub uninterp spec fn resized_bytes(
    channels: Channels,
    width: u32,
    height: u32,
    bytes: Seq<u8>,
    new_width: u32,
    new_height: u32,
) -> Seq<u8>;

/// The samples of a 16-bit picture resized by `image::imageops::resize` with the
/// triangle filter.
pub uninterp spec fn resized_words(
    channels: Channels,
    width: u32,
    height: u32,
    words: Seq<u16>,
    new_width: u32,
    new_height: u32,
) -> Seq<u16>;

/// The grey levels of an 8-bit picture as `image::DynamicImage::to_luma8` computes them.
pub uninterp spec fn luma_of_bytes(channels: Channels, width: u32, height: u32, bytes: Seq<u8>) -> Seq<
    u8,
>;

/// The grey levels of a 16-bit picture as `image::DynamicImage::into_luma8` computes them.
pub uninterp spec fn luma_of_words(channels: Channels, width: u32, height: u32, words: Seq<u16>) -> Seq<
    u8,
>;

/// `image::load_from_memory_with_format`, in the format `ImageFormat::from_extension`
/// gives for `extension`, with the decoded picture taken apart into channels, sample
/// size, picture size and samples. Its contract claims: the result is the one the call
/// gives for these bytes and extension, and its samples fill the picture.
#[verifier::external_body]
fn decode_picture(bytes: &[u8], extension: &str) -> (r: Option<Picture>)
    ensures
        r is None <==> decoded_picture(bytes@, extension@) is None,
        r matches Some(p) ==> decoded_picture(bytes@, extension@) == Some(
            (p.channels, p.wide, p.width, p.height, p.bytes@, p.words@),
        ) && picture_fits(p),
{
    let i = image::load_from_memory_with_format(bytes, ImageFormat::from_extension(extension)?).ok()?;
    let (channels, wide) = match i.color() {
        L8 => (Grey, false), La8 => (GreyAlpha, false), Rgb8 => (Colour, false), Rgba8 => (ColourAlpha, false),
        L16 => (Grey, true), La16 => (GreyAlpha, true), Rgb16 => (Colour, true), Rgba16 => (ColourAlpha, true),
        _ => return None,
    };
    let bytes = i.as_flat_samples_u8().map_or(vec![], |f| f.samples.to_vec());
    let words = i.as_flat_samples_u16().map_or(vec![], |f| f.samples.to_vec());
    Some(Picture { channels, wide, width: i.width(), height: i.height(), bytes, words })
}

/// `image::DynamicImage::resize_exact` with `FilterType::Triangle` (which calls
/// `image::imageops::resize`), on an 8-bit picture rebuilt from its samples with
/// `ImageBuffer::from_raw`. Its contract claims: the result is the one the call gives
/// for these arguments; it has `new_width * new_height` pixels of the same channels;
/// resizing to the same size gives the samples back; resizing an empty picture gives
/// zero samples.
#[verifier::external_body]
fn resize_bytes(channels: Channels, w: u32, h: u32, b: Vec<u8>, new_width: u32, new_height: u32) -> (r:
    Vec<u8>)
    requires
        b@.len() == w * h * channel_count(channels),
        1 <= new_width <= 0x1000,
        1 <= new_height <= 0x1000,
    ensures
        r@ == resized_bytes(channels, w, h, b@, new_width, new_height),
        r@.len() == new_width * new_height * channel_count(channels),
        w == new_width && h == new_height ==> r@ == b@,
        w == 0 || h == 0 ==> forall|i: int| 0 <= i < r@.len() ==> #[trigger] r@[i] == 0,
{
    match channels {
        Grey => ImageLuma8(B::from_raw(w, h, b).unwrap()),
        GreyAlpha => ImageLumaA8(B::from_raw(w, h, b).unwrap()),
        Colour => ImageRgb8(B::from_raw(w, h, b).unwrap()),
        ColourAlpha => ImageRgba8(B::from_raw(w, h, b).unwrap()),
    }.resize_exact(new_width, new_height, FilterType::Triangle).into_bytes()
}

/// `image::imageops::resize` with `FilterType::Triangle`, on a 16-bit picture rebuilt
/// from its samples with `ImageBuffer::from_raw`. Its contract claims: the result is
/// the one the call gives for these arguments; it has `new_width * new_height` pixels
/// of the same channels; resizing to the same size gives the samples back; resizing an
/// empty picture gives zero samples.
#[verifier::external_body]
fn resize_words(channels: Channels, w: u32, h: u32, s: Vec<u16>, x: u32, y: u32) -> (r: Vec<u16>)
    requires
        s@.len() == w * h * channel_count(channels),
        1 <= x <= 0x1000,
        1 <= y <= 0x1000,
    ensures
        r@ == resized_words(channels, w, h, s@, x, y),
        r@.len() == x * y * channel_count(channels),
        w == x && h == y ==> r@ == s@,
        w == 0 || h == 0 ==> forall|i: int| 0 <= i < r@.len() ==> #[trigger] r@[i] == 0,
{
    let t = FilterType::Triangle;
    match channels {
        Grey => resize(&B::<Luma<u16>, _>::from_raw(w, h, s).unwrap(), x, y, t).into_raw(),
        GreyAlpha => resize(&B::<LumaA<u16>, _>::from_raw(w, h, s).unwrap(), x, y, t).into_raw(),
        Colour => resize(&B::<Rgb<u16>, _>::from_raw(w, h, s).unwrap(), x, y, t).into_raw(),
        ColourAlpha => resize(&B::<Rgba<u16>, _>::from_raw(w, h, s).unwrap(), x, y, t).into_raw(),
    }
}

/// `image::DynamicImage::to_luma8`, on an 8-bit picture rebuilt from its samples with
/// `ImageBuffer::from_raw`. Its contract claims: the result is the one the call gives
/// for these arguments; it has one grey level per pixel; a grey picture is returned as
/// it is.
#[verifier::external_body]
fn luma_bytes(channels: Channels, w: u32, h: u32, b: Vec<u8>) -> (r: Vec<u8>)
    requires
        b@.len() == w * h * channel_count(channels),
    ensures
        r@ == luma_of_bytes(channels, w, h, b@),
        r@.len() == w * h,
        channels == Channels::Grey ==> r@ == b@,
{
    match channels {
        Grey => ImageLuma8(B::from_raw(w, h, b).unwrap()),
        GreyAlpha => ImageLumaA8(B::from_raw(w, h, b).unwrap()),
        Colour => ImageRgb8(B::from_raw(w, h, b).unwrap()),
        ColourAlpha => ImageRgba8(B::from_raw(w, h, b).unwrap()),
    }.to_luma8().into_raw()
}

/// `image::DynamicImage::into_luma8` (which, for a 16-bit picture, returns what
/// `to_luma8` computes), on a 16-bit picture rebuilt from its samples with
/// `ImageBuffer::from_raw`. Its contract claims: the result is the one the call gives
/// for these arguments, and it has one grey level per pixel.
#[verifier::external_body]
fn luma_words(channels: Channels, w: u32, h: u32, s: Vec<u16>) -> (r: Vec<u8>)
    requires
        s@.len() == w * h * channel_count(channels),
    ensures
        r@ == luma_of_words(channels, w, h, s@),
        r@.len() == w * h,
{
    match channels {
        Grey => ImageLuma16(B::from_raw(w, h, s).unwrap()),
        GreyAlpha => ImageLumaA16(B::from_raw(w, h, s).unwrap()),
        Colour => ImageRgb16(B::from_raw(w, h, s).unwrap()),
        ColourAlpha => ImageRgba16(B::from_raw(w, h, s).unwrap()),
    }.into_luma8().into_raw()
}

pub open spec fn is_video_extension_spec(ext: Seq<char>) -> bool {
    ||| ext == seq!['m', 'p', '4']
    ||| ext == seq!['a', 'v', 'i']
    ||| ext == seq!['m', 'o', 'v']
    ||| ext == seq!['m', 'k', 'v']
    ||| ext == seq!['w', 'e', 'b', 'm']
    ||| ext == seq!['f', 'l', 'v']
    ||| ext == seq!['m', '4', 'v']
}

pub open spec fn is_video_file_spec(path: Seq<char>) -> bool {
    match path_extension(path) {
        Some(ext) => is_video_extension_spec(lowercase(ext)),
        None => false,
    }
}

/// Whether two texts are the same.
pub fn same_text(a: &str, b: &str) -> (r: bool)
    ensures
        r == (a@ == b@),
{
    let x = chars_of(a);
    let y = chars_of(b);
    if x.len() != y.len() {
        return false;
    }
    let mut i: usize = 0;
    while i < x.len()
        invariant
            x@ == a@,
            y@ == b@,
            x@.len() == y@.len(),
            i <= x@.len(),
            forall|j: int| 0 <= j < i ==> x@[j] == y@[j],
        decreases x@.len() - i,
    {
        if x[i] != y[i] {
            return false;
        }
        i = i + 1;
    }
    assert(x@ =~= y@);
    true
}

/// Whether `ext`, already in lowercase, is one of the video extensions
/// mp4, avi, mov, mkv, webm, flv, m4v.
pub fn is_video_extension(ext: &str) -> (r: bool)
    ensures
        r == is_video_extension_spec(ext@),
        r == (ext@ == seq!['m', 'p', '4'] || ext@ == seq!['a', 'v', 'i'] || ext@ == seq!['m', 'o', 'v']
            || ext@ == seq!['m', 'k', 'v'] || ext@ == seq!['w', 'e', 'b', 'm'] || ext@ == seq![
            'f',
            'l',
            'v',
        ] || ext@ == seq!['m', '4', 'v']),
{
    proof {
        reveal_strlit("mp4");
        reveal_strlit("avi");
        reveal_strlit("mov");
        reveal_strlit("mkv");
        reveal_strlit("webm");
        reveal_strlit("flv");
        reveal_strlit("m4v");
        assert("mp4"@ =~= seq!['m', 'p', '4']);
        assert("avi"@ =~= seq!['a', 'v', 'i']);
        assert("mov"@ =~= seq!['m', 'o', 'v']);
        assert("mkv"@ =~= seq!['m', 'k', 'v']);
        assert("webm"@ =~= seq!['w', 'e', 'b', 'm']);
        assert("flv"@ =~= seq!['f', 'l', 'v']);
        assert("m4v"@ =~= seq!['m', '4', 'v']);
    }
    same_text(ext, "mp4") || same_text(ext, "avi") || same_text(ext, "mov") || same_text(
        ext,
        "mkv",
    ) || same_text(ext, "webm") || same_text(ext, "flv") || same_text(ext, "m4v")
}

/// Whether a path is a video by its documented extension, when that extension is
/// ASCII (matched without regard to letter case); `None` when it is not ASCII.
pub open spec fn documented_video(path: Seq<char>) -> Option<bool> {
    match documented_extension(path) {
        None => Some(false),
        Some(ext) => if vstd::utf8::is_ascii_chars(ext) {
            Some(is_video_extension_spec(ext.map_values(|c: char| ascii_lower(c))))
        } else {
            None
        },
    }
}

/// The video extensions are exactly mp4, avi, mov, mkv, webm, flv and m4v: each of
/// them is one, and any other text (jpg, png, an upper case form, ...) is not.
pub proof fn lemma_video_extensions_exactly(ext: Seq<char>)
    ensures
        is_video_extension_spec(seq!['m', 'p', '4']),
        is_video_extension_spec(seq!['a', 'v', 'i']),
        is_video_extension_spec(seq!['m', 'o', 'v']),
        is_video_extension_spec(seq!['m', 'k', 'v']),
        is_video_extension_spec(seq!['w', 'e', 'b', 'm']),
        is_video_extension_spec(seq!['f', 'l', 'v']),
        is_video_extension_spec(seq!['m', '4', 'v']),
        is_video_extension_spec(ext) ==> ext == seq!['m', 'p', '4'] || ext == seq!['a', 'v', 'i']
            || ext == seq!['m', 'o', 'v'] || ext == seq!['m', 'k', 'v'] || ext == seq![
            'w',
            'e',
            'b',
            'm',
        ] || ext == seq!['f', 'l', 'v'] || ext == seq!['m', '4', 'v'],
{
}

/// Whether the file at `path` is a video, by its extension, whatever its case.
pub fn is_video_file(path: &str) -> (r: bool)
    ensures
        r == is_video_file_spec(path@),
        is_portable_path(path@) && documented_video(path@) is Some ==> r == documented_video(
            path@,
        )->0,
{
    match extension_of(path) {
        Some(ext) => {
            let lower = to_lowercase(ext.as_str());
            is_video_extension(lower.as_str())
        },
        None => false,
    }
}

proof fn lemma_last_index_append(a: Seq<char>, b: Seq<char>, c: char)
    requires
        forall|i: int| 0 <= i < b.len() ==> #[trigger] b[i] != c,
    ensures
        last_index_of(a + b, c) == last_index_of(a, c),
    decreases b.len(),
{
    if b.len() == 0 {
        assert(a + b =~= a);
    } else {
        assert((a + b).drop_last() =~= a + b.drop_last());
        assert((a + b).last() == b.last());
        lemma_last_index_append(a, b.drop_last(), c);
    }
}

proof fn lemma_ascii_case(c: char)
    requires
        '\0' <= c <= '\u{7f}',
    ensures
        '\0' <= ascii_upper(c) <= '\u{7f}',
        ascii_lower(ascii_upper(c)) == ascii_lower(c),
{
}

/// The video test does not depend on the letter case of an ASCII extension: a file
/// name `stem.ext` and the same name with the extension in upper case are both
/// decided by the documented rule, the same way.
pub proof fn lemma_video_test_ignores_case(stem: Seq<char>, ext: Seq<char>)
    requires
        is_portable_path(stem),
        forall|i: int|
            0 <= i < ext.len() ==> '\0' <= #[trigger] ext[i] <= '\u{7f}' && ext[i] != '.' && ext[i]
                != '/' && ext[i] != '\\' && ext[i] != ':',
    ensures
        is_portable_path(stem + seq!['.'] + ext),
        is_portable_path(stem + seq!['.'] + ext.map_values(|c: char| ascii_upper(c))),
        ext.len() > 0 ==> documented_video(stem + seq!['.'] + ext) is Some,
        documented_video(stem + seq!['.'] + ext) == documented_video(
            stem + seq!['.'] + ext.map_values(|c: char| ascii_upper(c)),
        ),
{
    let up = ext.map_values(|c: char| ascii_upper(c));
    assert forall|i: int| 0 <= i < up.len() implies '\0' <= #[trigger] up[i] <= '\u{7f}' && up[i]
        != '.' && up[i] != '/' && up[i] != '\\' && up[i] != ':' by {
        lemma_ascii_case(ext[i]);
    }
    lemma_dotted_name(stem, ext);
    lemma_dotted_name(stem, up);
    assert(vstd::utf8::is_ascii_chars(ext));
    assert(vstd::utf8::is_ascii_chars(up));
    if ext.len() == 0 {
        assert(up =~= ext);
    } else if documented_extension(stem + seq!['.'] + ext) is Some {
        assert(ext.len() > 0 ==> documented_extension(stem + seq!['.'] + ext) == Some(ext));
        let lo1 = ext.map_values(|c: char| ascii_lower(c));
        let lo2 = up.map_values(|c: char| ascii_lower(c));
        assert forall|i: int| 0 <= i < lo1.len() implies lo1[i] == lo2[i] by {
            lemma_ascii_case(ext[i]);
        }
        assert(lo1 =~= lo2);
    }
}

/// `stem.ext`, with `ext` free of `.` and separators, is portable when `stem` is, and
/// its documented extension is `ext` when `stem`'s last component is not empty, and
/// none otherwise.
proof fn lemma_dotted_name(stem: Seq<char>, ext: Seq<char>)
    requires
        is_portable_path(stem),
        forall|i: int|
            0 <= i < ext.len() ==> '\0' <= #[trigger] ext[i] <= '\u{7f}' && ext[i] != '.' && ext[i]
                != '/' && ext[i] != '\\' && ext[i] != ':',
    ensures
        is_portable_path(stem + seq!['.'] + ext),
        ({
            let t = stem.skip(last_index_of(stem, '/') + 1);
            &&& ext.len() > 0 ==> documented_extension(stem + seq!['.'] + ext) == if t.len() == 0 {
                None::<Seq<char>>
            } else {
                Some(ext)
            }
            &&& ext.len() == 0 ==> documented_extension(stem + seq!['.'] + ext)
                == documented_extension(stem + seq!['.'])
        }),
{
    let p = stem + seq!['.'] + ext;
    let tail = seq!['.'] + ext;
    assert(p =~= stem + tail);
    assert forall|i: int| 0 <= i < p.len() implies #[trigger] p[i] != '\\' && p[i] != ':' by {
        if i < stem.len() {
            assert(p[i] == stem[i]);
        } else if i > stem.len() {
            assert(p[i] == ext[i - stem.len() - 1]);
        }
    }
    if stem.len() < 2 {
        assert(p.len() >= 2 && p[0] == '/' && p[1] == '/' ==> false) by {
            if stem.len() == 1 {
                assert(p[1] == '.');
            } else {
                assert(p[0] == '.');
            }
        }
    } else {
        assert(p[0] == stem[0] && p[1] == stem[1]);
    }
    assert forall|i: int| 0 <= i < tail.len() implies #[trigger] tail[i] != '/' by {
        if i > 0 {
            assert(tail[i] == ext[i - 1]);
        }
    }
    lemma_last_index_append(stem, tail, '/');
    lemma_last_index_range(stem, '/');
    let j = last_index_of(stem, '/');
    let t = stem.skip(j + 1);
    let seg = p.skip(j + 1);
    assert(seg =~= t + tail);
    if ext.len() > 0 {
        assert(seg.len() >= 2);
        assert(seg.last() == ext.last());
        assert(seg != seq!['.']);
        assert(seg != seq!['.', '.']) by {
            if seg == seq!['.', '.'] {
                assert(seg.last() == '.');
            }
        }
        assert(file_name_of(p) == Some(seg));
        assert forall|i: int| 0 <= i < ext.len() implies #[trigger] ext[i] != '.' by {}
        lemma_last_index_append(t.push('.'), ext, '.');
        assert(seg =~= t.push('.') + ext);
        assert(last_index_of(t.push('.'), '.') == t.len()) by {
            assert(t.push('.').last() == '.');
        }
        if t.len() > 0 {
            assert(seg.skip(t.len() + 1 as int) =~= ext);
        }
    } else {
        assert(p =~= stem + seq!['.']);
    }
}

/// The frame character of one grey level.
pub open spec fn pixel_char(p: u8) -> char {
    if p > LIT_THRESHOLD {
        '1'
    } else {
        '0'
    }
}

/// The frame line of a row-by-row list of grey levels.
pub open spec fn frame_text(pixels: Seq<u8>) -> Seq<char> {
    pixels.map_values(|p: u8| pixel_char(p))
}

/// One character per grey level: `'1'` above the threshold, `'0'` otherwise.
pub fn threshold_pixels(pixels: &Vec<u8>) -> (r: String)
    ensures
        r@ == frame_text(pixels@),
{
    let mut r = String::new();
    proof {
        reveal_strlit("1");
        reveal_strlit("0");
    }
    let mut i: usize = 0;
    while i < pixels.len()
        invariant
            i <= pixels@.len(),
            "1"@ == seq!['1'],
            "0"@ == seq!['0'],
            r@ =~= frame_text(pixels@.take(i as int)),
        decreases pixels@.len() - i,
    {
        if pixels[i] > LIT_THRESHOLD {
            r.append("1");
        } else {
            r.append("0");
        }
        assert(frame_text(pixels@.take(i + 1)) =~= frame_text(pixels@.take(i as int)).push(
            pixel_char(pixels@[i as int]),
        ));
        i = i + 1;
    }
    assert(pixels@.take(pixels@.len() as int) =~= pixels@);
    r
}

/// The frame line of a picture held as samples: resized to 8 x 8, then grey, then
/// two levels.
pub open spec fn picture_frame(
    channels: Channels,
    wide: bool,
    width: u32,
    height: u32,
    bytes: Seq<u8>,
    words: Seq<u16>,
) -> Seq<char> {
    let side = FRAME_SIDE;
    if wide {
        frame_text(luma_of_words(channels, side, side, resized_words(channels, width, height, words, side, side)))
    } else {
        frame_text(luma_of_bytes(channels, side, side, resized_bytes(channels, width, height, bytes, side, side)))
    }
}

/// The frame line of a picture: the picture is resized to 8 x 8, turned grey, and
/// each pixel becomes `'1'` or `'0'`.
pub fn convert_image_to_binary(p: Picture) -> (r: String)
    requires
        picture_fits(p),
    ensures
        r@ == picture_frame(p.channels, p.wide, p.width, p.height, p.bytes@, p.words@),
        r@.len() == FRAME_BITS,
        forall|i: int|
            0 <= i < 64 ==> (#[trigger] r@[i] == '1' || r@[i] == '0') && ((r@[i] == '1') == ((
            if p.wide {
                luma_of_words(
                    p.channels,
                    8,
                    8,
                    resized_words(p.channels, p.width, p.height, p.words@, 8, 8),
                )
            } else {
                luma_of_bytes(
                    p.channels,
                    8,
                    8,
                    resized_bytes(p.channels, p.width, p.height, p.bytes@, 8, 8),
                )
            })[i] > 128)),
        p.width == 8 && p.height == 8 && !p.wide ==> forall|i: int|
            0 <= i < 64 ==> (#[trigger] r@[i] == '1') == (luma_of_bytes(p.channels, 8, 8, p.bytes@)[i]
                > 128),
        p.width == 8 && p.height == 8 && !p.wide && p.channels == Channels::Grey ==> forall|i: int|
            0 <= i < 64 ==> (#[trigger] r@[i] == '1') == (p.bytes@[i] > 128),
{
    let Picture { channels, wide, width, height, bytes, words } = p;
    let grey = if wide {
        let small = resize_words(channels, width, height, words, FRAME_SIDE, FRAME_SIDE);
        luma_words(channels, FRAME_SIDE, FRAME_SIDE, small)
    } else {
        let small = resize_bytes(channels, width, height, bytes, FRAME_SIDE, FRAME_SIDE);
        luma_bytes(channels, FRAME_SIDE, FRAME_SIDE, small)
    };
    let r = threshold_pixels(&grey);
    proof {
        lemma_frame_text_threshold(grey@);
    }
    r
}

/// A frame line has one character per grey level, `'1'` exactly for levels above 128
/// and `'0'` for the others, in the same order.
pub proof fn lemma_frame_text_threshold(grey: Seq<u8>)
    ensures
        frame_text(grey).len() == grey.len(),
        forall|i: int|
            0 <= i < grey.len() ==> (#[trigger] frame_text(grey)[i] == '1' || frame_text(grey)[i]
                == '0') && ((frame_text(grey)[i] == '1') == (grey[i] > 128)),
{
}

/// Character `i` of the frame line of any picture is `'1'` exactly when grey level `i`
/// (row by row) of the picture resized to 8 x 8 and turned grey is above 128.
pub proof fn lemma_picture_frame_pixels(
    channels: Channels,
    wide: bool,
    width: u32,
    height: u32,
    bytes: Seq<u8>,
    words: Seq<u16>,
)
    ensures
        ({
            let grey = if wide {
                luma_of_words(channels, 8, 8, resized_words(channels, width, height, words, 8, 8))
            } else {
                luma_of_bytes(channels, 8, 8, resized_bytes(channels, width, height, bytes, 8, 8))
            };
            let line = picture_frame(channels, wide, width, height, bytes, words);
            &&& line.len() == grey.len()
            &&& forall|i: int|
                0 <= i < grey.len() ==> (#[trigger] line[i] == '1' || line[i] == '0') && ((line[i]
                    == '1') == (grey[i] > 128))
        }),
{
    if wide {
        lemma_frame_text_threshold(
            luma_of_words(channels, 8, 8, resized_words(channels, width, height, words, 8, 8)),
        );
    } else {
        lemma_frame_text_threshold(
            luma_of_bytes(channels, 8, 8, resized_bytes(channels, width, height, bytes, 8, 8)),
        );
    }
}

/// The frame line of a picture file, from its contents and its path: `None` when the
/// path has no extension or the contents do not decode in the format it names.
pub fn frame_of_file(bytes: &[u8], path: &str) -> (r: Option<String>)
    ensures
        match path_extension(path@) {
            None => r is None,
            Some(ext) => match decoded_picture(bytes@, ext) {
                None => r is None,
                Some((channels, wide, width, height, b, w)) => r matches Some(line) && line@
                    == picture_frame(channels, wide, width, height, b, w),
            },
        },
{
    match extension_of(path) {
        None => None,
        Some(ext) => match decode_picture(bytes, ext.as_str()) {
            None => None,
            Some(picture) => Some(convert_image_to_binary(picture)),
        },
    }
}

pub open spec fn is_frame_file_name_spec(name: Seq<char>) -> bool {
    &&& name.len() >= 6
    &&& name.take(6) == seq!['f', 'r', 'a', 'm', 'e', '_']
    &&& name.len() >= 4
    &&& name.skip(name.len() - 4) == seq!['.', 'p', 'n', 'g']
}

/// A name is a frame file name exactly when it is `frame_`, then any text, then `.png`.
pub proof fn lemma_frame_file_names(name: Seq<char>, middle: Seq<char>)
    ensures
        is_frame_file_name_spec(
            seq!['f', 'r', 'a', 'm', 'e', '_'] + middle + seq!['.', 'p', 'n', 'g'],
        ),
        is_frame_file_name_spec(name) <==> exists|m: Seq<char>|
            name == seq!['f', 'r', 'a', 'm', 'e', '_'] + m + seq!['.', 'p', 'n', 'g'],
{
    let pre = seq!['f', 'r', 'a', 'm', 'e', '_'];
    let suf = seq!['.', 'p', 'n', 'g'];
    let full = pre + middle + suf;
    assert(full.take(6) =~= pre);
    assert(full.skip(full.len() - 4) =~= suf);
    if is_frame_file_name_spec(name) {
        assert(name.len() >= 10) by {
            if name.len() < 10 {
                let k = name.len() - 4;
                assert(name.skip(k)[0] == name[k]);
                assert(name.take(6)[k] == name[k]);
                assert(name[k] == '.');
            }
        }
        let m = name.subrange(6, name.len() - 4);
        assert(name =~= pre + m + suf) by {
            assert forall|i: int| 0 <= i < name.len() implies name[i] == (pre + m + suf)[i] by {
                if i < 6 {
                    assert(name.take(6)[i] == name[i]);
                } else if i >= name.len() - 4 {
                    assert(name.skip(name.len() - 4)[i - (name.len() - 4)] == name[i]);
                }
            }
        }
    }
    if exists|m: Seq<char>| name == pre + m + suf {
        let m = choose|m: Seq<char>| name == pre + m + suf;
        assert(name.take(6) =~= pre);
        assert(name.skip(name.len() - 4) =~= suf);
    }
}

/// Whether a file name is one of the extracted frames: `frame_...png`.
pub fn is_frame_file_name(name: &str) -> (r: bool)
    ensures
        r == is_frame_file_name_spec(name@),
{
    let c = chars_of(name);
    let n = c.len();
    if n < 6 {
        return false;
    }
    let starts = c[0] == 'f' && c[1] == 'r' && c[2] == 'a' && c[3] == 'm' && c[4] == 'e' && c[5]
        == '_';
    let ends = c[n - 4] == '.' && c[n - 3] == 'p' && c[n - 2] == 'n' && c[n - 1] == 'g';
    assert(starts == (name@.take(6) =~= seq!['f', 'r', 'a', 'm', 'e', '_']));
    assert(ends == (name@.skip(n - 4) =~= seq!['.', 'p', 'n', 'g']));
    starts && ends
}

/// The order of texts: character by character, by code point, a proper prefix
/// coming first. It is the order of `String` (UTF-8 preserves code point order).
pub open spec fn text_le(a: Seq<char>, b: Seq<char>) -> bool
    decreases a.len(),
{
    if a.len() == 0 {
        true
    } else if b.len() == 0 {
        false
    } else if a[0] != b[0] {
        (a[0] as u32) < (b[0] as u32)
    } else {
        text_le(a.drop_first(), b.drop_first())
    }
}

/// Any two texts are ordered one way or the other.
pub proof fn lemma_text_le_total(a: Seq<char>, b: Seq<char>)
    ensures
        text_le(a, b) || text_le(b, a),
    decreases a.len(),
{
    if a.len() > 0 && b.len() > 0 && a[0] == b[0] {
        lemma_text_le_total(a.drop_first(), b.drop_first());
    } else if a.len() > 0 && b.len() > 0 {
        vstd::utf8::char_u32_cast(a[0], a[0] as u32);
        vstd::utf8::char_u32_cast(b[0], b[0] as u32);
    }
}

/// The order of texts is transitive.
pub proof fn lemma_text_le_transitive(a: Seq<char>, b: Seq<char>, c: Seq<char>)
    requires
        text_le(a, b),
        text_le(b, c),
    ensures
        text_le(a, c),
    decreases a.len(),
{
    if a.len() > 0 && b.len() > 0 && c.len() > 0 && a[0] == b[0] && b[0] == c[0] {
        lemma_text_le_transitive(a.drop_first(), b.drop_first(), c.drop_first());
    }
}

/// The order of texts is that of `String`: a proper prefix comes first, and texts
/// that first differ at position `i` are ordered by the code points at `i`.
pub proof fn lemma_text_le_is_string_order(a: Seq<char>, b: Seq<char>, i: int)
    ensures
        a.len() <= b.len() && b.take(a.len() as int) == a ==> text_le(a, b),
        0 <= i < a.len() && i < b.len() && a.take(i) == b.take(i) && a[i] != b[i] ==> (text_le(a, b)
            <==> (a[i] as u32) < (b[i] as u32)),
    decreases a.len(),
{
    if a.len() > 0 && b.len() > 0 {
        if a.len() <= b.len() && b.take(a.len() as int) == a {
            assert(a[0] == b.take(a.len() as int)[0]);
            assert(b.drop_first().take(a.drop_first().len() as int) =~= a.drop_first());
            lemma_text_le_is_string_order(a.drop_first(), b.drop_first(), i - 1);
        }
        if 0 <= i < a.len() && i < b.len() && a.take(i) == b.take(i) && a[i] != b[i] {
            if i > 0 {
                assert(a[0] == a.take(i)[0] && b[0] == b.take(i)[0]);
                assert(a.drop_first().take(i - 1) =~= b.drop_first().take(i - 1)) by {
                    assert forall|k: int| 0 <= k < i - 1 implies #[trigger] a.drop_first().take(
                        i - 1,
                    )[k] == b.drop_first().take(i - 1)[k] by {
                        assert(a.take(i)[k + 1] == b.take(i)[k + 1]);
                    }
                }
                lemma_text_le_is_string_order(a.drop_first(), b.drop_first(), i - 1);
            }
        }
    }
}

/// Whether `a` comes before `b`, or equals it.
pub fn text_le_exec(a: &String, b: &String) -> (r: bool)
    ensures
        r == text_le(a@, b@),
{
    let x = chars_of(a.as_str());
    let y = chars_of(b.as_str());
    let mut i: usize = 0;
    assert(x@.skip(0) =~= x@);
    assert(y@.skip(0) =~= y@);
    while i < x.len() && i < y.len()
        invariant
            x@ == a@,
            y@ == b@,
            i <= x@.len(),
            i <= y@.len(),
            text_le(a@, b@) == text_le(x@.skip(i as int), y@.skip(i as int)),
        decreases x@.len() - i,
    {
        if x[i] != y[i] {
            return (x[i] as u32) < (y[i] as u32);
        }
        assert(x@.skip(i as int).drop_first() =~= x@.skip(i + 1));
        assert(y@.skip(i as int).drop_first() =~= y@.skip(i + 1));
        i = i + 1;
    }
    i == x.len()
}

pub open spec fn is_sorted_texts(v: Seq<String>) -> bool {
    forall|p: int, q: int| 0 <= p < q < v.len() ==> text_le(#[trigger] v[p]@, #[trigger] v[q]@)
}

/// The frame files in order: the same names, sorted (`frame_0001.png` first).
pub fn sort_frame_files(files: &Vec<String>) -> (r: Vec<String>)
    ensures
        r@.to_multiset() == files@.to_multiset(),
        is_sorted_texts(r@),
{
    broadcast use vstd::seq_lib::to_multiset_build, vstd::seq_lib::to_multiset_insert;

    let mut r: Vec<String> = Vec::new();
    let mut i: usize = 0;
    assert(files@.take(0) =~= Seq::<String>::empty());
    while i < files.len()
        invariant
            i <= files@.len(),
            r@.to_multiset() == files@.take(i as int).to_multiset(),
            is_sorted_texts(r@),
        decreases files@.len() - i,
    {
        let f = files[i].clone();
        let mut j: usize = 0;
        while j < r.len() && text_le_exec(&r[j], &f)
            invariant
                j <= r@.len(),
                forall|k: int| 0 <= k < j ==> text_le(#[trigger] r@[k]@, f@),
            decreases r@.len() - j,
        {
            j = j + 1;
        }
        proof {
            if j < r@.len() {
                lemma_text_le_total(r@[j as int]@, f@);
            }
        }
        let ghost before = r@;
        r.insert(j, f);
        proof {
            assert(files@.take(i + 1) =~= files@.take(i as int).push(files@[i as int]));
            vstd::seq_lib::to_multiset_build(files@.take(i as int), files@[i as int]);
            vstd::seq_lib::to_multiset_insert(before, j as int, f);
            assert(f == files@[i as int]);
            assert(r@ == before.insert(j as int, f));
            assert forall|p: int, q: int| 0 <= p < q < r@.len() implies text_le(
                #[trigger] r@[p]@,
                #[trigger] r@[q]@,
            ) by {
                if q == j {
                    assert(r@[p] == before[p]);
                } else if p == j {
                    assert(r@[q] == before[q - 1]);
                    if q - 1 > j {
                        lemma_text_le_transitive(f@, before[j as int]@, before[q - 1]@);
                    }
                } else {
                    let pp = if p < j { p } else { p - 1 };
                    let qq = if q < j { q } else { q - 1 };
                    assert(r@[p] == before[pp]);
                    assert(r@[q] == before[qq]);
                }
            }
        }
        i = i + 1;
    }
    assert(files@.take(files@.len() as int) =~= files@);
    r
}

/// Whether the sender tries again after connection attempt `attempt` (counted from 1) failed.
pub fn retry_after_failure(attempt: u32) -> (r: bool)
    ensures
        r == (attempt < CONNECT_ATTEMPTS),
{
    attempt < CONNECT_ATTEMPTS
}

/// Whether the sender reports its progress once `frames_sent` frames are out.
pub fn reports_progress(frames_sent: usize) -> (r: bool)
    ensures
        r == (frames_sent % PROGRESS_EVERY == 0),
{
    frames_sent % PROGRESS_EVERY == 0
}

/// Every line that the sender makes from 64 grey levels, received by a running
/// controller, is held as it is (it has no surrounding white space), passes the frame
/// check, and is drawn next as the bitmap whose pixel (`row`, `col`) is set exactly
/// when grey level `8 * row + col` is above the threshold.
pub proof fn lemma_sent_frame_is_drawn(v: ControllerView, pixels: Seq<u8>)
    requires
        v.running,
        pixels.len() == FRAME_BITS,
    ensures
        after_update(v, frame_text(pixels)).frame == frame_text(pixels),
        step_of(after_update(v, frame_text(pixels))) == FrameStep::Draw(
            binary_u64(frame_text(pixels))->0,
        ),
        frame_check(frame_text(pixels)) is Ok,
        forall|row: u8, col: u8|
            row < 8 && col < 8 ==> #[trigger] pixel(binary_u64(frame_text(pixels))->0, row, col)
                == (pixels[8 * row + col] > LIT_THRESHOLD),
{
    let s = frame_text(pixels);
    assert(all_binary(s)) by {
        assert forall|i: int| 0 <= i < s.len() implies #[trigger] is_binary_digit(s[i]) by {}
    }
    assert(vstd::utf8::is_ascii_chars(s)) by {
        assert forall|i: int| 0 <= i < s.len() implies '\0' <= #[trigger] s[i] <= '\u{7f}' by {
            assert(is_binary_digit(s[i]));
        }
    }
    vstd::utf8::is_ascii_chars_encode_utf8(s);
    assert(frame_check(s) is Ok);
    crate::display_controller::lemma_valid_line_is_drawn(s);
    assert(!is_white_space(s[0]));
    assert(trimmed_start(s) == s);
    assert(!is_white_space(s.last()));
    assert(trimmed_end(s) == s);
    assert forall|row: u8, col: u8| row < 8 && col < 8 implies #[trigger] pixel(
        binary_u64(s)->0,
        row,
        col,
    ) == (pixels[8 * row + col] > LIT_THRESHOLD) by {
        lemma_frame_pixels(s, row, col);
    }
}

} // verus!
