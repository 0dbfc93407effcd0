//! Pictures as rows of pixels: decoding, resizing, and the frames of animated
//! ones.
use vstd::prelude::*;
use crate::disk;
use crate::disk::bytes_of_data;
use crate::path;
use crate::path::extension;
use crate::shared;
use crate::shared::join;
use crate::text;
use crate::text::{contains_char, owned, same_text, starts_with, texts_contain, trim};

verus! {

/// A picture: its pixels row by row, each of four bytes (red, green, blue and
/// alpha).
pub struct Picture {
    pub width: u32,
    pub height: u32,
    pub pixels: Vec<u8>,
}

/// The model of a `Picture`.
pub struct PictureView {
    pub width: u32,
    pub height: u32,
    pub pixels: Seq<u8>,
}

impl View for Picture {
    type V = PictureView;

    open spec fn view(&self) -> PictureView {
        PictureView { width: self.width, height: self.height, pixels: self.pixels@ }
    }
}

impl PictureView {
    /// There are as many pixels as the size says.
    pub open spec fn wf(self) -> bool {
        self.pixels.len() == self.width * self.height * 4
    }
}

// ---------------------------------------------------------------------------
// Decoding
// ---------------------------------------------------------------------------

/// A frame of a GIF, with its delay as a fraction of milliseconds.
pub struct GifFrame {
    pub numer: u32,
    pub denom: u32,
    pub picture: Picture,
}

/// The model of a `GifFrame`.
pub struct GifFrameView {
    pub numer: u32,
    pub denom: u32,
    pub picture: PictureView,
}

impl View for GifFrame {
    type V = GifFrameView;

    open spec fn view(&self) -> GifFrameView {
        GifFrameView { numer: self.numer, denom: self.denom, picture: self.picture@ }
    }
}

/// The models of frames.
pub open spec fn gif_frames(s: Seq<GifFrame>) -> Seq<GifFrameView> {
    s.map_values(|f: GifFrame| f@)
}

/// The frames of the GIF that bytes hold; `None` where they cannot be read.
pub uninterp spec fn decoded_gif(bytes: Seq<u8>) -> Option<Seq<GifFrameView>>;

/// `GifDecoder::new`, `into_frames` and `collect_frames` of the `image` crate:
/// all frames of a GIF, a function of its bytes; `None` where one of them gives
/// an error. A frame has as many pixels as its size says, and neither side of
/// it exceeds what a GIF can express.
#[verifier::external_body]
fn read_gif(bytes: &[u8]) -> (r: Option<Vec<GifFrame>>)
    ensures
        match r {
            Some(f) => decoded_gif(bytes@) == Some(gif_frames(f@)) && forall|k: int|
                0 <= k < f@.len() ==> (#[trigger] f@[k]).picture@.wf() && f@[k].picture.width
                    <= 65535 && f@[k].picture.height <= 65535,
            None => decoded_gif(bytes@) is None,
        },
{
    let decoder = image::codecs::gif::GifDecoder::new(std::io::Cursor::new(bytes)).ok()?;
    let frames = image::AnimationDecoder::into_frames(decoder).collect_frames().ok()?;
    let convert = |f: image::Frame| {
        let (numer, denom) = f.delay().numer_denom_ms();
        let b = f.into_buffer();
        let picture = Picture { width: b.width(), height: b.height(), pixels: b.into_raw() };
        GifFrame { numer, denom, picture }
    };
    Some(frames.into_iter().map(convert).collect())
}

/// The picture that bytes hold, with red, green, blue and alpha in a byte each;
/// `None` where they cannot be read.
pub uninterp spec fn decoded_picture(bytes: Seq<u8>) -> Option<PictureView>;

/// The model of a picture that there may be.
pub open spec fn opt_picture(p: Option<Picture>) -> Option<PictureView> {
    match p {
        Some(x) => Some(x@),
        None => None,
    }
}

/// `load_from_memory` of the `image` crate and `DynamicImage::into_rgba8`: the
/// picture that bytes hold, a function of them; `None` where the first gives an
/// error. The picture has as many pixels as its size says.
#[verifier::external_body]
fn read_picture(bytes: &[u8]) -> (r: Option<Picture>)
    ensures
        opt_picture(r) == decoded_picture(bytes@),
        r matches Some(p) ==> p@.wf(),
{
    let image = image::load_from_memory(bytes).ok()?.into_rgba8();
    Some(Picture { width: image.width(), height: image.height(), pixels: image.into_raw() })
}

/// What the file with the given bytes and extension holds: the number of channels
/// of its colors, and its picture with red, green, blue and alpha in a byte each.
/// `None` where no picture goes by that extension, or the bytes are none of its
/// form.
pub uninterp spec fn decoded_file(bytes: Seq<u8>, extension: Seq<char>) -> Option<
    (u8, PictureView),
>;

/// The picture of a file.
pub struct FilePicture {
    pub channels: u8,
    pub picture: Picture,
}

/// The model of the picture of a file that there may be.
pub open spec fn opt_file(p: Option<FilePicture>) -> Option<(u8, PictureView)> {
    match p {
        Some(x) => Some((x.channels, x.picture@)),
        None => None,
    }
}

/// `ImageFormat::from_extension` and `load_from_memory_with_format` of the `image`
/// crate, `ColorType::channel_count` and `DynamicImage::into_rgba8`: the picture
/// that bytes hold in the form that an extension stands for, a function of the
/// two; `None` where no form goes by the extension or the second gives an error.
/// The picture has as many pixels as its size says.
#[verifier::external_body]
pub(crate) fn read_file(bytes: &[u8], extension: &str) -> (r: Option<FilePicture>)
    ensures
        opt_file(r) == decoded_file(bytes@, extension@),
        r matches Some(p) ==> p.picture@.wf(),
{
    let format = image::ImageFormat::from_extension(extension)?;
    let decoded = image::load_from_memory_with_format(bytes, format).ok()?;
    let channels = decoded.color().channel_count();
    let image = decoded.into_rgba8();
    let (width, height) = (image.width(), image.height());
    Some(FilePicture { channels, picture: Picture { width, height, pixels: image.into_raw() } })
}

/// The number of channels of a PNG.
pub open spec fn png_channels(bytes: Seq<u8>) -> Option<u8> {
    match decoded_file(bytes, "png"@) {
        Some(d) => Some(d.0),
        None => None,
    }
}

/// The picture of a file with the given bytes and extension, if it has one.
pub open spec fn file_picture(bytes: Seq<u8>, extension: Option<Seq<char>>) -> Option<PictureView> {
    match extension {
        Some(e) => match decoded_file(bytes, e) {
            Some(d) => Some(d.1),
            None => None,
        },
        None => None,
    }
}

fn read_file_picture(bytes: &[u8], extension: &Option<String>) -> (r: Option<Picture>)
    ensures
        opt_picture(r) == file_picture(bytes@, text::opt_text(*extension)),
        r matches Some(p) ==> p@.wf(),
{
    match extension {
        Some(e) => match read_file(bytes, e) {
            Some(p) => Some(p.picture),
            None => None,
        },
        None => None,
    }
}

/// Bytes that begin as a GIF does.
pub open spec fn gif_signature(bytes: Seq<u8>) -> bool {
    bytes.len() >= 6 && bytes[0] == 71 && bytes[1] == 73 && bytes[2] == 70
}

/// Whether bytes begin as a GIF does.
pub fn is_gif(bytes: &[u8]) -> (r: bool)
    ensures
        r == gif_signature(bytes@),
{
    bytes.len() >= 6 && bytes[0] == 71 && bytes[1] == 73 && bytes[2] == 70
}

// ---------------------------------------------------------------------------
// Frames
// ---------------------------------------------------------------------------

pub const MAX_FRAMES: usize = 300;

/// The shortest delay of a frame, in milliseconds: about 30 frames in a second.
pub const MIN_FRAME_DELAY: u64 = 33;

/// The longest delay of a frame, in milliseconds.
pub const MAX_FRAME_DELAY: u64 = 2000;

/// A frame that is shown for `delay` milliseconds.
pub struct PreparedFrame {
    pub delay: u64,
    pub image: Picture,
}

/// The model of a `PreparedFrame`.
pub struct FrameView {
    pub delay: u64,
    pub image: PictureView,
}

impl View for PreparedFrame {
    type V = FrameView;

    open spec fn view(&self) -> FrameView {
        FrameView { delay: self.delay, image: self.image@ }
    }
}

/// The models of frames.
pub open spec fn frames_view(s: Seq<PreparedFrame>) -> Seq<FrameView> {
    s.map_values(|f: PreparedFrame| f@)
}

/// The delay of a frame: rounded to the nearest millisecond, and held to the
/// shortest and the longest delay.
pub open spec fn delay_of(numer: u32, denom: u32) -> u64 {
    let exact = if denom == 0 {
        MIN_FRAME_DELAY as int
    } else {
        (numer + denom / 2) / denom as int
    };
    if exact < MIN_FRAME_DELAY {
        MIN_FRAME_DELAY
    } else if exact > MAX_FRAME_DELAY {
        MAX_FRAME_DELAY
    } else {
        exact as u64
    }
}

/// The delay of a frame, in milliseconds.
pub fn frame_delay(numer: u32, denom: u32) -> (r: u64)
    ensures
        r == delay_of(numer, denom),
{
    let exact: u64 = if denom == 0 {
        MIN_FRAME_DELAY
    } else {
        (numer as u64 + denom as u64 / 2) / denom as u64
    };
    if exact < MIN_FRAME_DELAY {
        MIN_FRAME_DELAY
    } else if exact > MAX_FRAME_DELAY {
        MAX_FRAME_DELAY
    } else {
        exact
    }
}

/// The frames that are shown of a GIF: the first ones, with their delays.
pub open spec fn shown_frames(s: Seq<GifFrameView>) -> Seq<FrameView> {
    Seq::new(
        if s.len() < MAX_FRAMES {
            s.len()
        } else {
            MAX_FRAMES as nat
        },
        |k: int| FrameView { delay: delay_of(s[k].numer, s[k].denom), image: s[k].picture },
    )
}

/// Why bytes hold no picture.
#[derive(Clone, Copy, PartialEq, Eq, Structural, Debug)]
pub enum PictureError {
    Unreadable,
    NoFrames,
}

/// The frames of a GIF, of which there are not too many.
pub fn decode_gif(bytes: &[u8]) -> (r: Result<Vec<PreparedFrame>, PictureError>)
    ensures
        match decoded_gif(bytes@) {
            None => r == Err::<Vec<PreparedFrame>, PictureError>(PictureError::Unreadable),
            Some(f) => if f.len() == 0 {
                r == Err::<Vec<PreparedFrame>, PictureError>(PictureError::NoFrames)
            } else {
                r is Ok && frames_view(r->Ok_0@) == shown_frames(f)
            },
        },
        r matches Ok(f) ==> forall|k: int|
            0 <= k < f@.len() ==> (#[trigger] f@[k]).image@.wf() && f@[k].image.width <= 65535
                && f@[k].image.height <= 65535,
{
    match read_gif(bytes) {
        None => Err(PictureError::Unreadable),
        Some(frames) => {
            let ghost all = frames@;
            let r = prepare_gif(frames);
            proof {
                if r is Ok {
                    let f = r->Ok_0@;
                    assert(frames_view(f).len() == f.len());
                    assert(gif_frames(all).len() == all.len());
                    assert forall|k: int| 0 <= k < f.len() implies (#[trigger] f[k]).image@.wf()
                        && f[k].image.width <= 65535 && f[k].image.height <= 65535 by {
                        assert(frames_view(f)[k] == f[k]@);
                        assert(gif_frames(all)[k] == all[k]@);
                    }
                }
            }
            r
        },
    }
}

/// The frames that are shown of the frames of a GIF.
pub fn prepare_gif(frames: Vec<GifFrame>) -> (r: Result<Vec<PreparedFrame>, PictureError>)
    ensures
        frames@.len() == 0 ==> r == Err::<Vec<PreparedFrame>, PictureError>(
            PictureError::NoFrames,
        ),
        frames@.len() > 0 ==> r is Ok && frames_view(r->Ok_0@) == shown_frames(
            gif_frames(frames@),
        ),
{
    if frames.len() == 0 {
        return Err(PictureError::NoFrames);
    }
    let ghost all = gif_frames(frames@);
    let n: usize = if frames.len() < MAX_FRAMES {
        frames.len()
    } else {
        MAX_FRAMES
    };
    let mut out: Vec<PreparedFrame> = Vec::new();
    let mut k: usize = 0;
    while k < n
        invariant
            k <= n <= frames@.len(),
            out@.len() == k,
            all == gif_frames(frames@),
            forall|j: int|
                0 <= j < k ==> (#[trigger] out@[j])@ == (FrameView {
                    delay: delay_of(all[j].numer, all[j].denom),
                    image: all[j].picture,
                }),
        decreases n - k,
    {
        assert(all[k as int] == frames@[k as int]@);
        let f = &frames[k];
        out.push(
            PreparedFrame { delay: frame_delay(f.numer, f.denom), image: f.picture.copy() },
        );
        k = k + 1;
    }
    assert(frames_view(out@) =~= shown_frames(all));
    Ok(out)
}

impl Picture {
    /// A copy of the picture.
    pub fn copy(&self) -> (r: Picture)
        ensures
            r@ == self@,
    {
        Picture {
            width: self.width,
            height: self.height,
            pixels: vstd::slice::slice_to_vec(self.pixels.as_slice()),
        }
    }
}

/// What bytes hold.
pub enum Shown {
    Still(Picture),
    /// At least two frames.
    Animated(Vec<PreparedFrame>),
}

/// The model of a `Shown`.
pub enum ShownView {
    Still(PictureView),
    Animated(Seq<FrameView>),
}

impl View for Shown {
    type V = ShownView;

    open spec fn view(&self) -> ShownView {
        match self {
            Shown::Still(p) => ShownView::Still(p@),
            Shown::Animated(f) => ShownView::Animated(frames_view(f@)),
        }
    }
}

/// What is shown of the frames of a GIF, if it has any, and of the picture, if
/// the bytes hold one. A GIF of one frame is shown as a still picture.
pub open spec fn choice(
    gif: bool,
    frames: Option<Seq<GifFrameView>>,
    still: Option<PictureView>,
) -> Result<ShownView, PictureError> {
    if gif && frames is None {
        Err(PictureError::Unreadable)
    } else if gif && frames->0.len() == 0 {
        Err(PictureError::NoFrames)
    } else if gif && frames->0.len() > 1 {
        Ok(ShownView::Animated(shown_frames(frames->0)))
    } else {
        match still {
            Some(p) => Ok(ShownView::Still(p)),
            None => Err(PictureError::Unreadable),
        }
    }
}

/// The model of a result.
pub open spec fn result_view(r: Result<Shown, PictureError>) -> Result<ShownView, PictureError> {
    match r {
        Ok(s) => Ok(s@),
        Err(e) => Err(e),
    }
}

/// Puts together what is shown: an animation, or else the still picture.
fn choose_shown(bytes: &[u8], still: Option<Picture>) -> (r: Result<Shown, PictureError>)
    ensures
        result_view(r) == choice(
            gif_signature(bytes@),
            decoded_gif(bytes@),
            opt_picture(still),
        ),
{
    if is_gif(bytes) {
        match decode_gif(bytes) {
            Ok(frames) => {
                assert(frames_view(frames@).len() == frames@.len());
                if frames.len() > 1 {
                    return Ok(Shown::Animated(frames));
                }
            },
            Err(e) => {
                return Err(e);
            },
        }
    }
    match still {
        Some(p) => Ok(Shown::Still(p)),
        None => Err(PictureError::Unreadable),
    }
}

/// What bytes hold: an animation, or else a still picture of any form.
pub fn read_shown(bytes: &[u8]) -> (r: Result<Shown, PictureError>)
    ensures
        result_view(r) == choice(
            gif_signature(bytes@),
            decoded_gif(bytes@),
            decoded_picture(bytes@),
        ),
{
    choose_shown(bytes, read_picture(bytes))
}

/// What the bytes of a file hold: an animation, or else a still picture of the
/// form that the extension of the file stands for.
pub fn read_shown_file(bytes: &[u8], extension: &Option<String>) -> (r: Result<
    Shown,
    PictureError,
>)
    ensures
        result_view(r) == choice(
            gif_signature(bytes@),
            decoded_gif(bytes@),
            file_picture(bytes@, text::opt_text(*extension)),
        ),
{
    choose_shown(bytes, read_file_picture(bytes, extension))
}

// ---------------------------------------------------------------------------
// Resizing
// ---------------------------------------------------------------------------

/// How a picture is brought to a size.
#[derive(Clone, Copy, PartialEq, Eq, Structural, Debug)]
pub enum ResizeMode {
    /// To exactly that size.
    Exact,
    /// To the largest size within it that keeps the proportions.
    Fit,
}

/// The size that pictures are brought to.
#[derive(Clone, Copy, PartialEq, Eq, Structural, Debug)]
pub struct Target {
    pub width: u32,
    pub height: u32,
    pub resize_mode: ResizeMode,
}

/// The pixels of a picture of the first size when it is brought to the second.
pub uninterp spec fn resampled(pixels: Seq<u8>, w: u32, h: u32, nw: u32, nh: u32) -> Seq<u8>;

/// Both pictures, and the one of the new height between them, can be held.
pub open spec fn can_resize(p: PictureView, nw: u32, nh: u32) -> bool {
    p.wf() && nw > 0 && nh > 0 && nw * nh <= 0x1000_0000 && p.width * nh <= 0x1000_0000
}

/// `DynamicImage::resize_exact` of the `image` crate with the filter `Nearest`: a
/// picture of exactly the new size, whose pixels are a function of those of the
/// picture and of the two sizes.
#[verifier::external_body]
fn resize_exact(p: &Picture, nw: u32, nh: u32) -> (r: Picture)
    requires
        can_resize(p@, nw, nh),
    ensures
        r@.wf(),
        r.width == nw,
        r.height == nh,
        r@.pixels == resampled(p@.pixels, p.width, p.height, nw, nh),
{
    let image = image::RgbaImage::from_raw(p.width, p.height, p.pixels.clone()).unwrap();
    let filter = image::imageops::FilterType::Nearest;
    let out = image::DynamicImage::ImageRgba8(image).resize_exact(nw, nh, filter).into_rgba8();
    Picture { width: out.width(), height: out.height(), pixels: out.into_raw() }
}

/// A picture of the first size when it is fitted into the second.
pub uninterp spec fn fitted(pixels: Seq<u8>, w: u32, h: u32, nw: u32, nh: u32) -> (u32, u32, Seq<u8>);

/// `DynamicImage::resize` of the `image` crate with the filter `Nearest`: a
/// picture that fits into the new size, a function of the picture and of the
/// size.
#[verifier::external_body]
fn resize_fit(p: &Picture, nw: u32, nh: u32) -> (r: Picture)
    requires
        can_resize(p@, nw, nh),
        p.width > 0,
        p.height > 0,
    ensures
        r@.wf(),
        r.width <= nw,
        r.height <= nh,
        (r.width, r.height, r@.pixels) == fitted(p@.pixels, p.width, p.height, nw, nh),
{
    let image = image::RgbaImage::from_raw(p.width, p.height, p.pixels.clone()).unwrap();
    let filter = image::imageops::FilterType::Nearest;
    let out = image::DynamicImage::ImageRgba8(image).resize(nw, nh, filter).into_rgba8();
    Picture { width: out.width(), height: out.height(), pixels: out.into_raw() }
}

/// A picture brought to a size.
pub open spec fn resized(p: PictureView, t: Target) -> PictureView {
    match t.resize_mode {
        ResizeMode::Exact => PictureView {
            width: t.width,
            height: t.height,
            pixels: resampled(p.pixels, p.width, p.height, t.width, t.height),
        },
        ResizeMode::Fit => {
            let f = fitted(p.pixels, p.width, p.height, t.width, t.height);
            PictureView { width: f.0, height: f.1, pixels: f.2 }
        },
    }
}

/// A picture can be brought to a size.
pub open spec fn can_target(p: PictureView, t: Target) -> bool {
    can_resize(p, t.width, t.height) && p.width > 0 && p.height > 0
}

/// Brings a picture to a size.
pub fn resize(p: &Picture, t: Target) -> (r: Picture)
    requires
        can_target(p@, t),
    ensures
        r@ == resized(p@, t),
        r@.wf(),
        r.width <= t.width,
        r.height <= t.height,
        t.resize_mode == ResizeMode::Exact ==> r.width == t.width && r.height == t.height,
{
    match t.resize_mode {
        ResizeMode::Exact => resize_exact(p, t.width, t.height),
        ResizeMode::Fit => resize_fit(p, t.width, t.height),
    }
}

/// Frames brought to a size, with their delays.
pub open spec fn resized_frames(s: Seq<FrameView>, t: Target) -> Seq<FrameView> {
    s.map_values(|f: FrameView| FrameView { delay: f.delay, image: resized(f.image, t) })
}

/// Brings decoded frames to the size of a device's key or display. Labels are
/// drawn on them afterwards, so that their text is not resized.
pub fn prepare_frames(frames: &Vec<PreparedFrame>, target: Target) -> (r: Vec<PreparedFrame>)
    requires
        forall|k: int| 0 <= k < frames@.len() ==> can_target((#[trigger] frames@[k]).image@, target),
    ensures
        frames_view(r@) == resized_frames(frames_view(frames@), target),
        forall|k: int| 0 <= k < r@.len() ==> (#[trigger] r@[k]).image@.wf(),
{
    let mut out: Vec<PreparedFrame> = Vec::new();
    let mut k: usize = 0;
    while k < frames.len()
        invariant
            k <= frames@.len(),
            out@.len() == k,
            forall|j: int|
                0 <= j < frames@.len() ==> can_target((#[trigger] frames@[j]).image@, target),
            forall|j: int|
                0 <= j < k ==> (#[trigger] out@[j])@ == (FrameView {
                    delay: frames@[j].delay,
                    image: resized(frames@[j].image@, target),
                }) && out@[j].image@.wf(),
        decreases frames@.len() - k,
    {
        let image = resize(&frames[k].image, target);
        out.push(PreparedFrame { delay: frames[k].delay, image });
        k = k + 1;
    }
    assert(frames_view(out@) =~= resized_frames(frames_view(frames@), target));
    out
}

// ---------------------------------------------------------------------------
// SVG
// ---------------------------------------------------------------------------

/// What `usvg::Tree::from_data` and `Tree::size` find in data: `None` where it is
/// no SVG; else, where the root element says its size (it has a view box, or both
/// a width and a height that are no percentages), that size, cut to whole pixels.
/// An SVG that does not say it is as large as what it shows, for which it may take
/// pictures from files.
pub uninterp spec fn parsed_svg(data: Seq<u8>) -> Option<Option<(u32, u32)>>;

/// `usvg::Tree::from_data` and `Tree::size`: the size of an SVG picture, cut to
/// whole pixels; `None` where the data is no SVG. Whether it is one rests on the
/// data alone, and so does a size that it says itself. Of another size nothing is
/// claimed.
#[verifier::external_body]
fn svg_size(data: &[u8]) -> (r: Option<(u32, u32)>)
    ensures
        r is Some == parsed_svg(data@) is Some,
        parsed_svg(data@) matches Some(Some(size)) ==> r == Some(size),
{
    let tree = resvg::usvg::Tree::from_data(data, &resvg::usvg::Options::default()).ok()?;
    Some((tree.size().width() as u32, tree.size().height() as u32))
}

/// There can be a picture of the given size to draw on: it has pixels, the bytes
/// of a row are counted by an `i32`, and all bytes can be allocated at once.
pub open spec fn can_draw(width: u32, height: u32) -> bool {
    0 < width && 0 < height && width * 4 <= i32::MAX && width * height * 4 <= isize::MAX
}

/// Whether an SVG can be drawn at the given size.
pub fn can_draw_svg(width: u32, height: u32) -> (r: bool)
    ensures
        r == can_draw(width, height),
{
    assert(0 <= width * height <= 0xffff_ffff * 0xffff_ffff) by (nonlinear_arith)
        requires
            0 <= width <= 0xffff_ffff,
            0 <= height <= 0xffff_ffff,
    ;
    let bytes: u128 = (width as u128) * (height as u128) * 4;
    0 < width && 0 < height && (width as u64) * 4 <= i32::MAX as u64 && bytes <= isize::MAX as u128
}

/// `usvg::Tree::from_data`, `tiny_skia::Pixmap::new` and `resvg::render`: an SVG
/// drawn into a picture of the given size. That is done where the data is an SVG
/// and there can be such a picture: `Pixmap::new` refuses an empty side, and a row
/// whose bytes an `i32` does not count. Of the pixels only their number is
/// claimed: an SVG may take pictures from files.
#[verifier::external_body]
fn svg_pixels(data: &[u8], width: u32, height: u32) -> (r: Option<Vec<u8>>)
    requires
        width * height * 4 <= isize::MAX,
    ensures
        r is Some == (parsed_svg(data@) is Some && can_draw(width, height)),
        r matches Some(p) ==> p@.len() == width * height * 4,
{
    let tree = resvg::usvg::Tree::from_data(data, &resvg::usvg::Options::default()).ok()?;
    let mut map = resvg::tiny_skia::Pixmap::new(width, height)?;
    resvg::render(&tree, resvg::tiny_skia::Transform::default(), &mut map.as_mut());
    Some(map.take())
}

/// The size at which an SVG is drawn: its own, or 144 pixels square where a side
/// of it is empty.
pub open spec fn svg_target(width: u32, height: u32) -> (u32, u32) {
    if width == 0 || height == 0 {
        (144u32, 144u32)
    } else {
        (width, height)
    }
}

/// The size at which an SVG is drawn.
pub fn svg_target_size(width: u32, height: u32) -> (r: (u32, u32))
    ensures
        r == svg_target(width, height),
{
    if width == 0 || height == 0 {
        (144, 144)
    } else {
        (width, height)
    }
}

/// The picture of the given size with the pixels that were drawn, if any were.
pub fn svg_picture(width: u32, height: u32, drawn: Option<Vec<u8>>) -> (r: Option<Picture>)
    ensures
        opt_picture(r) == match drawn {
            Some(pixels) => Some(PictureView { width, height, pixels: pixels@ }),
            None => None,
        },
{
    match drawn {
        Some(pixels) => Some(Picture { width, height, pixels }),
        None => None,
    }
}

/// Draws an SVG; `None` where it is none or cannot be drawn at its size. What it
/// shows is not stated, nor the size of one that does not say it: an SVG may take
/// pictures from files.
pub fn convert_svg_to_image(svg_data: &[u8]) -> (r: Option<Picture>)
    ensures
        match parsed_svg(svg_data@) {
            None => r is None,
            Some(Some(size)) => {
                let (width, height) = svg_target(size.0, size.1);
                match r {
                    Some(p) => p@.wf() && p.width == width && p.height == height && can_draw(
                        width,
                        height,
                    ),
                    None => !can_draw(width, height),
                }
            },
            Some(None) => r matches Some(p) ==> p@.wf() && can_draw(p.width, p.height),
        },
{
    match svg_size(svg_data) {
        Some(size) => {
            let (width, height) = svg_target_size(size.0, size.1);
            if can_draw_svg(width, height) {
                let drawn = svg_pixels(svg_data, width, height);
                svg_picture(width, height, drawn)
            } else {
                None
            }
        },
        None => None,
    }
}

// ---------------------------------------------------------------------------
// The icons of the host's own actions
// ---------------------------------------------------------------------------

/// The color of the placeholder that once stood for the icon `name`.
pub open spec fn placeholder_color(name: Seq<char>) -> Seq<u8> {
    if text::contains_text(name, "multi-action"@) {
        seq![0x2d, 0x9c, 0xdb, 0xff]
    } else {
        seq![0xf2, 0xc9, 0x4c, 0xff]
    }
}

/// A picture that is filled with one color.
pub open spec fn is_filled(p: PictureView, color: Seq<u8>) -> bool {
    p.pixels.len() >= 4 && forall|i: int|
        0 <= i < p.pixels.len() ==> #[trigger] p.pixels[i] == color[i % 4]
}

/// Whether a picture is the placeholder that once stood for the icon `name`.
pub fn is_old_placeholder(p: &Picture, name: &str) -> (r: bool)
    ensures
        r == is_filled(p@, placeholder_color(name@)),
{
    let mut color: Vec<u8> = Vec::new();
    if text::contains(name, "multi-action") {
        color.push(0x2d);
        color.push(0x9c);
        color.push(0xdb);
    } else {
        color.push(0xf2);
        color.push(0xc9);
        color.push(0x4c);
    }
    color.push(0xff);
    assert(color@ =~= placeholder_color(name@));
    if p.pixels.len() < 4 {
        return false;
    }
    let mut i: usize = 0;
    while i < p.pixels.len()
        invariant
            i <= p.pixels@.len(),
            color@ == placeholder_color(name@),
            color@.len() == 4,
            forall|j: int| 0 <= j < i ==> #[trigger] p.pixels@[j] == color@[j % 4],
        decreases p.pixels@.len() - i,
    {
        if p.pixels[i] != color[i % 4] {
            assert(p@.pixels[i as int] != placeholder_color(name@)[i as int % 4]);
            return false;
        }
        i = i + 1;
    }
    true
}

/// Whether the icon `name` of one of the host's own actions is written, given the
/// bytes of the file that is there: where there is none, or it is a placeholder
/// of old. A file that the user put there stays.
pub fn writes_builtin_icon(name: &str, existing: Option<&[u8]>) -> (r: bool)
    ensures
        r == match existing {
            None => true,
            Some(bytes) => match file_picture(bytes@, path::extension_of(name@)) {
                Some(p) => is_filled(p, placeholder_color(name@)),
                None => false,
            },
        },
{
    match existing {
        None => true,
        Some(bytes) => match read_file_picture(bytes, &extension(name)) {
            Some(p) => is_old_placeholder(&p, name),
            None => false,
        },
    }
}

// ---------------------------------------------------------------------------
// Where a picture comes from
// ---------------------------------------------------------------------------

/// Where a picture comes from.
pub enum ImageSource {
    /// The bytes are in the text itself.
    Data(Vec<u8>),
    /// The text is data in base64 that cannot be decoded.
    InvalidData,
    /// The text is data without a comma.
    MissingComma,
    File { path: String, svg: bool },
    NotFound,
}

/// The model of an `ImageSource`.
pub enum SourceView {
    Data(Seq<u8>),
    InvalidData,
    MissingComma,
    File { path: Seq<char>, svg: bool },
    NotFound,
}

impl View for ImageSource {
    type V = SourceView;

    open spec fn view(&self) -> SourceView {
        match self {
            ImageSource::Data(b) => SourceView::Data(b@),
            ImageSource::InvalidData => SourceView::InvalidData,
            ImageSource::MissingComma => SourceView::MissingComma,
            ImageSource::File { path, svg } => SourceView::File { path: path@, svg: *svg },
            ImageSource::NotFound => SourceView::NotFound,
        }
    }
}

/// The file that a path of a picture means, given the files that exist: the one
/// at the path, else, for a picture of the host, the one below the configuration
/// or the resource directory.
pub open spec fn picture_file(
    image: Seq<char>,
    config_dir: Seq<char>,
    resource_dir: Option<Seq<char>>,
    existing: Seq<Seq<char>>,
) -> Option<Seq<char>> {
    let t = text::trimmed(image);
    if existing.contains(t) {
        Some(t)
    } else if !("riverdeck/"@.is_prefix_of(image) || "opendeck/"@.is_prefix_of(image)) {
        None
    } else if existing.contains(shared::joined(config_dir, t)) {
        Some(shared::joined(config_dir, t))
    } else if resource_dir is Some && existing.contains(shared::joined(resource_dir->0, t)) {
        Some(shared::joined(resource_dir->0, t))
    } else {
        None
    }
}

/// Where a picture comes from, given the files that exist.
pub open spec fn source_of(
    image: Seq<char>,
    config_dir: Seq<char>,
    resource_dir: Option<Seq<char>>,
    existing: Seq<Seq<char>>,
) -> SourceView {
    if "data:"@.is_prefix_of(text::trimmed(image)) {
        if text::behind(image, ";base64,"@) is None && !image.contains(',') {
            SourceView::MissingComma
        } else {
            match disk::data_bytes(image) {
                Some(b) => SourceView::Data(b),
                None => SourceView::InvalidData,
            }
        }
    } else {
        match picture_file(image, config_dir, resource_dir, existing) {
            Some(file) => SourceView::File {
                path: file,
                svg: path::extension_of(file) == Some("svg"@),
            },
            None => SourceView::NotFound,
        }
    }
}

/// Where a picture comes from, given the files that exist.
pub fn image_source(
    image: &str,
    config_dir: &str,
    resource_dir: &Option<String>,
    existing: &Vec<String>,
) -> (r: ImageSource)
    ensures
        r@ == source_of(
            image@,
            config_dir@,
            text::opt_text(*resource_dir),
            text::texts(existing@),
        ),
{
    let t = trim(image);
    if starts_with(&t, "data:") {
        if contains_char(image, ',') {
            return match bytes_of_data(image) {
                Some(b) => ImageSource::Data(b),
                None => ImageSource::InvalidData,
            };
        }
        proof {
            reveal_strlit(";base64,");
            assert(";base64,"@[7] == ',');
            if text::behind(image@, ";base64,"@) is Some {
                lemma_behind_contains(image@, ";base64,"@, ',');
            }
        }
        return ImageSource::MissingComma;
    }
    let host = starts_with(image, "riverdeck/") || starts_with(image, "opendeck/");
    let mut found: Option<String> = None;
    if texts_contain(existing, &t) {
        found = Some(owned(&t));
    } else if host {
        let in_config = join(config_dir, &t);
        if texts_contain(existing, &in_config) {
            found = Some(in_config);
        } else {
            match resource_dir {
                Some(dir) => {
                    let in_resources = join(dir, &t);
                    if texts_contain(existing, &in_resources) {
                        found = Some(in_resources);
                    }
                },
                None => {},
            }
        }
    }
    match found {
        Some(file) => {
            let svg = match path::extension(&file) {
                Some(e) => same_text(&e, "svg"),
                None => false,
            };
            ImageSource::File { path: file, svg }
        },
        None => ImageSource::NotFound,
    }
}

proof fn lemma_behind_contains(s: Seq<char>, needle: Seq<char>, c: char)
    requires
        needle.contains(c),
        text::behind(s, needle) is Some,
    ensures
        s.contains(c),
    decreases s.len(),
{
    if needle.is_prefix_of(s) {
        let i = choose|i: int| 0 <= i < needle.len() && needle[i] == c;
        assert(s.subrange(0, needle.len() as int)[i] == s[i]);
        assert(s[i] == c);
    } else {
        lemma_behind_contains(s.drop_first(), needle, c);
        let rest = s.drop_first();
        let i = choose|i: int| 0 <= i < rest.len() && rest[i] == c;
        assert(s[i + 1] == c);
    }
}

/// A frame is shown for its delay, to the nearest millisecond, but never for less than
/// the shortest delay nor for more than the longest.
pub proof fn law_delay_is_rounded(numer: u32, denom: u32)
    ensures
        MIN_FRAME_DELAY <= delay_of(numer, denom) <= MAX_FRAME_DELAY,
        denom == 0 ==> delay_of(numer, denom) == MIN_FRAME_DELAY,
        denom > 0 && MIN_FRAME_DELAY < delay_of(numer, denom) < MAX_FRAME_DELAY ==> -(denom as int)
            <= 2 * (delay_of(numer, denom) * denom - numer) <= denom,
{
    if denom > 0 {
        let d = denom as int;
        let n = numer + d / 2;
        vstd::arithmetic::div_mod::lemma_fundamental_div_mod(n, d);
        vstd::arithmetic::div_mod::lemma_mod_bound(n, d);
        assert(d * (n / d) == (n / d) * d) by (nonlinear_arith);
    }
}

/// A GIF is shown as its first frames, in their order, each with its own picture and
/// delay, as many as are shown at most.
pub proof fn law_first_frames_are_shown(s: Seq<GifFrameView>, k: int)
    requires
        0 <= k < s.len(),
    ensures
        shown_frames(s).len() == if s.len() < MAX_FRAMES {
            s.len()
        } else {
            MAX_FRAMES as nat
        },
        k < MAX_FRAMES ==> shown_frames(s)[k].image == s[k].picture && shown_frames(s)[k].delay
            == delay_of(s[k].numer, s[k].denom),
{
}

/// A GIF with several frames is shown as an animation and one with a single frame as a
/// picture; one without frames, and bytes that hold no picture, are errors.
pub proof fn law_what_is_shown(
    frames: Option<Seq<GifFrameView>>,
    still: Option<PictureView>,
)
    ensures
        frames is None ==> choice(true, frames, still) == Err::<ShownView, PictureError>(
            PictureError::Unreadable,
        ),
        frames matches Some(f) ==> f.len() == 0 ==> choice(true, frames, still) == Err::<
            ShownView,
            PictureError,
        >(PictureError::NoFrames),
        frames matches Some(f) ==> f.len() > 1 ==> choice(true, frames, still) == Ok::<
            ShownView,
            PictureError,
        >(ShownView::Animated(shown_frames(f))),
        frames matches Some(f) ==> f.len() == 1 ==> choice(true, frames, still) == choice(
            false,
            frames,
            still,
        ),
        still matches Some(p) ==> choice(false, frames, still) == Ok::<ShownView, PictureError>(
            ShownView::Still(p),
        ),
        still is None ==> choice(false, frames, still) == Err::<ShownView, PictureError>(
            PictureError::Unreadable,
        ),
{
}

/// Bringing frames to a size keeps their number, their order and their delays, and
/// brings each picture to that size.
pub proof fn law_resized_frames_keep_delays(s: Seq<FrameView>, t: Target, k: int)
    requires
        0 <= k < s.len(),
    ensures
        resized_frames(s, t).len() == s.len(),
        resized_frames(s, t)[k].delay == s[k].delay,
        resized_frames(s, t)[k].image == resized(s[k].image, t),
        t.resize_mode is Exact ==> resized_frames(s, t)[k].image.width == t.width && resized_frames(
            s,
            t,
        )[k].image.height == t.height,
{
}

/// The file of a picture is one that exists: the path itself before all others, and
/// for a picture of the host the one of the user before the one that came with it.
pub proof fn law_picture_file_exists(
    image: Seq<char>,
    config_dir: Seq<char>,
    resource_dir: Option<Seq<char>>,
    existing: Seq<Seq<char>>,
)
    ensures
        picture_file(image, config_dir, resource_dir, existing) matches Some(f) ==> existing.contains(
            f,
        ),
        existing.contains(text::trimmed(image)) ==> picture_file(
            image,
            config_dir,
            resource_dir,
            existing,
        ) == Some(text::trimmed(image)),
        ("riverdeck/"@.is_prefix_of(image) || "opendeck/"@.is_prefix_of(image))
            && !existing.contains(text::trimmed(image)) && existing.contains(
            shared::joined(config_dir, text::trimmed(image)),
        ) ==> picture_file(image, config_dir, resource_dir, existing) == Some(
            shared::joined(config_dir, text::trimmed(image)),
        ),
        !("riverdeck/"@.is_prefix_of(image) || "opendeck/"@.is_prefix_of(image))
            && !existing.contains(text::trimmed(image)) ==> picture_file(
            image,
            config_dir,
            resource_dir,
            existing,
        ) is None,
{
}

/// A picture is read from its data where it holds any, and else from its file, which is
/// drawn where it is an SVG.
pub proof fn law_source_of_a_picture(
    image: Seq<char>,
    config_dir: Seq<char>,
    resource_dir: Option<Seq<char>>,
    existing: Seq<Seq<char>>,
)
    ensures
        ({
            let s = source_of(image, config_dir, resource_dir, existing);
            let data = "data:"@.is_prefix_of(text::trimmed(image));
            &&& data ==> s is Data || s is MissingComma || s is InvalidData
            &&& data ==> (s matches SourceView::Data(b) ==> disk::data_bytes(image) == Some(b))
            &&& !data ==> (s is NotFound <==> picture_file(
                image,
                config_dir,
                resource_dir,
                existing,
            ) is None)
            &&& !data ==> (picture_file(image, config_dir, resource_dir, existing) matches Some(f)
                ==> s == SourceView::File { path: f, svg: path::extension_of(f) == Some("svg"@) })
        }),
{
}

/// An SVG is drawn at its own size, and at a default size where a side of it is empty.
pub proof fn law_svg_size(width: u32, height: u32)
    ensures
        width > 0 && height > 0 ==> svg_target(width, height) == (width, height),
        width == 0 || height == 0 ==> svg_target(width, height) == (144u32, 144u32),
        svg_target(width, height).0 > 0 && svg_target(width, height).1 > 0,
{
}

} // verus!
