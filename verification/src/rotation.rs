//! Rotation of RGBA pictures by quarter turns, done by the image crate.

use vstd::prelude::*;
use image::{imageops, ImageBuffer, Rgba};
use crate::picture::{pack_rows, packed_rows, rows_fit};

verus! {

/// How far a picture is turned clockwise before it is encoded.
#[derive(Clone, Copy, Debug, PartialEq, Eq, Structural)]
pub enum Rotation {
    Upright,
    Clockwise90,
    Clockwise180,
    Clockwise270,
}

/// The rotation asked for by a number of degrees: 90 turns a quarter
/// clockwise, 270 or -90 three quarters, 180 a half; any other number
/// leaves the picture as it is.
pub open spec fn rotation_for_degrees(degrees: i32) -> Rotation {
    if degrees == 90 {
        Rotation::Clockwise90
    } else if degrees == -90 || degrees == 270 {
        Rotation::Clockwise270
    } else if degrees == 180 {
        Rotation::Clockwise180
    } else {
        Rotation::Upright
    }
}

/// Picks the rotation for a number of degrees given on the command line.
pub fn rotation_from_degrees(degrees: i32) -> (rotation: Rotation)
    ensures
        rotation == rotation_for_degrees(degrees),
        degrees == 90 ==> rotation == Rotation::Clockwise90,
        degrees == 180 ==> rotation == Rotation::Clockwise180,
        degrees == 270 || degrees == -90 ==> rotation == Rotation::Clockwise270,
        degrees != 90 && degrees != 180 && degrees != 270 && degrees != -90 ==> rotation
            == Rotation::Upright,
{
    if degrees == 90 {
        Rotation::Clockwise90
    } else if degrees == -90 || degrees == 270 {
        Rotation::Clockwise270
    } else if degrees == 180 {
        Rotation::Clockwise180
    } else {
        Rotation::Upright
    }
}

/// A picture `width` x `height` turned a quarter clockwise, as raw RGBA
/// bytes of a picture `height` wide and `width` high: its pixel (x, y) is
/// the source's pixel (y, height - 1 - x).
pub open spec fn rotated_cw90(width: nat, height: nat, pixels: Seq<u8>) -> Seq<u8> {
    Seq::new(
        width * height * 4,
        |i: int|
            {
                let p = i / 4;
                let x = p % (height as int);
                let y = p / (height as int);
                pixels[((height - 1 - x) * width + y) * 4 + i % 4]
            },
    )
}

/// A picture `width` x `height` turned half a turn, as raw RGBA bytes of a
/// picture of the same size: its pixel (x, y) is the source's pixel
/// (width - 1 - x, height - 1 - y).
pub open spec fn rotated_cw180(width: nat, height: nat, pixels: Seq<u8>) -> Seq<u8> {
    Seq::new(
        width * height * 4,
        |i: int|
            {
                let p = i / 4;
                let x = p % (width as int);
                let y = p / (width as int);
                pixels[((height - 1 - y) * width + (width - 1 - x)) * 4 + i % 4]
            },
    )
}

/// A picture `width` x `height` turned three quarters clockwise, as raw
/// RGBA bytes of a picture `height` wide and `width` high: its pixel (x, y)
/// is the source's pixel (width - 1 - y, x).
pub open spec fn rotated_cw270(width: nat, height: nat, pixels: Seq<u8>) -> Seq<u8> {
    Seq::new(
        width * height * 4,
        |i: int|
            {
                let p = i / 4;
                let x = p % (height as int);
                let y = p / (height as int);
                pixels[(x * width + (width - 1 - y)) * 4 + i % 4]
            },
    )
}

/// `image::imageops::rotate90` on raw RGBA bytes: the bytes are wrapped by
/// `ImageBuffer::from_raw`, turned, and taken back out with `into_raw`.
/// Claimed, as the crate's source shows: `from_raw` accepts the bytes
/// exactly when they hold `width * height` pixels (that count computed
/// without overflow), and the turned picture's bytes are `rotated_cw90`.
#[verifier::external_body]
fn rotate_cw90_rgba(width: u32, height: u32, pixels: Vec<u8>) -> (out: Option<Vec<u8>>)
    ensures
        out is Some <==> width * height * 4 <= pixels@.len(),
        out matches Some(o) ==> o@ == rotated_cw90(width as nat, height as nat, pixels@),
{
    match ImageBuffer::<Rgba<u8>, Vec<u8>>::from_raw(width, height, pixels) {
        Some(img) => Some(imageops::rotate90(&img).into_raw()),
        None => None,
    }
}

/// `image::imageops::rotate180` on raw RGBA bytes, wrapped and unwrapped as
/// for `rotate_cw90_rgba`. Claimed: `from_raw` accepts the bytes exactly
/// when they hold `width * height` pixels, and the turned picture's bytes
/// are `rotated_cw180`.
#[verifier::external_body]
fn rotate_cw180_rgba(width: u32, height: u32, pixels: Vec<u8>) -> (out: Option<Vec<u8>>)
    ensures
        out is Some <==> width * height * 4 <= pixels@.len(),
        out matches Some(o) ==> o@ == rotated_cw180(width as nat, height as nat, pixels@),
{
    match ImageBuffer::<Rgba<u8>, Vec<u8>>::from_raw(width, height, pixels) {
        Some(img) => Some(imageops::rotate180(&img).into_raw()),
        None => None,
    }
}

/// `image::imageops::rotate270` on raw RGBA bytes, wrapped and unwrapped as
/// for `rotate_cw90_rgba`. Claimed: `from_raw` accepts the bytes exactly
/// when they hold `width * height` pixels, and the turned picture's bytes
/// are `rotated_cw270`.
#[verifier::external_body]
fn rotate_cw270_rgba(width: u32, height: u32, pixels: Vec<u8>) -> (out: Option<Vec<u8>>)
    ensures
        out is Some <==> width * height * 4 <= pixels@.len(),
        out matches Some(o) ==> o@ == rotated_cw270(width as nat, height as nat, pixels@),
{
    match ImageBuffer::<Rgba<u8>, Vec<u8>>::from_raw(width, height, pixels) {
        Some(img) => Some(imageops::rotate270(&img).into_raw()),
        None => None,
    }
}

/// A decoded picture after repacking and rotation: `width` x `height`
/// RGBA pixels, rows back to back.
pub struct RotatedFrame {
    pub width: u32,
    pub height: u32,
    pub pixels: Vec<u8>,
}

/// Size of a `width` x `height` picture after `rotation`.
pub open spec fn rotated_size(rotation: Rotation, width: u32, height: u32) -> (u32, u32) {
    match rotation {
        Rotation::Clockwise90 | Rotation::Clockwise270 => (height, width),
        _ => (width, height),
    }
}

/// The bytes of a tight `width` x `height` picture after `rotation`.
pub open spec fn rotated_pixels(rotation: Rotation, width: nat, height: nat, pixels: Seq<u8>) -> Seq<
    u8,
> {
    match rotation {
        Rotation::Upright => pixels,
        Rotation::Clockwise90 => rotated_cw90(width, height, pixels),
        Rotation::Clockwise180 => rotated_cw180(width, height, pixels),
        Rotation::Clockwise270 => rotated_cw270(width, height, pixels),
    }
}

/// Takes a decoded RGBA picture out of its strided plane (`height` rows of
/// `width` pixels, starting every `stride` bytes of `raw`), and turns it by
/// `rotation`. The repacked picture always holds all its pixels, so the
/// image crate always accepts it.
pub fn prepare_frame(raw: &[u8], stride: usize, width: u32, height: u32, rotation: Rotation) -> (frame:
    RotatedFrame)
    requires
        width * height * 4 <= u32::MAX,
        rows_fit(raw@.len() as int, stride as int, width * 4, height as int),
    ensures
        (frame.width, frame.height) == rotated_size(rotation, width, height),
        frame.pixels@ == rotated_pixels(
            rotation,
            width as nat,
            height as nat,
            packed_rows(raw@, stride as int, width * 4, height as nat),
        ),
        frame.pixels@.len() == width * height * 4,
        rotation == Rotation::Upright ==> frame.pixels@ == packed_rows(
            raw@,
            stride as int,
            width * 4,
            height as nat,
        ),
        rotation == Rotation::Clockwise90 ==> frame.pixels@ == rotated_cw90(
            width as nat,
            height as nat,
            packed_rows(raw@, stride as int, width * 4, height as nat),
        ),
        rotation == Rotation::Clockwise180 ==> frame.pixels@ == rotated_cw180(
            width as nat,
            height as nat,
            packed_rows(raw@, stride as int, width * 4, height as nat),
        ),
        rotation == Rotation::Clockwise270 ==> frame.pixels@ == rotated_cw270(
            width as nat,
            height as nat,
            packed_rows(raw@, stride as int, width * 4, height as nat),
        ),
        rotation == Rotation::Clockwise90 ==> forall|x: int, y: int, c: int|
            0 <= x < height && 0 <= y < width && 0 <= c < 4 ==> #[trigger] pixel_at(
                frame.pixels@,
                height as int,
                x,
                y,
                c,
            ) == pixel_at(
                packed_rows(raw@, stride as int, width * 4, height as nat),
                width as int,
                y,
                height - 1 - x,
                c,
            ),
        rotation == Rotation::Clockwise180 ==> forall|x: int, y: int, c: int|
            0 <= x < width && 0 <= y < height && 0 <= c < 4 ==> #[trigger] pixel_at(
                frame.pixels@,
                width as int,
                x,
                y,
                c,
            ) == pixel_at(
                packed_rows(raw@, stride as int, width * 4, height as nat),
                width as int,
                width - 1 - x,
                height - 1 - y,
                c,
            ),
        rotation == Rotation::Clockwise270 ==> forall|x: int, y: int, c: int|
            0 <= x < height && 0 <= y < width && 0 <= c < 4 ==> #[trigger] pixel_at(
                frame.pixels@,
                height as int,
                x,
                y,
                c,
            ) == pixel_at(
                packed_rows(raw@, stride as int, width * 4, height as nat),
                width as int,
                width - 1 - y,
                x,
                c,
            ),
{
    let tight = pack_rows(raw, stride, width, height);
    proof {
        lemma_turns_move_pixels(rotation, width as nat, height as nat, tight@);
    }
    let rotated = match rotation {
        Rotation::Upright => Some(tight),
        Rotation::Clockwise90 => rotate_cw90_rgba(width, height, tight),
        Rotation::Clockwise180 => rotate_cw180_rgba(width, height, tight),
        Rotation::Clockwise270 => rotate_cw270_rgba(width, height, tight),
    };
    let (out_width, out_height) = match rotation {
        Rotation::Clockwise90 | Rotation::Clockwise270 => (height, width),
        _ => (width, height),
    };
    match rotated {
        Some(pixels) => RotatedFrame { width: out_width, height: out_height, pixels },
        None => {
            proof {
                assert(false);
            }
            RotatedFrame { width: out_width, height: out_height, pixels: Vec::new() }
        },
    }
}

proof fn lemma_split(p: int, n: int)
    requires
        0 <= p,
        0 < n,
    ensures
        p == (p / n) * n + p % n,
        0 <= p % n < n,
        0 <= p / n,
{
    vstd::arithmetic::div_mod::lemma_fundamental_div_mod(p, n);
    vstd::arithmetic::div_mod::lemma_mod_pos_bound(p, n);
    vstd::arithmetic::div_mod::lemma_div_pos_is_pos(p, n);
    assert((p / n) * n == n * (p / n)) by (nonlinear_arith);
}

/// Turning a picture a quarter clockwise and then three quarters clockwise
/// gives the picture back.
pub proof fn lemma_quarter_turns_undo(width: nat, height: nat, pixels: Seq<u8>)
    requires
        pixels.len() == width * height * 4,
    ensures
        rotated_cw270(height, width, rotated_cw90(width, height, pixels)) == pixels,
{
    let w = width as int;
    let h = height as int;
    let turned = rotated_cw90(width, height, pixels);
    let back = rotated_cw270(height, width, turned);
    assert(height * width * 4 == width * height * 4) by (nonlinear_arith);
    assert forall|i: int| 0 <= i < back.len() implies #[trigger] back[i] == pixels[i] by {
        lemma_split(i, 4);
        let p = i / 4;
        let c = i % 4;
        assert(p < w * h) by (nonlinear_arith)
            requires
                i == p * 4 + c,
                0 <= c < 4,
                i < w * h * 4,
        ;
        assert(w > 0) by (nonlinear_arith)
            requires
                0 <= p < w * h,
                h >= 0,
        ;
        lemma_split(p, w);
        let x = p % w;
        let y = p / w;
        assert(y < h) by (nonlinear_arith)
            requires
                p == y * w + x,
                0 <= x,
                p < w * h,
                w > 0,
        ;
        let q = x * h + (h - 1 - y);
        assert(0 <= q < w * h && 0 <= q * 4 + c < w * h * 4) by (nonlinear_arith)
            requires
                0 <= x < w,
                0 <= y < h,
                q == x * h + (h - 1 - y),
                0 <= c < 4,
        ;
        let k = q * 4 + c;
        vstd::arithmetic::div_mod::lemma_fundamental_div_mod_converse(k, 4, q, c);
        vstd::arithmetic::div_mod::lemma_fundamental_div_mod_converse(q, h, x, h - 1 - y);
        assert(back[i] == turned[k]);
        assert(turned[k] == pixels[((h - 1 - (h - 1 - y)) * w + x) * 4 + c]);
        assert((y * w + x) * 4 + c == i);
    }
    assert(back =~= pixels);
}

/// Turning a picture half a turn twice gives the picture back.
pub proof fn lemma_half_turns_undo(width: nat, height: nat, pixels: Seq<u8>)
    requires
        pixels.len() == width * height * 4,
    ensures
        rotated_cw180(width, height, rotated_cw180(width, height, pixels)) == pixels,
{
    let w = width as int;
    let h = height as int;
    let turned = rotated_cw180(width, height, pixels);
    let back = rotated_cw180(width, height, turned);
    assert forall|i: int| 0 <= i < back.len() implies #[trigger] back[i] == pixels[i] by {
        lemma_split(i, 4);
        let p = i / 4;
        let c = i % 4;
        assert(p < w * h) by (nonlinear_arith)
            requires
                i == p * 4 + c,
                0 <= c < 4,
                i < w * h * 4,
        ;
        assert(w > 0) by (nonlinear_arith)
            requires
                0 <= p < w * h,
                h >= 0,
        ;
        lemma_split(p, w);
        let x = p % w;
        let y = p / w;
        assert(y < h) by (nonlinear_arith)
            requires
                p == y * w + x,
                0 <= x,
                p < w * h,
                w > 0,
        ;
        let q = (h - 1 - y) * w + (w - 1 - x);
        assert(0 <= q < w * h && 0 <= q * 4 + c < w * h * 4) by (nonlinear_arith)
            requires
                0 <= x < w,
                0 <= y < h,
                q == (h - 1 - y) * w + (w - 1 - x),
                0 <= c < 4,
        ;
        let k = q * 4 + c;
        vstd::arithmetic::div_mod::lemma_fundamental_div_mod_converse(k, 4, q, c);
        vstd::arithmetic::div_mod::lemma_fundamental_div_mod_converse(q, w, h - 1 - y, w - 1 - x);
        assert(back[i] == turned[k]);
        assert(turned[k] == pixels[((h - 1 - (h - 1 - y)) * w + (w - 1 - (w - 1 - x))) * 4 + c]);
        assert((y * w + x) * 4 + c == i);
    }
    assert(back =~= pixels);
}

/// Byte `c` of pixel (x, y) of a raw RGBA picture `width` pixels wide.
pub open spec fn pixel_at(pixels: Seq<u8>, width: int, x: int, y: int, c: int) -> u8 {
    pixels[(y * width + x) * 4 + c]
}

/// Index of byte `c` of pixel (x, y) of a picture `width` wide and `height`
/// high: inside the picture, and the pixel and byte it stands for.
proof fn lemma_pixel_index(width: int, height: int, x: int, y: int, c: int)
    requires
        0 <= x < width,
        0 <= y < height,
        0 <= c < 4,
    ensures
        0 <= (y * width + x) * 4 + c < width * height * 4,
        ((y * width + x) * 4 + c) / 4 == y * width + x,
        ((y * width + x) * 4 + c) % 4 == c,
        (y * width + x) % width == x,
        (y * width + x) / width == y,
{
    assert(0 <= (y * width + x) * 4 + c < width * height * 4 && 0 <= y * width + x) by (nonlinear_arith)
        requires
            0 <= x < width,
            0 <= y < height,
            0 <= c < 4,
    ;
    vstd::arithmetic::div_mod::lemma_fundamental_div_mod_converse(
        (y * width + x) * 4 + c,
        4,
        y * width + x,
        c,
    );
    vstd::arithmetic::div_mod::lemma_fundamental_div_mod_converse(y * width + x, width, y, x);
}

/// Where each turn puts each pixel. Upright leaves the picture as it is.
/// A quarter turn clockwise gives a picture `height` wide and `width` high
/// whose pixel (x, y) is the source's pixel (y, height - 1 - x). A half
/// turn gives a picture of the same size whose pixel (x, y) is the source's
/// (width - 1 - x, height - 1 - y). Three quarters clockwise give a picture
/// `height` wide and `width` high whose pixel (x, y) is the source's
/// (width - 1 - y, x). The turned picture has as many bytes as the source.
pub proof fn lemma_turns_move_pixels(rotation: Rotation, width: nat, height: nat, pixels: Seq<u8>)
    requires
        pixels.len() == width * height * 4,
    ensures
        rotated_pixels(rotation, width, height, pixels).len() == width * height * 4,
        rotation == Rotation::Upright ==> rotated_pixels(rotation, width, height, pixels) == pixels,
        rotation == Rotation::Clockwise90 ==> forall|x: int, y: int, c: int|
            0 <= x < height && 0 <= y < width && 0 <= c < 4 ==> #[trigger] pixel_at(
                rotated_pixels(rotation, width, height, pixels),
                height as int,
                x,
                y,
                c,
            ) == pixel_at(pixels, width as int, y, height - 1 - x, c),
        rotation == Rotation::Clockwise180 ==> forall|x: int, y: int, c: int|
            0 <= x < width && 0 <= y < height && 0 <= c < 4 ==> #[trigger] pixel_at(
                rotated_pixels(rotation, width, height, pixels),
                width as int,
                x,
                y,
                c,
            ) == pixel_at(pixels, width as int, width - 1 - x, height - 1 - y, c),
        rotation == Rotation::Clockwise270 ==> forall|x: int, y: int, c: int|
            0 <= x < height && 0 <= y < width && 0 <= c < 4 ==> #[trigger] pixel_at(
                rotated_pixels(rotation, width, height, pixels),
                height as int,
                x,
                y,
                c,
            ) == pixel_at(pixels, width as int, width - 1 - y, x, c),
{
    let w = width as int;
    let h = height as int;
    let out = rotated_pixels(rotation, width, height, pixels);
    match rotation {
        Rotation::Upright => {},
        Rotation::Clockwise90 => {
            assert forall|x: int, y: int, c: int|
                0 <= x < h && 0 <= y < w && 0 <= c < 4 implies #[trigger] pixel_at(out, h, x, y, c)
                == pixel_at(pixels, w, y, h - 1 - x, c) by {
                lemma_pixel_index(h, w, x, y, c);
                lemma_pixel_index(w, h, y, h - 1 - x, c);
                assert(h * w * 4 == w * h * 4) by (nonlinear_arith);
            }
        },
        Rotation::Clockwise180 => {
            assert forall|x: int, y: int, c: int|
                0 <= x < w && 0 <= y < h && 0 <= c < 4 implies #[trigger] pixel_at(out, w, x, y, c)
                == pixel_at(pixels, w, w - 1 - x, h - 1 - y, c) by {
                lemma_pixel_index(w, h, x, y, c);
            }
        },
        Rotation::Clockwise270 => {
            assert forall|x: int, y: int, c: int|
                0 <= x < h && 0 <= y < w && 0 <= c < 4 implies #[trigger] pixel_at(out, h, x, y, c)
                == pixel_at(pixels, w, w - 1 - y, x, c) by {
                lemma_pixel_index(h, w, x, y, c);
                assert(h * w * 4 == w * h * 4) by (nonlinear_arith);
            }
        },
    }
}

/// Turning a picture a quarter clockwise and then three quarters clockwise
/// gives it back, and so does turning it half a turn twice.
pub proof fn lemma_turns_undo(width: nat, height: nat, pixels: Seq<u8>)
    requires
        pixels.len() == width * height * 4,
    ensures
        rotated_pixels(
            Rotation::Clockwise270,
            height,
            width,
            rotated_pixels(Rotation::Clockwise90, width, height, pixels),
        ) == pixels,
        rotated_pixels(
            Rotation::Clockwise180,
            width,
            height,
            rotated_pixels(Rotation::Clockwise180, width, height, pixels),
        ) == pixels,
{
    lemma_quarter_turns_undo(width, height, pixels);
    lemma_half_turns_undo(width, height, pixels);
}

} // verus!
