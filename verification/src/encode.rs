//! Decisions and settings of the H.264 transcoding pass that prepares the
//! video for the panel.

use vstd::prelude::*;
use vstd::string::StringSliceAdditionalSpecFns;
use crate::text::{decimal, digits_value, is_numeral, lemma_decimal_reads_back, push_decimal, push_text};

verus! {

/// Width of the panel, in pixels.
pub const SCREEN_WIDTH: u32 = 480;
/// Height of the panel, in pixels.
pub const SCREEN_HEIGHT: u32 = 480;
/// Target bit rate of the encoder, in bits per second.
pub const ENCODER_BIT_RATE: usize = 2_000_000;
/// Ticks per second of the encoder's time base (milliseconds).
pub const TIME_BASE_TICKS_PER_SECOND: i32 = 1000;

/// The frame rate to play the video at, as a fraction `(numerator,
/// denominator)`: the stream's average frame rate when its denominator is
/// not zero, else its base frame rate when that denominator is not zero;
/// `None` when neither is usable, in which case 30 frames per second are
/// assumed.
pub open spec fn chosen_frame_rate(average: (i32, i32), base: (i32, i32)) -> Option<(i32, i32)> {
    if average.1 != 0 {
        Some(average)
    } else if base.1 != 0 {
        Some(base)
    } else {
        None
    }
}

/// Chooses between the average and the base frame rate of a video stream.
pub fn select_frame_rate(average: (i32, i32), base: (i32, i32)) -> (rate: Option<(i32, i32)>)
    ensures
        rate == chosen_frame_rate(average, base),
        average.1 != 0 ==> rate == Some(average),
        average.1 == 0 && base.1 != 0 ==> rate == Some(base),
        rate is None <==> average.1 == 0 && base.1 == 0,
{
    if average.1 != 0 {
        Some(average)
    } else if base.1 != 0 {
        Some(base)
    } else {
        None
    }
}

/// Whether a scaler built for pictures of size `current` (or none yet)
/// has to be replaced to take pictures of `width` x `height`.
pub fn needs_new_scaler(current: Option<(u32, u32)>, width: u32, height: u32) -> (replace: bool)
    ensures
        replace == (current != Some((width, height))),
{
    match current {
        Some((w, h)) => w != width || h != height,
        None => true,
    }
}

/// Presentation time of the picture after one stamped `pts`, pictures
/// being `delay` time-base ticks apart.
pub fn advance_pts(pts: i64, delay: i64) -> (next: i64)
    requires
        i64::MIN <= pts + delay <= i64::MAX,
    ensures
        next == pts + delay,
{
    pts + delay
}

/// The x264 options: constant bit rate, Annex B stream, closed groups of
/// pictures without scene cuts, a key frame every `gop_size` pictures.
pub open spec fn x264_options(gop_size: nat) -> Seq<u8> {
    "nal-hrd=cbr:vbv-maxrate=2000:vbv-bufsize=2000:annexb=1:open-gop=0:scenecut=0:keyint=".spec_bytes()
        + decimal(gop_size) + ":min-keyint=".spec_bytes() + decimal(gop_size)
}

/// Builds the x264 option string for a key frame every `gop_size` pictures.
pub fn x264_params(gop_size: u32) -> (params: Vec<u8>)
    ensures
        params@ == x264_options(gop_size as nat),
        exists|d: Seq<u8>|
            #![trigger is_numeral(d)]
            is_numeral(d) && digits_value(d) == gop_size && params@
                == "nal-hrd=cbr:vbv-maxrate=2000:vbv-bufsize=2000:annexb=1:open-gop=0:scenecut=0:keyint=".spec_bytes()
                + d + ":min-keyint=".spec_bytes() + d,
{
    let mut params: Vec<u8> = Vec::new();
    push_text(
        &mut params,
        "nal-hrd=cbr:vbv-maxrate=2000:vbv-bufsize=2000:annexb=1:open-gop=0:scenecut=0:keyint=",
    );
    push_decimal(&mut params, gop_size);
    push_text(&mut params, ":min-keyint=");
    push_decimal(&mut params, gop_size);
    assert(params@ =~= x264_options(gop_size as nat));
    proof {
        lemma_x264_key_interval(gop_size as nat);
    }
    params
}

/// The x264 options ask for a key frame every `gop_size` pictures, both as
/// the largest and as the smallest interval: each of `keyint=` and
/// `min-keyint=` is followed by the same numeral, written as a person
/// writes it, that reads back as exactly `gop_size`, whatever its size.
pub proof fn lemma_x264_key_interval(gop_size: nat)
    ensures
        exists|d: Seq<u8>|
            #![trigger is_numeral(d)]
            is_numeral(d) && digits_value(d) == gop_size && x264_options(gop_size)
                == "nal-hrd=cbr:vbv-maxrate=2000:vbv-bufsize=2000:annexb=1:open-gop=0:scenecut=0:keyint=".spec_bytes()
                + d + ":min-keyint=".spec_bytes() + d,
{
    lemma_decimal_reads_back(gop_size);
    let d = decimal(gop_size);
    assert(is_numeral(d));
}

/// The frame rate chosen is the stream's average rate whenever its
/// denominator is not zero, whatever the base rate is; the base rate only
/// when the average's denominator is zero and the base's is not; and none
/// (30 frames per second) only when both denominators are zero.
pub proof fn lemma_frame_rate_choice(average: (i32, i32), base: (i32, i32))
    ensures
        average.1 != 0 ==> chosen_frame_rate(average, base) == Some(average),
        average.1 == 0 && base.1 != 0 ==> chosen_frame_rate(average, base) == Some(base),
        chosen_frame_rate(average, base) is None <==> average.1 == 0 && base.1 == 0,
{
}

} // verus!
