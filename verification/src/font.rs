//! Font-detector output: the layout of one output row, and the colour
//! clean-up applied to a prediction before it reaches the scene.
use vstd::prelude::*;

verus! {

/// Number of fonts the classifier scores.
pub const FONT_COUNT: usize = 6150;

/// Width of the regression block at the end of a row.
pub const REGRESSION_DIM: usize = 10;

/// Font logits, two direction logits, then the regression block.
pub const OUTPUT_WIDTH: usize = FONT_COUNT + 2 + REGRESSION_DIM;

/// Why a forward pass's output was refused.
#[derive(Clone, Copy, Debug, PartialEq, Eq, Structural)]
pub enum OutputShapeError {
    /// The output is not two-dimensional.
    Rank,
    /// A row is not `OUTPUT_WIDTH` wide.
    Width,
    /// There is not one row per input image.
    Rows,
}

/// Checks the output shape `dims` of a batch of `count` images: exactly two
/// dimensions, `count` rows of `OUTPUT_WIDTH` values.
pub fn check_output_dims(dims: &[usize], count: usize) -> (r: Result<(), OutputShapeError>)
    ensures
        dims@.len() != 2 ==> r == Err::<(), OutputShapeError>(OutputShapeError::Rank),
        dims@.len() == 2 && dims@[1] != OUTPUT_WIDTH ==> r == Err::<(), OutputShapeError>(OutputShapeError::Width),
        dims@.len() == 2 && dims@[1] == OUTPUT_WIDTH && dims@[0] != count ==> r == Err::<(), OutputShapeError>(OutputShapeError::Rows),
        r is Ok <==> (dims@.len() == 2 && dims@[1] == OUTPUT_WIDTH && dims@[0] == count),
{
    if dims.len() != 2 {
        return Err(OutputShapeError::Rank);
    }
    if dims[1] != OUTPUT_WIDTH {
        return Err(OutputShapeError::Width);
    }
    if dims[0] != count {
        return Err(OutputShapeError::Rows);
    }
    Ok(())
}

pub open spec fn max3(c: Seq<u8>) -> int {
    let a = c[0] as int;
    let b = c[1] as int;
    let d = c[2] as int;
    if a >= b && a >= d {
        a
    } else if b >= d {
        b
    } else {
        d
    }
}

pub open spec fn min3(c: Seq<u8>) -> int {
    let a = c[0] as int;
    let b = c[1] as int;
    let d = c[2] as int;
    if a <= b && a <= d {
        a
    } else if b <= d {
        b
    } else {
        d
    }
}

/// A colour is grey when its channels lie within 10 of each other.
pub open spec fn gray_spec(c: Seq<u8>) -> bool {
    max3(c) - min3(c) <= 10
}

/// Whether the channels of `c` lie within 10 of each other.
pub fn gray(c: [u8; 3]) -> (r: bool)
    ensures
        r == gray_spec(c@),
{
    let a = c[0];
    let b = c[1];
    let d = c[2];
    let hi = if a >= b && a >= d {
        a
    } else if b >= d {
        b
    } else {
        d
    };
    let lo = if a <= b && a <= d {
        a
    } else if b <= d {
        b
    } else {
        d
    };
    hi - lo <= 10
}

/// At or below this, a channel counts as black: 60 for a grey colour, 12
/// otherwise; white starts at 255 minus the same amount.
pub open spec fn snap_margin(c: Seq<u8>) -> int {
    if gray_spec(c) {
        60
    } else {
        12
    }
}

/// A colour with every channel at or below its margin is black.
pub open spec fn clamp_black_spec(c: Seq<u8>) -> Seq<u8> {
    let t = snap_margin(c);
    if c[0] <= t && c[1] <= t && c[2] <= t {
        seq![0u8, 0u8, 0u8]
    } else {
        c
    }
}

/// Snaps a near-black colour to black.
pub fn clamp_black(c: [u8; 3]) -> (r: [u8; 3])
    ensures
        r@ == clamp_black_spec(c@),
{
    let t: u8 = if gray(c) { 60 } else { 12 };
    if c[0] <= t && c[1] <= t && c[2] <= t {
        let r: [u8; 3] = [0, 0, 0];
        assert(r@ =~= seq![0u8, 0u8, 0u8]);
        r
    } else {
        c
    }
}

/// A colour with every channel at or above `255` minus its margin is white.
pub open spec fn clamp_white_spec(c: Seq<u8>) -> Seq<u8> {
    let t = 255 - snap_margin(c);
    if c[0] >= t && c[1] >= t && c[2] >= t {
        seq![255u8, 255u8, 255u8]
    } else {
        c
    }
}

/// Snaps a near-white colour to white.
pub fn clamp_white(c: [u8; 3]) -> (r: [u8; 3])
    ensures
        r@ == clamp_white_spec(c@),
{
    let t: u8 = 255 - if gray(c) { 60u8 } else { 12u8 };
    if c[0] >= t && c[1] >= t && c[2] >= t {
        let r: [u8; 3] = [255, 255, 255];
        assert(r@ =~= seq![255u8, 255u8, 255u8]);
        r
    } else {
        c
    }
}

pub open spec fn channel_close(a: u8, b: u8) -> bool {
    -16 <= a - b <= 16
}

/// Two colours are alike when every channel differs by at most 16.
pub open spec fn colors_similar_spec(a: Seq<u8>, b: Seq<u8>) -> bool {
    forall|i: int| 0 <= i < 3 ==> channel_close(#[trigger] a[i], b[i])
}

/// Whether every channel of `a` and `b` differs by at most 16.
pub fn colors_similar(a: [u8; 3], b: [u8; 3]) -> (r: bool)
    ensures
        r == colors_similar_spec(a@, b@),
{
    let mut i: usize = 0;
    while i < 3
        invariant
            i <= 3,
            forall|k: int| 0 <= k < i ==> channel_close(#[trigger] a@[k], b@[k]),
        decreases 3 - i,
    {
        let d = if a[i] >= b[i] { a[i] - b[i] } else { b[i] - a[i] };
        if d > 16 {
            assert(!channel_close(a@[i as int], b@[i as int]));
            return false;
        }
        i += 1;
    }
    true
}

/// The colour part of a font prediction: text and stroke colours and the
/// stroke width in 1/256 pixel.
#[derive(Clone, Copy, Debug)]
pub struct FontColors {
    pub text_color: [u8; 3],
    pub stroke_color: [u8; 3],
    pub stroke_width: u32,
}

/// A colour snapped to black, then to white.
pub open spec fn snapped(c: Seq<u8>) -> Seq<u8> {
    clamp_white_spec(clamp_black_spec(c))
}

/// Text colour, stroke colour and stroke width after clean-up: both colours
/// snapped; a visible stroke of (nearly) the text's colour removed, taking the
/// text's colour.
pub open spec fn normalized_colors(text: Seq<u8>, stroke: Seq<u8>, width: int) -> (Seq<u8>, Seq<u8>, int) {
    let t = snapped(text);
    let s = snapped(stroke);
    if width > 0 && colors_similar_spec(t, s) {
        (t, t, 0)
    } else {
        (t, s, width)
    }
}

/// Snaps both colours; a visible stroke of (nearly) the text's colour is
/// removed and takes the text's colour.
pub fn normalize_font_prediction(p: &mut FontColors)
    ensures
        (final(p).text_color@, final(p).stroke_color@, final(p).stroke_width as int) == normalized_colors(
            old(p).text_color@,
            old(p).stroke_color@,
            old(p).stroke_width as int,
        ),
{
    p.text_color = clamp_white(clamp_black(p.text_color));
    p.stroke_color = clamp_white(clamp_black(p.stroke_color));
    if p.stroke_width > 0 && colors_similar(p.text_color, p.stroke_color) {
        p.stroke_width = 0;
        p.stroke_color = p.text_color;
    }
}

/// Snapping a snapped colour changes nothing.
pub proof fn law_snap_is_idempotent(c: Seq<u8>)
    requires
        c.len() == 3,
    ensures
        snapped(snapped(c)) == snapped(c),
{
    let b = clamp_black_spec(c);
    let w = clamp_white_spec(b);
    if b != c {
        assert(b =~= seq![0u8, 0u8, 0u8]);
        assert(gray_spec(b));
    }
    if w != b {
        assert(w =~= seq![255u8, 255u8, 255u8]);
        assert(gray_spec(w));
        assert(clamp_black_spec(w) == w);
    } else if b != c {
        assert(clamp_black_spec(w) == w);
        assert(clamp_white_spec(w) == w);
    } else {
        assert(clamp_black_spec(w) == w);
        assert(clamp_white_spec(w) == w);
    }
}

/// Cleaning up a cleaned-up prediction changes nothing.
pub proof fn law_normalize_is_idempotent(text: Seq<u8>, stroke: Seq<u8>, width: int)
    requires
        text.len() == 3,
        stroke.len() == 3,
    ensures
        ({
            let once = normalized_colors(text, stroke, width);
            normalized_colors(once.0, once.1, once.2) == once
        }),
{
    law_snap_is_idempotent(text);
    law_snap_is_idempotent(stroke);
}

/// Two colours differ by more than 16 in at least one of red, green, blue.
pub open spec fn some_channel_apart(a: Seq<u8>, b: Seq<u8>) -> bool {
    ||| a[0] - b[0] > 16 || b[0] - a[0] > 16
    ||| a[1] - b[1] > 16 || b[1] - a[1] > 16
    ||| a[2] - b[2] > 16 || b[2] - a[2] > 16
}

/// What clean-up does to the stroke, channel by channel: both colours are
/// snapped; when any of red, green or blue of the snapped stroke differs from
/// the snapped text colour by more than 16 (or there is no stroke), the stroke
/// keeps its colour and width; only a visible stroke within 16 of the text on
/// all three channels is dropped, taking the text's colour and width zero.
pub proof fn law_stroke_is_dropped_only_when_alike(text: Seq<u8>, stroke: Seq<u8>, width: int)
    requires
        text.len() == 3,
        stroke.len() == 3,
    ensures
        ({
            let t = snapped(text);
            let s = snapped(stroke);
            let out = normalized_colors(text, stroke, width);
            &&& out.0 == t
            &&& (width <= 0 || some_channel_apart(t, s) ==> out == (t, s, width))
            &&& (width > 0 && !some_channel_apart(t, s) ==> out == (t, t, 0int))
        }),
{
    let t = snapped(text);
    let s = snapped(stroke);
    if some_channel_apart(t, s) {
        if t[0] - s[0] > 16 || s[0] - t[0] > 16 {
            assert(!channel_close(t[0], s[0]));
        } else if t[1] - s[1] > 16 || s[1] - t[1] > 16 {
            assert(!channel_close(t[1], s[1]));
        } else {
            assert(!channel_close(t[2], s[2]));
        }
    } else {
        assert forall|i: int| 0 <= i < 3 implies channel_close(#[trigger] t[i], s[i]) by {
            if i == 0 {
            } else if i == 1 {
            } else {
            }
        }
    }
}

} // verus!
