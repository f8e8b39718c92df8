//! Pieces of the annotated-overlay renderer that decide rather than draw: the
//! stroke width for a page size, the 5x7 badge font, and where a label badge
//! goes and how large it is.
use vstd::prelude::*;
use vstd::string::StringSliceAdditionalSpecFns;
use vstd::arithmetic::div_mod::lemma_fundamental_div_mod_converse;
use crate::mask::TextMask;

verus! {

/// `c` with an ASCII lowercase letter made uppercase.
pub open spec fn ascii_upper(c: char) -> char {
    if 97 <= (c as u32) <= 122 {
        (((c as u32) - 32) as u8) as char
    } else {
        c
    }
}

/// Uppercases ASCII letters, leaving every other character alone.
pub fn to_ascii_upper(c: char) -> (r: char)
    ensures
        r == ascii_upper(c),
{
    let u = c as u32;
    if 97 <= u && u <= 122 {
        ((u - 32) as u8) as char
    } else {
        c
    }
}

/// The rows of a character in the 5x7 badge font, top first; bit 4 is the
/// leftmost column. Letters are drawn in upper case, and a character outside
/// the font draws as a question mark.
pub open spec fn glyph_rows(c: char) -> Seq<u8> {
    match ascii_upper(c) {
        'A' => seq![0b01110u8, 0b10001u8, 0b10001u8, 0b11111u8, 0b10001u8, 0b10001u8, 0b10001u8],
        'B' => seq![0b11110u8, 0b10001u8, 0b10001u8, 0b11110u8, 0b10001u8, 0b10001u8, 0b11110u8],
        'C' => seq![0b01110u8, 0b10001u8, 0b10000u8, 0b10000u8, 0b10000u8, 0b10001u8, 0b01110u8],
        'D' => seq![0b11110u8, 0b10001u8, 0b10001u8, 0b10001u8, 0b10001u8, 0b10001u8, 0b11110u8],
        'E' => seq![0b11111u8, 0b10000u8, 0b10000u8, 0b11110u8, 0b10000u8, 0b10000u8, 0b11111u8],
        'F' => seq![0b11111u8, 0b10000u8, 0b10000u8, 0b11110u8, 0b10000u8, 0b10000u8, 0b10000u8],
        'G' => seq![0b01110u8, 0b10001u8, 0b10000u8, 0b10111u8, 0b10001u8, 0b10001u8, 0b01110u8],
        'H' => seq![0b10001u8, 0b10001u8, 0b10001u8, 0b11111u8, 0b10001u8, 0b10001u8, 0b10001u8],
        'I' => seq![0b11111u8, 0b00100u8, 0b00100u8, 0b00100u8, 0b00100u8, 0b00100u8, 0b11111u8],
        'J' => seq![0b00111u8, 0b00010u8, 0b00010u8, 0b00010u8, 0b10010u8, 0b10010u8, 0b01100u8],
        'K' => seq![0b10001u8, 0b10010u8, 0b10100u8, 0b11000u8, 0b10100u8, 0b10010u8, 0b10001u8],
        'L' => seq![0b10000u8, 0b10000u8, 0b10000u8, 0b10000u8, 0b10000u8, 0b10000u8, 0b11111u8],
        'M' => seq![0b10001u8, 0b11011u8, 0b10101u8, 0b10101u8, 0b10001u8, 0b10001u8, 0b10001u8],
        'N' => seq![0b10001u8, 0b11001u8, 0b10101u8, 0b10011u8, 0b10001u8, 0b10001u8, 0b10001u8],
        'O' => seq![0b01110u8, 0b10001u8, 0b10001u8, 0b10001u8, 0b10001u8, 0b10001u8, 0b01110u8],
        'P' => seq![0b11110u8, 0b10001u8, 0b10001u8, 0b11110u8, 0b10000u8, 0b10000u8, 0b10000u8],
        'Q' => seq![0b01110u8, 0b10001u8, 0b10001u8, 0b10001u8, 0b10101u8, 0b10010u8, 0b01101u8],
        'R' => seq![0b11110u8, 0b10001u8, 0b10001u8, 0b11110u8, 0b10100u8, 0b10010u8, 0b10001u8],
        'S' => seq![0b01111u8, 0b10000u8, 0b10000u8, 0b01110u8, 0b00001u8, 0b00001u8, 0b11110u8],
        'T' => seq![0b11111u8, 0b00100u8, 0b00100u8, 0b00100u8, 0b00100u8, 0b00100u8, 0b00100u8],
        'U' => seq![0b10001u8, 0b10001u8, 0b10001u8, 0b10001u8, 0b10001u8, 0b10001u8, 0b01110u8],
        'V' => seq![0b10001u8, 0b10001u8, 0b10001u8, 0b10001u8, 0b10001u8, 0b01010u8, 0b00100u8],
        'W' => seq![0b10001u8, 0b10001u8, 0b10001u8, 0b10101u8, 0b10101u8, 0b10101u8, 0b01010u8],
        'X' => seq![0b10001u8, 0b10001u8, 0b01010u8, 0b00100u8, 0b01010u8, 0b10001u8, 0b10001u8],
        'Y' => seq![0b10001u8, 0b10001u8, 0b01010u8, 0b00100u8, 0b00100u8, 0b00100u8, 0b00100u8],
        'Z' => seq![0b11111u8, 0b00001u8, 0b00010u8, 0b00100u8, 0b01000u8, 0b10000u8, 0b11111u8],
        '0' => seq![0b01110u8, 0b10001u8, 0b10011u8, 0b10101u8, 0b11001u8, 0b10001u8, 0b01110u8],
        '1' => seq![0b00100u8, 0b01100u8, 0b00100u8, 0b00100u8, 0b00100u8, 0b00100u8, 0b01110u8],
        '2' => seq![0b01110u8, 0b10001u8, 0b00001u8, 0b00010u8, 0b00100u8, 0b01000u8, 0b11111u8],
        '3' => seq![0b11110u8, 0b00001u8, 0b00001u8, 0b01110u8, 0b00001u8, 0b00001u8, 0b11110u8],
        '4' => seq![0b00010u8, 0b00110u8, 0b01010u8, 0b10010u8, 0b11111u8, 0b00010u8, 0b00010u8],
        '5' => seq![0b11111u8, 0b10000u8, 0b10000u8, 0b11110u8, 0b00001u8, 0b00001u8, 0b11110u8],
        '6' => seq![0b01110u8, 0b10000u8, 0b10000u8, 0b11110u8, 0b10001u8, 0b10001u8, 0b01110u8],
        '7' => seq![0b11111u8, 0b00001u8, 0b00010u8, 0b00100u8, 0b01000u8, 0b01000u8, 0b01000u8],
        '8' => seq![0b01110u8, 0b10001u8, 0b10001u8, 0b01110u8, 0b10001u8, 0b10001u8, 0b01110u8],
        '9' => seq![0b01110u8, 0b10001u8, 0b10001u8, 0b01111u8, 0b00001u8, 0b00001u8, 0b01110u8],
        ' ' => seq![0u8, 0u8, 0u8, 0u8, 0u8, 0u8, 0u8],
        '-' => seq![0u8, 0u8, 0u8, 0b11111u8, 0u8, 0u8, 0u8],
        _ => seq![0b11111u8, 0b00001u8, 0b00010u8, 0b00100u8, 0u8, 0b00100u8, 0u8],
    }
}

/// The 5x7 bitmap of a character.
pub fn glyph_for_char(ch: char) -> (r: [u8; 7])
    ensures
        r@ == glyph_rows(ch),
{
    let r: [u8; 7] = match to_ascii_upper(ch) {
        'A' => [0b01110, 0b10001, 0b10001, 0b11111, 0b10001, 0b10001, 0b10001],
        'B' => [0b11110, 0b10001, 0b10001, 0b11110, 0b10001, 0b10001, 0b11110],
        'C' => [0b01110, 0b10001, 0b10000, 0b10000, 0b10000, 0b10001, 0b01110],
        'D' => [0b11110, 0b10001, 0b10001, 0b10001, 0b10001, 0b10001, 0b11110],
        'E' => [0b11111, 0b10000, 0b10000, 0b11110, 0b10000, 0b10000, 0b11111],
        'F' => [0b11111, 0b10000, 0b10000, 0b11110, 0b10000, 0b10000, 0b10000],
        'G' => [0b01110, 0b10001, 0b10000, 0b10111, 0b10001, 0b10001, 0b01110],
        'H' => [0b10001, 0b10001, 0b10001, 0b11111, 0b10001, 0b10001, 0b10001],
        'I' => [0b11111, 0b00100, 0b00100, 0b00100, 0b00100, 0b00100, 0b11111],
        'J' => [0b00111, 0b00010, 0b00010, 0b00010, 0b10010, 0b10010, 0b01100],
        'K' => [0b10001, 0b10010, 0b10100, 0b11000, 0b10100, 0b10010, 0b10001],
        'L' => [0b10000, 0b10000, 0b10000, 0b10000, 0b10000, 0b10000, 0b11111],
        'M' => [0b10001, 0b11011, 0b10101, 0b10101, 0b10001, 0b10001, 0b10001],
        'N' => [0b10001, 0b11001, 0b10101, 0b10011, 0b10001, 0b10001, 0b10001],
        'O' => [0b01110, 0b10001, 0b10001, 0b10001, 0b10001, 0b10001, 0b01110],
        'P' => [0b11110, 0b10001, 0b10001, 0b11110, 0b10000, 0b10000, 0b10000],
        'Q' => [0b01110, 0b10001, 0b10001, 0b10001, 0b10101, 0b10010, 0b01101],
        'R' => [0b11110, 0b10001, 0b10001, 0b11110, 0b10100, 0b10010, 0b10001],
        'S' => [0b01111, 0b10000, 0b10000, 0b01110, 0b00001, 0b00001, 0b11110],
        'T' => [0b11111, 0b00100, 0b00100, 0b00100, 0b00100, 0b00100, 0b00100],
        'U' => [0b10001, 0b10001, 0b10001, 0b10001, 0b10001, 0b10001, 0b01110],
        'V' => [0b10001, 0b10001, 0b10001, 0b10001, 0b10001, 0b01010, 0b00100],
        'W' => [0b10001, 0b10001, 0b10001, 0b10101, 0b10101, 0b10101, 0b01010],
        'X' => [0b10001, 0b10001, 0b01010, 0b00100, 0b01010, 0b10001, 0b10001],
        'Y' => [0b10001, 0b10001, 0b01010, 0b00100, 0b00100, 0b00100, 0b00100],
        'Z' => [0b11111, 0b00001, 0b00010, 0b00100, 0b01000, 0b10000, 0b11111],
        '0' => [0b01110, 0b10001, 0b10011, 0b10101, 0b11001, 0b10001, 0b01110],
        '1' => [0b00100, 0b01100, 0b00100, 0b00100, 0b00100, 0b00100, 0b01110],
        '2' => [0b01110, 0b10001, 0b00001, 0b00010, 0b00100, 0b01000, 0b11111],
        '3' => [0b11110, 0b00001, 0b00001, 0b01110, 0b00001, 0b00001, 0b11110],
        '4' => [0b00010, 0b00110, 0b01010, 0b10010, 0b11111, 0b00010, 0b00010],
        '5' => [0b11111, 0b10000, 0b10000, 0b11110, 0b00001, 0b00001, 0b11110],
        '6' => [0b01110, 0b10000, 0b10000, 0b11110, 0b10001, 0b10001, 0b01110],
        '7' => [0b11111, 0b00001, 0b00010, 0b00100, 0b01000, 0b01000, 0b01000],
        '8' => [0b01110, 0b10001, 0b10001, 0b01110, 0b10001, 0b10001, 0b01110],
        '9' => [0b01110, 0b10001, 0b10001, 0b01111, 0b00001, 0b00001, 0b01110],
        ' ' => [0, 0, 0, 0, 0, 0, 0],
        '-' => [0, 0, 0, 0b11111, 0, 0, 0],
        _ => [0b11111, 0b00001, 0b00010, 0b00100, 0, 0b00100, 0],
    };
    assert(r@ =~= glyph_rows(ch));
    r
}

/// Glyphs ignore case.
pub proof fn law_glyphs_ignore_case(c: char)
    ensures
        glyph_rows(c) == glyph_rows(ascii_upper(c)),
{
}

/// The characters the badge font draws, after upper-casing: letters, digits,
/// space and hyphen.
pub open spec fn in_font(c: char) -> bool {
    let u = ascii_upper(c) as u32;
    ||| 65 <= u <= 90
    ||| 48 <= u <= 57
    ||| u == 32
    ||| u == 45
}

/// The rows of a glyph read as one number, five bits a row, first row lowest.
pub open spec fn rows_key(s: Seq<u8>) -> int {
    s[0] + 32 * (s[1] + 32 * (s[2] + 32 * (s[3] + 32 * (s[4] + 32 * (s[5] + 32 * s[6])))))
}

/// The character whose glyph has key `k`; `?` for any other key.
pub open spec fn char_of_key(k: int) -> char {
    if k == 18842895918 {
        'A'
    } else if k == 32801506878 {
        'B'
    } else if k == 15620129326 {
        'C'
    } else if k == 32801080894 {
        'D'
    } else if k == 33840644639 {
        'E'
    } else if k == 17734517279 {
        'F'
    } else if k == 15621407278 {
        'G'
    } else if k == 18842895921 {
        'H'
    } else if k == 33424543903 {
        'I'
    } else if k == 13507823687 {
        'J'
    } else if k == 18879369809 {
        'K'
    } else if k == 33840185872 {
        'L'
    } else if k == 18842572657 {
        'M'
    } else if k == 18842507057 {
        'N'
    } else if k == 15621211694 {
        'O'
    } else if k == 17734518334 {
        'P'
    } else if k == 14585218606 {
        'Q'
    } else if k == 18879563326 {
        'R'
    } else if k == 32247333391 {
        'S'
    } else if k == 4433514655 {
        'T'
    } else if k == 15621211697 {
        'U'
    } else if k == 4648912433 {
        'V'
    } else if k == 11464787505 {
        'W'
    } else if k == 18834663985 {
        'X'
    } else if k == 4433521201 {
        'Y'
    } else if k == 33831389247 {
        'Z'
    } else if k == 15629733422 {
        '0'
    } else if k == 15170933124 {
        '1'
    } else if k == 33558693422 {
        '2'
    } else if k == 32247317566 {
        '3'
    } else if k == 2247698626 {
        '4'
    } else if k == 32247857695 {
        '5'
    } else if k == 15621636622 {
        '6'
    } else if k == 8866891839 {
        '7'
    } else if k == 15621113390 {
        '8'
    } else if k == 15067498030 {
        '9'
    } else if k == 0 {
        ' '
    } else if k == 1015808 {
        '-'
    } else {
        '?'
    }
}

/// A font character's glyph names the character back.
#[verifier::rlimit(50)]
proof fn lemma_glyph_names_its_char(c: char)
    requires
        in_font(c),
    ensures
        char_of_key(rows_key(glyph_rows(c))) == ascii_upper(c),
{
}

/// The glyph drawn for a character outside the font has no character's key.
proof fn lemma_fallback_names_nothing(c: char)
    requires
        !in_font(c),
    ensures
        char_of_key(rows_key(glyph_rows(c))) == '?',
{
}

/// Distinct font characters (after upper-casing) draw distinct glyphs, and no
/// font character draws the glyph used for characters outside the font.
pub proof fn law_glyphs_are_distinct(a: char, b: char)
    ensures
        in_font(a) && in_font(b) && ascii_upper(a) != ascii_upper(b) ==> glyph_rows(a) != glyph_rows(b),
        in_font(a) && !in_font(b) ==> glyph_rows(a) != glyph_rows(b),
{
    if in_font(a) {
        lemma_glyph_names_its_char(a);
        if in_font(b) {
            lemma_glyph_names_its_char(b);
        } else {
            lemma_fallback_names_nothing(b);
        }
    }
}

/// Every glyph is seven rows of five columns.
pub proof fn law_glyphs_fit_the_cell(c: char)
    ensures
        glyph_rows(c).len() == 7,
        forall|i: int| 0 <= i < 7 ==> #[trigger] glyph_rows(c)[i] < 32,
{
}

/// Whether column `col` of a glyph row is lit.
pub open spec fn pixel_on(bits: u8, col: int) -> bool {
    (bits >> ((4 - col) as u8)) & 1u8 == 1u8
}

/// Whether the glyph pixel at `row`, `col` is lit.
pub fn glyph_pixel_on(glyph: &[u8; 7], row: usize, col: u32) -> (r: bool)
    requires
        row < 7,
        col < 5,
    ensures
        r == pixel_on(glyph@[row as int], col as int),
{
    let shift = (4 - col) as u8;
    (glyph[row] >> shift) & 1 == 1
}

/// `round(max(width, height) / 1800)`, kept within `[1, 8]`.
pub open spec fn stroke_radius_spec(width: int, height: int) -> int {
    let m = if width >= height { width } else { height };
    let r = (m + 900) / 1800;
    if r < 1 {
        1
    } else if r > 8 {
        8
    } else {
        r
    }
}

/// Outline thickness for a page: one pixel per 1800 pixels of its long side,
/// rounded, from 1 to 8.
pub fn stroke_radius(width: u32, height: u32) -> (r: i32)
    ensures
        r == stroke_radius_spec(width as int, height as int),
        1 <= r <= 8,
{
    let m: u64 = if width >= height { width as u64 } else { height as u64 };
    let q = (m + 900) / 1800;
    if q < 1 {
        1
    } else if q > 8 {
        8
    } else {
        q as i32
    }
}

/// Scale of the badge font for a stroke radius: one more, at least two.
pub fn badge_scale(stroke_radius: i32) -> (r: i32)
    requires
        stroke_radius < 0x7fff_ffff,
    ensures
        r == if stroke_radius + 1 >= 2 { stroke_radius + 1 } else { 2 },
{
    let s = stroke_radius + 1;
    if s >= 2 {
        s
    } else {
        2
    }
}

pub open spec fn fits_i32(v: int) -> bool {
    i32::MIN <= v <= i32::MAX
}

/// Padding around the badge text: the scale, at least one.
pub open spec fn badge_padding(scale: int) -> int {
    if scale >= 1 {
        scale
    } else {
        1
    }
}

/// Width of a badge for `len` characters: padding on both sides, five columns
/// per character and one column between characters, all times `scale`.
pub open spec fn badge_width_spec(len: int, scale: int) -> int {
    let gaps = if len - 1 >= 0 { len - 1 } else { 0 };
    badge_padding(scale) * 2 + len * (5 * scale) + gaps * scale
}

/// Height of a badge: padding above and below seven rows.
pub open spec fn badge_height_spec(scale: int) -> int {
    badge_padding(scale) * 2 + 7 * scale
}

/// Every intermediate value of the badge size fits in `i32`.
pub open spec fn badge_fits(len: int, scale: int) -> bool {
    let gaps = if len - 1 >= 0 { len - 1 } else { 0 };
    &&& fits_i32(len)
    &&& fits_i32(5 * scale)
    &&& fits_i32(7 * scale)
    &&& fits_i32(badge_padding(scale) * 2)
    &&& fits_i32(len * (5 * scale))
    &&& fits_i32(gaps * scale)
    &&& fits_i32(badge_padding(scale) * 2 + len * (5 * scale))
    &&& fits_i32(badge_width_spec(len, scale))
    &&& fits_i32(badge_height_spec(scale))
}

/// Width and height of the badge that shows `label` at `scale`.
pub fn badge_size(label: &str, scale: i32) -> (r: (i32, i32))
    requires
        badge_fits(label.spec_bytes().len() as int, scale as int),
    ensures
        r.0 == badge_width_spec(label.spec_bytes().len() as int, scale as int),
        r.1 == badge_height_spec(scale as int),
{
    let len = label.len() as i32;
    let padding = if scale >= 1 { scale } else { 1 };
    let char_width = 5 * scale;
    let char_height = 7 * scale;
    let spacing = scale;
    let gaps = if len - 1 >= 0 { len - 1 } else { 0 };
    let width = padding * 2 + len * char_width + gaps * spacing;
    let height = padding * 2 + char_height;
    (width, height)
}

/// The text a badge shows: underscores as spaces, ASCII letters upper case.
pub open spec fn badge_char(c: char) -> char {
    if c == '_' {
        ' '
    } else {
        ascii_upper(c)
    }
}

/// The characters a badge shows for `label`.
pub fn badge_text(label: &str) -> (r: Vec<char>)
    ensures
        r@ == label@.map_values(|c: char| badge_char(c)),
{
    let n = label.unicode_len();
    let mut out: Vec<char> = Vec::new();
    let mut i: usize = 0;
    while i < n
        invariant
            i <= n,
            n == label@.len(),
            out@ == label@.take(i as int).map_values(|c: char| badge_char(c)),
        decreases n - i,
    {
        let c = label.get_char(i);
        let shown = if c == '_' { ' ' } else { to_ascii_upper(c) };
        out.push(shown);
        proof {
            assert(label@.take(i + 1).map_values(|c: char| badge_char(c)) =~= label@.take(
                i as int,
            ).map_values(|c: char| badge_char(c)).push(badge_char(c)));
        }
        i += 1;
    }
    proof {
        assert(label@.take(n as int) =~= label@);
    }
    out
}

pub open spec fn clamp_int(v: int, lo: int, hi: int) -> int {
    if v < lo {
        lo
    } else if v > hi {
        hi
    } else {
        v
    }
}

/// Top-left corner of a badge anchored at a box corner: above the box, or
/// below its top edge when there is no room above, then kept on the image.
pub open spec fn badge_origin_spec(anchor_x: int, anchor_y: int, badge_w: int, badge_h: int, scale: int, image_w: int, image_h: int) -> (int, int) {
    let above = anchor_y - badge_h - scale;
    let y = if above < 0 { anchor_y + scale } else { above };
    let max_x = if image_w - badge_w >= 0 { image_w - badge_w } else { 0 };
    let max_y = if image_h - badge_h >= 0 { image_h - badge_h } else { 0 };
    (clamp_int(anchor_x, 0, max_x), clamp_int(y, 0, max_y))
}

/// Where a badge of `badge_w` by `badge_h` goes for a box whose top-left
/// corner is `anchor_x`, `anchor_y`.
pub fn badge_origin(anchor_x: i32, anchor_y: i32, badge_w: i32, badge_h: i32, scale: i32, image_w: i32, image_h: i32) -> (r: (i32, i32))
    requires
        fits_i32(anchor_y - badge_h),
        fits_i32(anchor_y - badge_h - scale),
        fits_i32(anchor_y + scale),
        fits_i32(image_w - badge_w),
        fits_i32(image_h - badge_h),
    ensures
        (r.0 as int, r.1 as int) == badge_origin_spec(
            anchor_x as int,
            anchor_y as int,
            badge_w as int,
            badge_h as int,
            scale as int,
            image_w as int,
            image_h as int,
        ),
{
    let mut y = anchor_y - badge_h - scale;
    if y < 0 {
        y = anchor_y + scale;
    }
    let max_x = if image_w - badge_w >= 0 { image_w - badge_w } else { 0 };
    let max_y = if image_h - badge_h >= 0 { image_h - badge_h } else { 0 };
    let x = if anchor_x < 0 { 0 } else if anchor_x > max_x { max_x } else { anchor_x };
    let y = if y < 0 { 0 } else if y > max_y { max_y } else { y };
    (x, y)
}

/// 40% of the colour over a channel: `(3 page + 2 colour) / 5`.
pub open spec fn blend_channel(page: u8, color: u8) -> u8 {
    ((3 * page + 2 * color) / 5) as u8
}

/// Pixel `k` of a `width`-wide page lies on a lit pixel of the mask.
pub open spec fn mask_lit(mask: TextMask, width: int, k: int) -> bool {
    let x = k % width;
    let y = k / width;
    &&& x < mask.width_spec()
    &&& y < mask.height_spec()
    &&& mask.pixels_spec()[y * mask.width_spec() + x] != 0
}

/// Byte `i` of an RGBA page after tinting under the mask: colour channels of
/// lit pixels blended, alpha and unlit pixels kept.
pub open spec fn tinted(page: Seq<u8>, width: int, mask: TextMask, color: Seq<u8>, i: int) -> u8 {
    let k = i / 4;
    let ch = i % 4;
    if ch < 3 && mask_lit(mask, width, k) {
        blend_channel(page[i], color[ch])
    } else {
        page[i]
    }
}

proof fn lemma_split(k: int, w: int, q: int, r: int)
    requires
        w > 0,
        0 <= r < w,
        k == q * w + r,
    ensures
        k / w == q,
        k % w == r,
{
    lemma_fundamental_div_mod_converse(k, w, q, r);
}

/// Tints an RGBA page (`width` by `height`, four bytes a pixel) with
/// `color` wherever the mask is lit; parts of the page the mask does not
/// reach are left alone.
pub fn blend_mask(image: &mut Vec<u8>, width: u32, height: u32, mask: &TextMask, color: [u8; 4])
    requires
        old(image)@.len() == width as int * height as int * 4,
    ensures
        final(image)@.len() == old(image)@.len(),
        forall|i: int| 0 <= i < final(image)@.len() ==> #[trigger] final(image)@[i] == tinted(old(image)@, width as int, *mask, color@, i),
{
    let ghost page = image@;
    let n = image.len();
    if width == 0 {
        proof {
            assert(page.len() == 0);
        }
        return;
    }
    let mut y: u32 = 0;
    while y < height
        invariant
            n == image@.len(),
            page.len() == n,
            page == old(image)@,
            n == width as int * height as int * 4,
            width > 0,
            y <= height,
            forall|i: int| 0 <= i < y * width * 4 ==> #[trigger] image@[i] == tinted(page, width as int, *mask, color@, i),
            forall|i: int| y * width * 4 <= i < n ==> #[trigger] image@[i] == page[i],
        decreases height - y,
    {
        let mut x: u32 = 0;
        while x < width
            invariant
                n == image@.len(),
                page.len() == n,
                n == width as int * height as int * 4,
                width > 0,
                y < height,
                x <= width,
                forall|i: int| 0 <= i < (y * width + x) * 4 ==> #[trigger] image@[i] == tinted(page, width as int, *mask, color@, i),
                forall|i: int| (y * width + x) * 4 <= i < n ==> #[trigger] image@[i] == page[i],
            decreases width - x,
        {
            proof {
                assert((y * width + x) * 4 + 4 <= n) by (nonlinear_arith)
                    requires y < height, x < width, n == width * height * 4;
                lemma_split(y * width + x, width as int, y as int, x as int);
            }
            let k = (y as usize) * (width as usize) + (x as usize);
            let lit = x < mask.width() && y < mask.height() && mask.pixel(x, y) != 0;
            let ghost before = image@;
            if lit {
                let mut ch: usize = 0;
                while ch < 3
                    invariant
                        n == image@.len(),
                        k == y * width + x,
                        4 * k + 4 <= n,
                        ch <= 3,
                        forall|i: int| 0 <= i < 4 * k ==> #[trigger] image@[i] == before[i],
                        forall|i: int| 4 * k + ch <= i < n ==> #[trigger] image@[i] == before[i],
                        forall|c: int| 0 <= c < ch ==> #[trigger] image@[4 * k + c] == blend_channel(before[4 * k + c], color@[c]),
                    decreases 3 - ch,
                {
                    let v = image[4 * k + ch] as u32;
                    let blended = ((3 * v + 2 * color[ch] as u32) / 5) as u8;
                    image.set(4 * k + ch, blended);
                    ch += 1;
                }
            }
            proof {
                assert forall|i: int| 0 <= i < (y * width + x + 1) * 4 implies #[trigger] image@[i] == tinted(page, width as int, *mask, color@, i) by {
                    if i >= 4 * k {
                        let c = i - 4 * k;
                        lemma_split(i, 4, k as int, c);
                        assert(before[i] == page[i]);
                        if c < 3 && lit {
                            assert(image@[4 * k + c] == blend_channel(before[4 * k + c], color@[c]));
                        }
                    }
                }
                assert((y * width + x + 1) * 4 == (y * width + x) * 4 + 4);
            }
            x += 1;
        }
        proof {
            assert((y + 1) * width * 4 == (y * width + width) * 4) by (nonlinear_arith);
        }
        y += 1;
    }
    proof {
        assert(height * width * 4 == n) by (nonlinear_arith)
            requires n == width * height * 4;
    }
}

} // verus!
