//! The color value model: an immutable 8-bit RGB triple with hex
//! parsing/formatting, exact rational HSL conversion, and the compositing
//! operators (darken, lighten, blend, saturate).
//!
//! Fractional amounts are exact rationals (`Frac`), and every operator
//! truncates when narrowing back to an 8-bit channel.

use crate::util::get_max;
use crate::util::get_min;
use crate::util::max3;
use crate::util::min3;
use vstd::arithmetic::div_mod::lemma_div_multiples_vanish;
use vstd::arithmetic::div_mod::lemma_fundamental_div_mod_converse;
use vstd::prelude::*;

verus! {

/// An immutable 8-bit RGB color value.
#[derive(Debug, Clone, Copy, PartialEq, Eq, Structural)]
pub struct Color {
    pub r: u8,
    pub g: u8,
    pub b: u8,
}

/// The channel a pixel comparison or sort goes by.
#[derive(Debug, Clone, Copy, PartialEq, Eq, Structural)]
pub enum ColorOrderBy {
    R,
    G,
    B,
}

/// A malformed hex color string: too short, or a non-hex digit where one of
/// the six digits of `#RRGGBB` is expected.
#[derive(Debug, Clone, Copy, PartialEq, Eq, Structural)]
pub struct ParseError;

/// An exact fractional amount in [0, 1]: `num / den`.
#[derive(Debug, Clone, Copy, PartialEq, Eq, Structural)]
pub struct Frac {
    pub num: u32,
    pub den: u32,
}

impl Frac {
    /// A well-formed amount: a proper fraction with a small denominator, so
    /// that every intermediate product of the color math fits in a `u64`.
    pub open spec fn wf(self) -> bool {
        0 < self.den <= 10000 && self.num <= self.den
    }

    pub fn new(num: u32, den: u32) -> (r: Frac)
        requires
            0 < den <= 10000,
            num <= den,
        ensures
            r == (Frac { num, den }),
            r.wf(),
    {
        Frac { num, den }
    }
}

/// One channel scaled by `1 - amount`, truncated.
pub open spec fn darken_chan(ch: u8, amount: Frac) -> int {
    (ch * (amount.den - amount.num)) / (amount.den as int)
}

/// One channel moved toward 255 by `amount` of the remaining headroom,
/// truncated.
pub open spec fn lighten_chan(ch: u8, amount: Frac) -> int {
    ch + ((255 - ch) * amount.num) / (amount.den as int)
}

/// The truncated per-operand average: `a/2 + b/2`, not `(a+b)/2`.
pub open spec fn blend_chan(a: u8, b: u8) -> int {
    a / 2 + b / 2
}

/// An exact rational HSL triple: hue `h_num / h_den` in degrees [0, 360),
/// saturation `s_num / s_den` and lightness `l_num / l_den` in [0, 1].
///
/// Keeping the components as exact fractions lets the conversions truncate
/// only once, at the final narrowing back to 8-bit channels.
#[derive(Debug, Clone, Copy, PartialEq, Eq, Structural)]
pub struct Hsl {
    pub h_num: u32,
    pub h_den: u32,
    pub s_num: u32,
    pub s_den: u32,
    pub l_num: u32,
    pub l_den: u32,
}

impl Hsl {
    /// Well-formed: hue below 360 degrees, saturation and lightness proper
    /// fractions, all denominators positive and small enough that every
    /// intermediate product of the conversion back to RGB fits in a `u64`.
    pub open spec fn wf(self) -> bool {
        &&& 0 < self.h_den <= 10000
        &&& 0 < self.s_den <= 10000
        &&& 0 < self.l_den <= 10000
        &&& self.h_num < 360 * self.h_den
        &&& self.s_num <= self.s_den
        &&& self.l_num <= self.l_den
    }
}

/// The hue of a color as an exact fraction in degrees: 0 when achromatic,
/// else the standard sector formula over the dominant channel.
pub open spec fn hue_parts(c: Color) -> (int, int) {
    let mx = max3(c.r as int, c.g as int, c.b as int);
    let mn = min3(c.r as int, c.g as int, c.b as int);
    let range = mx - mn;
    if range == 0 {
        (0int, 1int)
    } else if mx == c.r {
        if c.g >= c.b {
            (60 * (c.g - c.b), range)
        } else {
            (360 * range - 60 * (c.b - c.g), range)
        }
    } else if mx == c.g {
        (120 * range + 60 * c.b - 60 * c.r, range)
    } else {
        (240 * range + 60 * c.r - 60 * c.g, range)
    }
}

/// The saturation of a color as an exact fraction: 0 for pure black or pure
/// white, else `(max - min) / (1 - |max + min - 1|)` over channels
/// normalized to [0, 1], cleared of the common factor 255.
pub open spec fn sat_parts(c: Color) -> (int, int) {
    let mx = max3(c.r as int, c.g as int, c.b as int);
    let mn = min3(c.r as int, c.g as int, c.b as int);
    if mx == 0 || mn == 255 {
        (0int, 1int)
    } else if mx + mn <= 255 {
        (mx - mn, mx + mn)
    } else {
        (mx - mn, 510 - mx - mn)
    }
}

/// The exact HSL triple of a color; lightness is `(max + min) / 510`.
pub open spec fn spec_to_hsl(c: Color) -> Hsl {
    let mx = max3(c.r as int, c.g as int, c.b as int);
    let mn = min3(c.r as int, c.g as int, c.b as int);
    Hsl {
        h_num: hue_parts(c).0 as u32,
        h_den: hue_parts(c).1 as u32,
        s_num: sat_parts(c).0 as u32,
        s_den: sat_parts(c).1 as u32,
        l_num: (mx + mn) as u32,
        l_den: 510u32,
    }
}

/// `|2l - 1|` over the lightness denominator: the numerator of the distance
/// of lightness from one half, scaled by `l_den`.
pub open spec fn hsl_abs2(h: Hsl) -> int {
    if 2 * h.l_num >= h.l_den {
        2 * h.l_num - h.l_den
    } else {
        h.l_den - 2 * h.l_num
    }
}

/// Chroma numerator: chroma `(1 - |2l - 1|) * s` is `hsl_cn / hsl_cd`.
pub open spec fn hsl_cn(h: Hsl) -> int {
    (h.l_den - hsl_abs2(h)) * h.s_num
}

/// Chroma denominator.
pub open spec fn hsl_cd(h: Hsl) -> int {
    h.l_den * h.s_den
}

/// The denominator of the hue sector position `h / 60`.
pub open spec fn hsl_td(h: Hsl) -> int {
    60 * h.h_den
}

/// The hue sector, 0 through 5.
pub open spec fn hsl_sector(h: Hsl) -> int {
    h.h_num as int / hsl_td(h)
}

/// The numerator of the position within the sector, over `hsl_td`.
pub open spec fn hsl_tn(h: Hsl) -> int {
    h.h_num as int % hsl_td(h)
}

/// The numerator of the secondary component `x = chroma * (1 - |h/60 mod 2
/// - 1|)`, over `hsl_cd * hsl_td`.
pub open spec fn hsl_xn(h: Hsl) -> int {
    if hsl_sector(h) % 2 == 0 {
        hsl_cn(h) * hsl_tn(h)
    } else {
        hsl_cn(h) * (hsl_td(h) - hsl_tn(h))
    }
}

/// The numerator of the match value `m = l - chroma / 2`, over `2 * hsl_cd`.
pub open spec fn hsl_mn(h: Hsl) -> int {
    2 * h.l_num * h.s_den - hsl_cn(h)
}

/// The 8-bit channel that gets `chroma + m`, truncated.
pub open spec fn hsl_chan_c(h: Hsl) -> int {
    ((2 * hsl_cn(h) + hsl_mn(h)) * 255) / (2 * hsl_cd(h))
}

/// The 8-bit channel that gets `x + m`, truncated.
pub open spec fn hsl_chan_x(h: Hsl) -> int {
    ((2 * hsl_xn(h) + hsl_mn(h) * hsl_td(h)) * 255) / (2 * hsl_cd(h) * hsl_td(h))
}

/// The 8-bit channel that gets `m` alone, truncated.
pub open spec fn hsl_chan_m(h: Hsl) -> int {
    (hsl_mn(h) * 255) / (2 * hsl_cd(h))
}

/// The color an HSL triple converts back to: the standard six-sector chroma
/// decomposition, truncating each channel.
pub open spec fn spec_from_hsl(h: Hsl) -> Color {
    let s = hsl_sector(h);
    if s == 0 {
        Color { r: hsl_chan_c(h) as u8, g: hsl_chan_x(h) as u8, b: hsl_chan_m(h) as u8 }
    } else if s == 1 {
        Color { r: hsl_chan_x(h) as u8, g: hsl_chan_c(h) as u8, b: hsl_chan_m(h) as u8 }
    } else if s == 2 {
        Color { r: hsl_chan_m(h) as u8, g: hsl_chan_c(h) as u8, b: hsl_chan_x(h) as u8 }
    } else if s == 3 {
        Color { r: hsl_chan_m(h) as u8, g: hsl_chan_x(h) as u8, b: hsl_chan_c(h) as u8 }
    } else if s == 4 {
        Color { r: hsl_chan_x(h) as u8, g: hsl_chan_m(h) as u8, b: hsl_chan_c(h) as u8 }
    } else {
        Color { r: hsl_chan_c(h) as u8, g: hsl_chan_m(h) as u8, b: hsl_chan_x(h) as u8 }
    }
}

/// Saturation replaced outright by `amount` (not scaled by it), through HSL
/// and back.
pub open spec fn spec_saturate(c: Color, amount: Frac) -> Color {
    let h = spec_to_hsl(c);
    spec_from_hsl(Hsl { s_num: amount.num, s_den: amount.den, ..h })
}

/// The channel of a color that a given ordering goes by.
pub open spec fn spec_chan(c: Color, order: ColorOrderBy) -> u8 {
    match order {
        ColorOrderBy::R => c.r,
        ColorOrderBy::G => c.g,
        ColorOrderBy::B => c.b,
    }
}

pub open spec fn is_hex_digit(c: char) -> bool {
    ('0' as int <= c as int && c as int <= '9' as int) || ('a' as int <= c as int && c as int
        <= 'f' as int) || ('A' as int <= c as int && c as int <= 'F' as int)
}

/// The value of a hex digit character; meaningful when `is_hex_digit` holds.
pub open spec fn hex_val_spec(c: char) -> int {
    if '0' as int <= c as int && c as int <= '9' as int {
        c as int - '0' as int
    } else if 'a' as int <= c as int && c as int <= 'f' as int {
        c as int - 'a' as int + 10
    } else {
        c as int - 'A' as int + 10
    }
}

/// The canonical (uppercase) character for a hex digit value in [0, 16).
pub open spec fn hex_digit_char(d: int) -> char {
    if d < 10 {
        ('0' as int + d) as char
    } else {
        ('A' as int + (d - 10)) as char
    }
}

/// The canonical 7-character `#RRGGBB` form of a color.
pub open spec fn to_hex_spec(c: Color) -> Seq<char> {
    seq![
        '#',
        hex_digit_char(c.r as int / 16),
        hex_digit_char(c.r as int % 16),
        hex_digit_char(c.g as int / 16),
        hex_digit_char(c.g as int % 16),
        hex_digit_char(c.b as int / 16),
        hex_digit_char(c.b as int % 16),
    ]
}

/// What parsing a hex color string yields: the color read from the six hex
/// digits at positions 1 through 6, or nothing when the string is shorter
/// than 7 characters or one of those positions holds a non-hex character.
pub open spec fn parse_hex(s: Seq<char>) -> Option<Color> {
    if s.len() >= 7 && is_hex_digit(s[1]) && is_hex_digit(s[2]) && is_hex_digit(s[3])
        && is_hex_digit(s[4]) && is_hex_digit(s[5]) && is_hex_digit(s[6]) {
        Some(
            Color {
                r: (hex_val_spec(s[1]) * 16 + hex_val_spec(s[2])) as u8,
                g: (hex_val_spec(s[3]) * 16 + hex_val_spec(s[4])) as u8,
                b: (hex_val_spec(s[5]) * 16 + hex_val_spec(s[6])) as u8,
            },
        )
    } else {
        None
    }
}

/// The position of the first `#` in a character sequence.
pub open spec fn find_hash(s: Seq<char>) -> Option<int>
    decreases s.len(),
{
    if s.len() == 0 {
        None
    } else if s[0] == '#' {
        Some(0int)
    } else {
        match find_hash(s.drop_first()) {
            Some(i) => Some(i + 1),
            None => None,
        }
    }
}

/// The color that a line of text carries: the hex color starting at the
/// first `#`, if there is one and it parses.
pub open spec fn find_color_spec(s: Seq<char>) -> Option<Color> {
    match find_hash(s) {
        Some(i) => parse_hex(s.skip(i)),
        None => None,
    }
}

/// The per-channel sums of a pixel sequence.
pub open spec fn sum_r(s: Seq<Color>) -> int
    decreases s.len(),
{
    if s.len() == 0 {
        0
    } else {
        sum_r(s.drop_last()) + s.last().r
    }
}

pub open spec fn sum_g(s: Seq<Color>) -> int
    decreases s.len(),
{
    if s.len() == 0 {
        0
    } else {
        sum_g(s.drop_last()) + s.last().g
    }
}

pub open spec fn sum_b(s: Seq<Color>) -> int
    decreases s.len(),
{
    if s.len() == 0 {
        0
    } else {
        sum_b(s.drop_last()) + s.last().b
    }
}

/// The per-channel truncated mean of a pixel sequence; meaningful when the
/// sequence is non-empty.
pub open spec fn spec_average(s: Seq<Color>) -> Color {
    Color {
        r: (sum_r(s) / s.len() as int) as u8,
        g: (sum_g(s) / s.len() as int) as u8,
        b: (sum_b(s) / s.len() as int) as u8,
    }
}

/// The ordering of two colors on one channel.
pub open spec fn spec_compare_by(p1: Color, p2: Color, order: ColorOrderBy) -> core::cmp::Ordering {
    if spec_chan(p1, order) < spec_chan(p2, order) {
        core::cmp::Ordering::Less
    } else if spec_chan(p1, order) == spec_chan(p2, order) {
        core::cmp::Ordering::Equal
    } else {
        core::cmp::Ordering::Greater
    }
}

/// The value of a hex digit character, or nothing for any other character.
fn hex_val(c: char) -> (r: Option<u8>)
    ensures
        r is Some <==> is_hex_digit(c),
        r matches Some(v) ==> v == hex_val_spec(c) && v < 16,
{
    let u = c as u32;
    if 48 <= u && u <= 57 {
        Some((u - 48) as u8)
    } else if 97 <= u && u <= 102 {
        Some((u - 97 + 10) as u8)
    } else if 65 <= u && u <= 70 {
        Some((u - 65 + 10) as u8)
    } else {
        None
    }
}

/// The canonical (uppercase) one-character string for a hex digit value.
pub(crate) fn hex_digit_str(d: u8) -> (r: &'static str)
    requires
        d < 16,
    ensures
        r@ == seq![hex_digit_char(d as int)],
{
    proof {
        reveal_strlit("0");
        reveal_strlit("1");
        reveal_strlit("2");
        reveal_strlit("3");
        reveal_strlit("4");
        reveal_strlit("5");
        reveal_strlit("6");
        reveal_strlit("7");
        reveal_strlit("8");
        reveal_strlit("9");
        reveal_strlit("A");
        reveal_strlit("B");
        reveal_strlit("C");
        reveal_strlit("D");
        reveal_strlit("E");
        reveal_strlit("F");
    }
    let r = match d {
        0 => "0",
        1 => "1",
        2 => "2",
        3 => "3",
        4 => "4",
        5 => "5",
        6 => "6",
        7 => "7",
        8 => "8",
        9 => "9",
        10 => "A",
        11 => "B",
        12 => "C",
        13 => "D",
        14 => "E",
        _ => "F",
    };
    proof {
        assert(r@ =~= seq![hex_digit_char(d as int)]);
    }
    r
}

/// A channel of a hex digit value in [0, 16) round-trips through its
/// canonical character.
proof fn lemma_hex_digit_round_trip(d: int)
    requires
        0 <= d < 16,
    ensures
        is_hex_digit(hex_digit_char(d)),
        hex_val_spec(hex_digit_char(d)) == d,
{
}

/// A channel scaled by a proper fraction stays a channel: the product is
/// small and the truncated quotient no larger than the channel itself.
proof fn lemma_chan_scale(ch: int, num: int, den: int)
    by (nonlinear_arith)
    requires
        0 <= ch <= 255,
        0 < den <= 10000,
        0 <= num <= den,
    ensures
        0 <= ch * num <= 2550000,
        (ch * num) / den <= ch,
{
}

impl Color {
    pub open spec fn spec_darken(self, amount: Frac) -> Color {
        Color {
            r: darken_chan(self.r, amount) as u8,
            g: darken_chan(self.g, amount) as u8,
            b: darken_chan(self.b, amount) as u8,
        }
    }

    pub open spec fn spec_lighten(self, amount: Frac) -> Color {
        Color {
            r: lighten_chan(self.r, amount) as u8,
            g: lighten_chan(self.g, amount) as u8,
            b: lighten_chan(self.b, amount) as u8,
        }
    }

    pub open spec fn spec_blend(self, other: Color) -> Color {
        Color {
            r: blend_chan(self.r, other.r) as u8,
            g: blend_chan(self.g, other.g) as u8,
            b: blend_chan(self.b, other.b) as u8,
        }
    }

    pub fn new(r: u8, g: u8, b: u8) -> (c: Color)
        ensures
            c == (Color { r, g, b }),
    {
        Color { r, g, b }
    }

    /// Each channel scaled by `1 - amount`, truncated.
    pub fn darken(self, amount: Frac) -> (c: Color)
        requires
            amount.wf(),
        ensures
            c == self.spec_darken(amount),
    {
        let keep: u64 = (amount.den - amount.num) as u64;
        let den: u64 = amount.den as u64;
        proof {
            lemma_chan_scale(self.r as int, keep as int, den as int);
            lemma_chan_scale(self.g as int, keep as int, den as int);
            lemma_chan_scale(self.b as int, keep as int, den as int);
        }
        Color {
            r: ((self.r as u64 * keep) / den) as u8,
            g: ((self.g as u64 * keep) / den) as u8,
            b: ((self.b as u64 * keep) / den) as u8,
        }
    }

    /// Each channel moved toward 255 by `amount` of the remaining headroom,
    /// truncated.
    pub fn lighten(self, amount: Frac) -> (c: Color)
        requires
            amount.wf(),
        ensures
            c == self.spec_lighten(amount),
    {
        let num: u64 = amount.num as u64;
        let den: u64 = amount.den as u64;
        proof {
            lemma_chan_scale(255 - self.r as int, num as int, den as int);
            lemma_chan_scale(255 - self.g as int, num as int, den as int);
            lemma_chan_scale(255 - self.b as int, num as int, den as int);
        }
        Color {
            r: (self.r as u64 + ((255 - self.r) as u64 * num) / den) as u8,
            g: (self.g as u64 + ((255 - self.g) as u64 * num) / den) as u8,
            b: (self.b as u64 + ((255 - self.b) as u64 * num) / den) as u8,
        }
    }

    /// Each channel is `self/2 + other/2` with integer division applied to
    /// each operand before summing; this differs from `(self + other)/2`
    /// whenever both operands are odd.
    pub fn blend(self, other: Color) -> (c: Color)
        ensures
            c == self.spec_blend(other),
    {
        Color {
            r: self.r / 2 + other.r / 2,
            g: self.g / 2 + other.g / 2,
            b: self.b / 2 + other.b / 2,
        }
    }

    /// The exact HSL triple of the color: hue 0 when achromatic, saturation
    /// 0 for pure black and pure white.
    pub fn to_hsl(self) -> (h: Hsl)
        ensures
            h == spec_to_hsl(self),
            h.wf(),
    {
        let r: u32 = self.r as u32;
        let g: u32 = self.g as u32;
        let b: u32 = self.b as u32;
        let mx: u32 = get_max(self.r, self.g, self.b) as u32;
        let mn: u32 = get_min(self.r, self.g, self.b) as u32;
        let range: u32 = mx - mn;
        let (h_num, h_den): (u32, u32) = if range == 0 {
            (0, 1)
        } else if mx == r {
            if g >= b {
                (60 * (g - b), range)
            } else {
                (360 * range - 60 * (b - g), range)
            }
        } else if mx == g {
            (120 * range + 60 * b - 60 * r, range)
        } else {
            (240 * range + 60 * r - 60 * g, range)
        };
        let (s_num, s_den): (u32, u32) = if mx == 0 || mn == 255 {
            (0, 1)
        } else if mx + mn <= 255 {
            (range, mx + mn)
        } else {
            (range, 510 - mx - mn)
        };
        Hsl { h_num, h_den, s_num, s_den, l_num: mx + mn, l_den: 510 }
    }

    /// The color of an HSL triple: the standard six-sector chroma
    /// decomposition, truncating each channel to 8 bits.
    pub fn from_hsl(hsl: Hsl) -> (c: Color)
        requires
            hsl.wf(),
        ensures
            c == spec_from_hsl(hsl),
    {
        let hn: u64 = hsl.h_num as u64;
        let hd: u64 = hsl.h_den as u64;
        let sn: u64 = hsl.s_num as u64;
        let sd: u64 = hsl.s_den as u64;
        let ln: u64 = hsl.l_num as u64;
        let ld: u64 = hsl.l_den as u64;
        let abs2: u64 = if 2 * ln >= ld {
            2 * ln - ld
        } else {
            ld - 2 * ln
        };
        assert(ld - abs2 <= 2 * ln && ld - abs2 <= 2 * (ld - ln));
        assert((ld - abs2) * sn <= 100000000 && (ld - abs2) * sn <= 2 * ln * sd && (ld - abs2) * sn
            <= 2 * (ld - ln) * sd) by (nonlinear_arith)
            requires
                0 <= ld - abs2 <= 10000,
                ld - abs2 <= 2 * ln,
                ld - abs2 <= 2 * (ld - ln),
                0 <= sn <= sd <= 10000,
                0 <= ln <= ld,
        ;
        let cn: u64 = (ld - abs2) * sn;
        assert(ld * sd <= 100000000 && 2 * ln * sd <= 200000000) by (nonlinear_arith)
            requires
                0 < ld <= 10000,
                0 < sd <= 10000,
                0 <= ln <= ld,
        ;
        let cd: u64 = ld * sd;
        let td: u64 = 60 * hd;
        let sector: u64 = hn / td;
        let tn: u64 = hn % td;
        assert(sector <= 5 && tn < td) by (nonlinear_arith)
            requires
                0 < td,
                0 <= hn,
                hn < 6 * td,
                sector == hn / td,
                tn == hn % td,
        ;
        assert(cn * tn <= cn * td && cn * (td - tn) <= cn * td && cn * td <= 60000000000000)
            by (nonlinear_arith)
            requires
                0 <= cn <= 100000000,
                0 <= tn <= td,
                0 < td <= 600000,
        ;
        let xn: u64 = if sector % 2 == 0 {
            cn * tn
        } else {
            cn * (td - tn)
        };
        let mn2: u64 = 2 * ln * sd - cn;
        assert(cn + 2 * ln * sd <= 2 * (ld * sd) && 0 < ld * sd && 0 < (ld * sd) * td && cd * td
            <= 60000000000000) by (nonlinear_arith)
            requires
                cn <= 2 * (ld - ln) * sd,
                0 <= ln <= ld,
                0 < sd,
                0 < ld,
                0 < td <= 600000,
                cd == ld * sd,
                cd <= 100000000,
        ;
        let num_c: u64 = (2 * cn + mn2) * 255;
        let chan_c: u64 = num_c / (2 * cd);
        assert(mn2 * td <= (2 * cn + mn2) * td && 2 * xn + mn2 * td <= (2 * cn + mn2) * td && (2
            * cn + mn2) * td <= 2 * (cd * td)) by (nonlinear_arith)
            requires
                0 <= mn2,
                2 * cn + mn2 <= 2 * cd,
                0 <= cn,
                0 <= xn <= cn * td,
                0 < td,
                0 <= cd,
        ;
        let num_x_base: u64 = 2 * xn + mn2 * td;
        let num_x: u64 = num_x_base * 255;
        assert((2 * cd) * td == 2 * (cd * td) && 0 < (2 * cd) * td) by (nonlinear_arith)
            requires
                0 < cd,
                0 < td,
        ;
        let den_x: u64 = 2 * cd * td;
        let chan_x: u64 = num_x / den_x;
        let chan_m: u64 = (mn2 * 255) / (2 * cd);
        assert(chan_c <= 255 && chan_x <= 255 && chan_m <= 255) by (nonlinear_arith)
            requires
                0 < cd,
                0 < td,
                chan_c == ((2 * cn + mn2) * 255) / (2 * cd),
                chan_x == ((2 * xn + mn2 * td) * 255) / (2 * cd * td),
                chan_m == (mn2 * 255) / (2 * cd),
                2 * cn + mn2 <= 2 * cd,
                2 * xn + mn2 * td <= 2 * cd * td,
                0 <= mn2 <= 2 * cd,
                0 <= xn,
                0 <= cn,
        ;
        if sector == 0 {
            Color { r: chan_c as u8, g: chan_x as u8, b: chan_m as u8 }
        } else if sector == 1 {
            Color { r: chan_x as u8, g: chan_c as u8, b: chan_m as u8 }
        } else if sector == 2 {
            Color { r: chan_m as u8, g: chan_c as u8, b: chan_x as u8 }
        } else if sector == 3 {
            Color { r: chan_m as u8, g: chan_x as u8, b: chan_c as u8 }
        } else if sector == 4 {
            Color { r: chan_x as u8, g: chan_m as u8, b: chan_c as u8 }
        } else {
            Color { r: chan_c as u8, g: chan_m as u8, b: chan_x as u8 }
        }
    }

    /// Replaces the saturation outright with `amount` (the original
    /// saturation is discarded, not scaled), converting through HSL.
    pub fn saturate(self, amount: Frac) -> (c: Color)
        requires
            amount.wf(),
        ensures
            c == spec_saturate(self, amount),
    {
        let h = self.to_hsl();
        Color::from_hsl(
            Hsl {
                h_num: h.h_num,
                h_den: h.h_den,
                s_num: amount.num,
                s_den: amount.den,
                l_num: h.l_num,
                l_den: h.l_den,
            },
        )
    }

    /// Reads a color from a `#RRGGBB` string (hex digits case-insensitive).
    /// The six characters after the leading one must be hex digits; anything
    /// past the seventh character is ignored.
    pub fn from_hex(rgb_hex: &str) -> (r: Result<Color, ParseError>)
        ensures
            r matches Ok(c) ==> parse_hex(rgb_hex@) == Some(c),
            r is Err <==> parse_hex(rgb_hex@) is None,
    {
        let n = rgb_hex.unicode_len();
        if n < 7 {
            return Err(ParseError);
        }
        let d1 = hex_val(rgb_hex.get_char(1));
        let d2 = hex_val(rgb_hex.get_char(2));
        let d3 = hex_val(rgb_hex.get_char(3));
        let d4 = hex_val(rgb_hex.get_char(4));
        let d5 = hex_val(rgb_hex.get_char(5));
        let d6 = hex_val(rgb_hex.get_char(6));
        match (d1, d2, d3, d4, d5, d6) {
            (Some(h1), Some(h2), Some(h3), Some(h4), Some(h5), Some(h6)) => Ok(
                Color { r: h1 * 16 + h2, g: h3 * 16 + h4, b: h5 * 16 + h6 },
            ),
            _ => Err(ParseError),
        }
    }

    /// Formats the color as canonical uppercase zero-padded `#RRGGBB`.
    pub fn to_hex(self) -> (r: String)
        ensures
            r@ == to_hex_spec(self),
    {
        proof {
            reveal_strlit("#");
        }
        let mut s = String::from_str("#");
        s.append(hex_digit_str(self.r / 16));
        s.append(hex_digit_str(self.r % 16));
        s.append(hex_digit_str(self.g / 16));
        s.append(hex_digit_str(self.g % 16));
        s.append(hex_digit_str(self.b / 16));
        s.append(hex_digit_str(self.b % 16));
        proof {
            assert(s@ =~= to_hex_spec(self));
        }
        s
    }

    /// Orders two colors by one channel.
    pub fn compare_by(p1: Color, p2: Color, order: ColorOrderBy) -> (r: core::cmp::Ordering)
        ensures
            r == spec_compare_by(p1, p2, order),
    {
        let (a, b): (u8, u8) = match order {
            ColorOrderBy::R => (p1.r, p2.r),
            ColorOrderBy::G => (p1.g, p2.g),
            ColorOrderBy::B => (p1.b, p2.b),
        };
        if a < b {
            core::cmp::Ordering::Less
        } else if a == b {
            core::cmp::Ordering::Equal
        } else {
            core::cmp::Ordering::Greater
        }
    }

    /// Reads the hex color that starts at the first `#` of a line of text.
    pub fn find_color(line: &str) -> (r: Result<Color, ParseError>)
        ensures
            r matches Ok(c) ==> find_color_spec(line@) == Some(c),
            r is Err <==> find_color_spec(line@) is None,
    {
        let n = line.unicode_len();
        let mut i: usize = 0;
        while i < n
            invariant
                0 <= i <= n,
                n == line@.len(),
                forall|j: int| 0 <= j < i ==> line@[j] != '#',
            decreases n - i,
        {
            if line.get_char(i) == '#' {
                proof {
                    lemma_find_hash_at(line@, i as int);
                }
                let tail = line.substring_char(i, n);
                proof {
                    assert(tail@ =~= line@.skip(i as int));
                }
                return Color::from_hex(tail);
            }
            i += 1;
        }
        proof {
            lemma_find_hash_none(line@);
        }
        Err(ParseError)
    }

    /// The per-channel truncated mean of a non-empty pixel sequence, summed
    /// in a widened accumulator.
    pub fn average_color(pixels: &Vec<Color>) -> (c: Color)
        requires
            pixels@.len() >= 1,
        ensures
            c == spec_average(pixels@),
    {
        let n = pixels.len();
        let mut r: u128 = 0;
        let mut g: u128 = 0;
        let mut b: u128 = 0;
        let mut i: usize = 0;
        while i < n
            invariant
                0 <= i <= n,
                n == pixels@.len(),
                r == sum_r(pixels@.take(i as int)),
                g == sum_g(pixels@.take(i as int)),
                b == sum_b(pixels@.take(i as int)),
                r <= 255 * i,
                g <= 255 * i,
                b <= 255 * i,
            decreases n - i,
        {
            let p = pixels[i];
            proof {
                assert(pixels@.take(i + 1).drop_last() =~= pixels@.take(i as int));
                assert(pixels@.take(i + 1).last() == pixels@[i as int]);
            }
            r += p.r as u128;
            g += p.g as u128;
            b += p.b as u128;
            i += 1;
        }
        proof {
            assert(pixels@.take(n as int) =~= pixels@);
            assert(r / (n as u128) <= 255 && g / (n as u128) <= 255 && b / (n as u128) <= 255)
                by (nonlinear_arith)
                requires
                    r <= 255 * n,
                    g <= 255 * n,
                    b <= 255 * n,
                    n >= 1,
            ;
        }
        Color {
            r: (r / (n as u128)) as u8,
            g: (g / (n as u128)) as u8,
            b: (b / (n as u128)) as u8,
        }
    }
}

/// When a `#` stands at position `i` and nowhere earlier, it is the first.
proof fn lemma_find_hash_at(s: Seq<char>, i: int)
    requires
        0 <= i < s.len(),
        s[i] == '#',
        forall|j: int| 0 <= j < i ==> s[j] != '#',
    ensures
        find_hash(s) == Some(i),
    decreases i,
{
    if i == 0 {
    } else {
        assert(forall|j: int| 0 <= j < i - 1 ==> s.drop_first()[j] == s[j + 1]);
        lemma_find_hash_at(s.drop_first(), i - 1);
    }
}

/// A sequence without `#` has no first `#`.
proof fn lemma_find_hash_none(s: Seq<char>)
    requires
        forall|j: int| 0 <= j < s.len() ==> s[j] != '#',
    ensures
        find_hash(s) is None,
    decreases s.len(),
{
    if s.len() == 0 {
    } else {
        assert(forall|j: int| 0 <= j < s.len() - 1 ==> s.drop_first()[j] == s[j + 1]);
        lemma_find_hash_none(s.drop_first());
    }
}

/// For an HSL triple produced from a chromatic color, the channel that gets
/// `chroma + m` recovers the channel maximum.
proof fn lemma_chan_c_val(h: Hsl, sdv: int, range: int, mnv: int)
    requires
        0 < sdv,
        0 < range,
        0 <= mnv,
        hsl_cn(h) == 2 * sdv * range,
        hsl_mn(h) == 4 * sdv * mnv,
        hsl_cd(h) == 510 * sdv,
    ensures
        hsl_chan_c(h) == range + mnv,
{
    let num = (2 * hsl_cn(h) + hsl_mn(h)) * 255;
    let den = 2 * hsl_cd(h);
    assert(num == den * (range + mnv)) by (nonlinear_arith)
        requires
            hsl_cn(h) == 2 * sdv * range,
            hsl_mn(h) == 4 * sdv * mnv,
            hsl_cd(h) == 510 * sdv,
            num == (2 * hsl_cn(h) + hsl_mn(h)) * 255,
            den == 2 * hsl_cd(h),
    ;
    lemma_div_multiples_vanish(range + mnv, den);
}

/// For an HSL triple produced from a chromatic color, the channel that gets
/// `m` alone recovers the channel minimum.
proof fn lemma_chan_m_val(h: Hsl, sdv: int, mnv: int)
    requires
        0 < sdv,
        0 <= mnv,
        hsl_mn(h) == 4 * sdv * mnv,
        hsl_cd(h) == 510 * sdv,
    ensures
        hsl_chan_m(h) == mnv,
{
    let num = hsl_mn(h) * 255;
    let den = 2 * hsl_cd(h);
    assert(num == den * mnv) by (nonlinear_arith)
        requires
            hsl_mn(h) == 4 * sdv * mnv,
            hsl_cd(h) == 510 * sdv,
            num == hsl_mn(h) * 255,
            den == 2 * hsl_cd(h),
    ;
    lemma_div_multiples_vanish(mnv, den);
}

/// For an HSL triple produced from a chromatic color whose secondary
/// numerator is the chroma numerator times `60 * k`, the channel that gets
/// `x + m` recovers `k` plus the channel minimum.
proof fn lemma_chan_x_val(h: Hsl, sdv: int, range: int, mnv: int, k: int)
    requires
        0 < sdv,
        0 < range,
        0 <= mnv,
        0 <= k,
        hsl_cn(h) == 2 * sdv * range,
        hsl_mn(h) == 4 * sdv * mnv,
        hsl_cd(h) == 510 * sdv,
        hsl_td(h) == 60 * range,
        hsl_xn(h) == hsl_cn(h) * (60 * k),
    ensures
        hsl_chan_x(h) == k + mnv,
{
    let num = (2 * hsl_xn(h) + hsl_mn(h) * hsl_td(h)) * 255;
    let den = 2 * hsl_cd(h) * hsl_td(h);
    assert(num == den * (k + mnv) && 0 < den) by (nonlinear_arith)
        requires
            0 < sdv,
            0 < range,
            hsl_cn(h) == 2 * sdv * range,
            hsl_mn(h) == 4 * sdv * mnv,
            hsl_cd(h) == 510 * sdv,
            hsl_td(h) == 60 * range,
            hsl_xn(h) == hsl_cn(h) * (60 * k),
            num == (2 * hsl_xn(h) + hsl_mn(h) * hsl_td(h)) * 255,
            den == 2 * hsl_cd(h) * hsl_td(h),
    ;
    lemma_div_multiples_vanish(k + mnv, den);
}

/// Law: converting a color to HSL and back reproduces it exactly — within
/// (in fact, well within) the one-unit-per-channel quantization tolerance —
/// because both conversions keep exact rationals and truncate only once.
pub proof fn lemma_hsl_round_trip(c: Color)
    ensures
        spec_from_hsl(spec_to_hsl(c)) == c,
{
    let r = c.r as int;
    let g = c.g as int;
    let b = c.b as int;
    let mx = max3(r, g, b);
    let mn = min3(r, g, b);
    let range = mx - mn;
    let h = spec_to_hsl(c);
    if range == 0 {
        // Achromatic: hue 0, saturation numerator 0, so only `m` remains,
        // and it carries the common channel value.
        assert(r == mx && g == mx && b == mx);
        let sdv = h.s_den as int;
        assert(hsl_cn(h) == 0) by (nonlinear_arith)
            requires
                hsl_cn(h) == (h.l_den - hsl_abs2(h)) * h.s_num,
                h.s_num == 0,
        ;
        assert(hsl_mn(h) == 4 * sdv * mx) by (nonlinear_arith)
            requires
                hsl_mn(h) == 2 * (2 * mx) * sdv - hsl_cn(h),
                hsl_cn(h) == 0,
        ;
        assert(hsl_cd(h) == 510 * sdv);
        assert(h.h_num == 0 && h.h_den == 1);
        assert(hsl_td(h) == 60);
        lemma_fundamental_div_mod_converse(0, 60, 0, 0);
        assert(hsl_sector(h) == 0 && hsl_tn(h) == 0);
        assert(hsl_xn(h) == 0) by (nonlinear_arith)
            requires
                hsl_xn(h) == hsl_cn(h) * hsl_tn(h),
                hsl_cn(h) == 0,
        ;
        lemma_chan_m_val(h, sdv, mx);
        let num_c = (2 * hsl_cn(h) + hsl_mn(h)) * 255;
        let den_c = 2 * hsl_cd(h);
        assert(num_c == den_c * mx) by (nonlinear_arith)
            requires
                hsl_cn(h) == 0,
                hsl_mn(h) == 4 * sdv * mx,
                hsl_cd(h) == 510 * sdv,
                num_c == (2 * hsl_cn(h) + hsl_mn(h)) * 255,
                den_c == 2 * hsl_cd(h),
        ;
        lemma_div_multiples_vanish(mx, den_c);
        let num_x = (2 * hsl_xn(h) + hsl_mn(h) * hsl_td(h)) * 255;
        let den_x = 2 * hsl_cd(h) * hsl_td(h);
        assert(num_x == den_x * mx && 0 < den_x) by (nonlinear_arith)
            requires
                0 < sdv,
                hsl_xn(h) == 0,
                hsl_mn(h) == 4 * sdv * mx,
                hsl_cd(h) == 510 * sdv,
                hsl_td(h) == 60,
                num_x == (2 * hsl_xn(h) + hsl_mn(h) * hsl_td(h)) * 255,
                den_x == 2 * hsl_cd(h) * hsl_td(h),
        ;
        lemma_div_multiples_vanish(mx, den_x);
    } else {
        // Chromatic: the saturation denominator is the lesser of
        // `mx + mn` and `510 - mx - mn`, and the chroma numerator works
        // out to `2 * sdv * range` in either configuration.
        assert(0 < mx && mn < 255);
        let sdv = h.s_den as int;
        assert(h.s_num == range && 0 < sdv <= 510);
        assert(h.l_den - hsl_abs2(h) == 2 * sdv);
        assert(hsl_cn(h) == 2 * sdv * range) by (nonlinear_arith)
            requires
                hsl_cn(h) == (h.l_den - hsl_abs2(h)) * h.s_num,
                h.l_den - hsl_abs2(h) == 2 * sdv,
                h.s_num == range,
        ;
        assert(hsl_mn(h) == 4 * sdv * mn) by (nonlinear_arith)
            requires
                hsl_mn(h) == 2 * (mx + mn) * sdv - hsl_cn(h),
                hsl_cn(h) == 2 * sdv * range,
                range == mx - mn,
        ;
        assert(hsl_cd(h) == 510 * sdv);
        let td = hsl_td(h);
        assert(td == 60 * range);
        lemma_chan_c_val(h, sdv, range, mn);
        lemma_chan_m_val(h, sdv, mn);
        if mx == r {
            if g >= b {
                assert(mn == b);
                assert(h.h_num == 60 * (g - b));
                if g - b < range {
                    lemma_fundamental_div_mod_converse(h.h_num as int, td, 0, 60 * (g - b));
                    assert(hsl_sector(h) == 0 && hsl_tn(h) == 60 * (g - b));
                    assert(hsl_xn(h) == hsl_cn(h) * (60 * (g - b)));
                    lemma_chan_x_val(h, sdv, range, mn, g - b);
                } else {
                    // g - b == range: g is also the maximum and b the minimum.
                    assert(g == mx && b == mn);
                    lemma_fundamental_div_mod_converse(h.h_num as int, td, 1, 0);
                    assert(hsl_sector(h) == 1 && hsl_tn(h) == 0);
                    assert(hsl_xn(h) == hsl_cn(h) * (60 * range));
                    lemma_chan_x_val(h, sdv, range, mn, range);
                }
            } else {
                assert(mn == g);
                assert(h.h_num == 360 * range - 60 * (b - g));
                if b - g < range {
                    lemma_fundamental_div_mod_converse(h.h_num as int, td, 5, 60 * (range - (b
                        - g)));
                    assert(hsl_sector(h) == 5 && hsl_tn(h) == 60 * (range - (b - g)));
                    assert(hsl_xn(h) == hsl_cn(h) * (td - hsl_tn(h)));
                    assert(td - hsl_tn(h) == 60 * (b - g));
                    lemma_chan_x_val(h, sdv, range, mn, b - g);
                } else {
                    // b - g == range: b is also the maximum and g the minimum.
                    assert(b == mx && g == mn);
                    lemma_fundamental_div_mod_converse(h.h_num as int, td, 5, 0);
                    assert(hsl_sector(h) == 5 && hsl_tn(h) == 0);
                    assert(hsl_xn(h) == hsl_cn(h) * (60 * range));
                    lemma_chan_x_val(h, sdv, range, mn, range);
                }
            }
        } else if mx == g {
            assert(r < mx);
            assert(h.h_num == 120 * range + 60 * b - 60 * r);
            if b < r {
                assert(mn == b);
                lemma_fundamental_div_mod_converse(h.h_num as int, td, 1, 60 * (range - (r - b)));
                assert(hsl_sector(h) == 1 && hsl_tn(h) == 60 * (range - (r - b)));
                assert(hsl_xn(h) == hsl_cn(h) * (td - hsl_tn(h)));
                assert(td - hsl_tn(h) == 60 * (r - b));
                lemma_chan_x_val(h, sdv, range, mn, r - b);
            } else if b == r {
                assert(mn == b && mn == r);
                lemma_fundamental_div_mod_converse(h.h_num as int, td, 2, 0);
                assert(hsl_sector(h) == 2 && hsl_tn(h) == 0);
                assert(hsl_xn(h) == hsl_cn(h) * (60 * 0));
                lemma_chan_x_val(h, sdv, range, mn, 0);
            } else if b - r < range {
                assert(mn == r);
                lemma_fundamental_div_mod_converse(h.h_num as int, td, 2, 60 * (b - r));
                assert(hsl_sector(h) == 2 && hsl_tn(h) == 60 * (b - r));
                assert(hsl_xn(h) == hsl_cn(h) * (60 * (b - r)));
                lemma_chan_x_val(h, sdv, range, mn, b - r);
            } else {
                // b - r == range: b is also the maximum and r the minimum.
                assert(b == mx && r == mn);
                lemma_fundamental_div_mod_converse(h.h_num as int, td, 3, 0);
                assert(hsl_sector(h) == 3 && hsl_tn(h) == 0);
                assert(hsl_xn(h) == hsl_cn(h) * (60 * range));
                lemma_chan_x_val(h, sdv, range, mn, range);
            }
        } else {
            assert(r < mx && g < mx && mx == b);
            assert(h.h_num == 240 * range + 60 * r - 60 * g);
            if r < g {
                assert(mn == r);
                lemma_fundamental_div_mod_converse(h.h_num as int, td, 3, 60 * (range - (g - r)));
                assert(hsl_sector(h) == 3 && hsl_tn(h) == 60 * (range - (g - r)));
                assert(hsl_xn(h) == hsl_cn(h) * (td - hsl_tn(h)));
                assert(td - hsl_tn(h) == 60 * (g - r));
                lemma_chan_x_val(h, sdv, range, mn, g - r);
            } else if r == g {
                assert(mn == r && mn == g);
                lemma_fundamental_div_mod_converse(h.h_num as int, td, 4, 0);
                assert(hsl_sector(h) == 4 && hsl_tn(h) == 0);
                assert(hsl_xn(h) == hsl_cn(h) * (60 * 0));
                lemma_chan_x_val(h, sdv, range, mn, 0);
            } else {
                assert(mn == g);
                lemma_fundamental_div_mod_converse(h.h_num as int, td, 4, 60 * (r - g));
                assert(hsl_sector(h) == 4 && hsl_tn(h) == 60 * (r - g));
                assert(hsl_xn(h) == hsl_cn(h) * (60 * (r - g)));
                lemma_chan_x_val(h, sdv, range, mn, r - g);
            }
        }
    }
}

/// Law: formatting a color and parsing the result gives the color back
/// exactly, since formatting is always canonical 7-character hex.
pub proof fn lemma_hex_round_trip(c: Color)
    ensures
        parse_hex(to_hex_spec(c)) == Some(c),
{
    lemma_hex_digit_round_trip(c.r as int / 16);
    lemma_hex_digit_round_trip(c.r as int % 16);
    lemma_hex_digit_round_trip(c.g as int / 16);
    lemma_hex_digit_round_trip(c.g as int % 16);
    lemma_hex_digit_round_trip(c.b as int / 16);
    lemma_hex_digit_round_trip(c.b as int % 16);
}

} // verus!
