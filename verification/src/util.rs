//! Small helpers shared by the color model and the palette stages:
//! three-way channel minimum and maximum, terminal escape-sequence
//! formatting, and an alternative palette adjustment.

use crate::brightness::Brightness;
use crate::color::hex_digit_char;
use crate::color::hex_digit_str;
use crate::color::spec_saturate;
use crate::color::Color;
use crate::color::Frac;
use vstd::pervasive::VecAdditionalExecFns;
use vstd::prelude::*;

verus! {

/// The largest of three values.
pub open spec fn max3(a: int, b: int, c: int) -> int {
    if a > b {
        if a > c {
            a
        } else {
            c
        }
    } else if b > c {
        b
    } else {
        c
    }
}

/// The smallest of three values.
pub open spec fn min3(a: int, b: int, c: int) -> int {
    if a < b {
        if a < c {
            a
        } else {
            c
        }
    } else if b < c {
        b
    } else {
        c
    }
}

pub fn get_max(a: u8, b: u8, c: u8) -> (r: u8)
    ensures
        r == max3(a as int, b as int, c as int),
{
    if a > b {
        if a > c {
            a
        } else {
            c
        }
    } else if b > c {
        b
    } else {
        c
    }
}

pub fn get_min(a: u8, b: u8, c: u8) -> (r: u8)
    ensures
        r == min3(a as int, b as int, c as int),
{
    if a < b {
        if a < c {
            a
        } else {
            c
        }
    } else if b < c {
        b
    } else {
        c
    }
}

/// The decimal digits of a non-negative number, most significant first.
pub open spec fn dec_spec(n: int) -> Seq<char>
    decreases n,
{
    if n < 10 {
        seq![hex_digit_char(n)]
    } else {
        dec_spec(n / 10).push(hex_digit_char(n % 10))
    }
}

/// The escape sequence that sets the terminal foreground to an RGB color:
/// `ESC [ 3 8 ; 2 ;` then the three decimal channels, closed by `m`.
pub open spec fn fg_spec(c: Color) -> Seq<char> {
    seq!['\u{1b}', '[', '3', '8', ';', '2', ';'] + dec_spec(c.r as int) + seq![';'] + dec_spec(
        c.g as int,
    ) + seq![';'] + dec_spec(c.b as int) + seq!['m']
}

/// The same sequence for the background, `4 8` in place of `3 8`.
pub open spec fn bg_spec(c: Color) -> Seq<char> {
    seq!['\u{1b}', '[', '4', '8', ';', '2', ';'] + dec_spec(c.r as int) + seq![';'] + dec_spec(
        c.g as int,
    ) + seq![';'] + dec_spec(c.b as int) + seq!['m']
}

/// Appends the decimal form of an 8-bit value: one to three digits, no
/// padding.
fn append_decimal(s: &mut String, n: u8)
    ensures
        final(s)@ == old(s)@ + dec_spec(n as int),
{
    if n >= 100 {
        s.append(hex_digit_str(n / 100));
    }
    if n >= 10 {
        s.append(hex_digit_str((n / 10) % 10));
    }
    s.append(hex_digit_str(n % 10));
    proof {
        if n < 10 {
            assert(n as int % 10 == n as int);
            assert(s@ =~= old(s)@ + dec_spec(n as int));
        } else if n < 100 {
            assert(dec_spec(n as int / 10) == seq![hex_digit_char(n as int / 10)]);
            assert((n as int / 10) % 10 == n as int / 10);
            assert(s@ =~= old(s)@ + dec_spec(n as int));
        } else {
            assert(n as int / 100 == (n as int / 10) / 10);
            assert(dec_spec((n as int / 10) / 10) == seq![hex_digit_char((n as int / 10) / 10)]);
            assert(dec_spec(n as int / 10) == dec_spec((n as int / 10) / 10).push(
                hex_digit_char((n as int / 10) % 10),
            ));
            assert(s@ =~= old(s)@ + dec_spec(n as int));
        }
    }
}

/// The escape sequence that sets the terminal foreground to the color.
pub fn set_fg(color: Color) -> (s: String)
    ensures
        s@ == fg_spec(color),
{
    proof {
        reveal_strlit("\u{1b}[38;2;");
        reveal_strlit(";");
        reveal_strlit("m");
    }
    let mut s = String::from_str("\u{1b}[38;2;");
    append_decimal(&mut s, color.r);
    s.append(";");
    append_decimal(&mut s, color.g);
    s.append(";");
    append_decimal(&mut s, color.b);
    s.append("m");
    proof {
        assert(s@ =~= fg_spec(color));
    }
    s
}

/// The escape sequence that sets the terminal background to the color.
pub fn set_bg(color: Color) -> (s: String)
    ensures
        s@ == bg_spec(color),
{
    proof {
        reveal_strlit("\u{1b}[48;2;");
        reveal_strlit(";");
        reveal_strlit("m");
    }
    let mut s = String::from_str("\u{1b}[48;2;");
    append_decimal(&mut s, color.r);
    s.append(";");
    append_decimal(&mut s, color.g);
    s.append(";");
    append_decimal(&mut s, color.b);
    s.append("m");
    proof {
        assert(s@ =~= bg_spec(color));
    }
    s
}

/// What the alternative adjustment produces: in light mode every entry is
/// desaturated to 0.6 and dimmed by half, then slot 0 is lightened by 0.95
/// and slots 7, 8 and 15 are darkened copies of the new slot 0; in dark
/// mode slot 0 is the first entry darkened by 0.8 and slots 7, 8 and 15 are
/// lightened copies of it. The other entries keep their (light-mode
/// transformed) values, and the length is that of the input.
pub open spec fn generic_adjust_spec(s: Seq<Color>, light: Brightness) -> Seq<Color> {
    match light {
        Brightness::Light => {
            let d = s.map_values(
                |c: Color|
                    spec_saturate(c, Frac { num: 60, den: 100 }).spec_darken(
                        Frac { num: 50, den: 100 },
                    ),
            );
            let e0 = d[0].spec_lighten(Frac { num: 95, den: 100 });
            d.update(0, e0).update(7, e0.spec_darken(Frac { num: 75, den: 100 })).update(
                8,
                e0.spec_darken(Frac { num: 25, den: 100 }),
            ).update(15, e0.spec_darken(Frac { num: 75, den: 100 }))
        },
        Brightness::Dark => {
            let e0 = s[0].spec_darken(Frac { num: 80, den: 100 });
            s.update(0, e0).update(7, e0.spec_lighten(Frac { num: 75, den: 100 })).update(
                8,
                e0.spec_lighten(Frac { num: 25, den: 100 }),
            ).update(15, e0.spec_lighten(Frac { num: 75, den: 100 }))
        },
    }
}

/// An alternative brightness adjustment that recolors the palette around a
/// single anchor derived from the first entry.
pub fn generic_adjust(colors: &Vec<Color>, light: Brightness) -> (r: Vec<Color>)
    requires
        colors@.len() >= 16,
    ensures
        r@ == generic_adjust_spec(colors@, light),
        r@.len() == colors@.len(),
{
    let mut res: Vec<Color> = Vec::new();
    match light {
        Brightness::Light => {
            let sat = Frac::new(60, 100);
            let dim = Frac::new(50, 100);
            let mut k: usize = 0;
            while k < colors.len()
                invariant
                    0 <= k <= colors@.len(),
                    sat == (Frac { num: 60, den: 100 }),
                    dim == (Frac { num: 50, den: 100 }),
                    res@.len() == k,
                    forall|j: int|
                        0 <= j < k ==> res@[j] == spec_saturate(
                            colors@[j],
                            Frac { num: 60, den: 100 },
                        ).spec_darken(Frac { num: 50, den: 100 }),
                decreases colors@.len() - k,
            {
                res.push(colors[k].saturate(sat).darken(dim));
                k += 1;
            }
            proof {
                assert(res@ =~= colors@.map_values(
                    |c: Color|
                        spec_saturate(c, Frac { num: 60, den: 100 }).spec_darken(
                            Frac { num: 50, den: 100 },
                        ),
                ));
            }
            let e0 = res[0].lighten(Frac::new(95, 100));
            res.set(0, e0);
            res.set(7, e0.darken(Frac::new(75, 100)));
            res.set(8, e0.darken(Frac::new(25, 100)));
            res.set(15, e0.darken(Frac::new(75, 100)));
        },
        Brightness::Dark => {
            let mut k: usize = 0;
            while k < colors.len()
                invariant
                    0 <= k <= colors@.len(),
                    res@ == colors@.take(k as int),
                decreases colors@.len() - k,
            {
                res.push(colors[k]);
                proof {
                    assert(colors@.take(k + 1) =~= colors@.take(k as int).push(colors@[k as int]));
                }
                k += 1;
            }
            proof {
                assert(colors@.take(colors@.len() as int) =~= colors@);
            }
            let e0 = res[0].darken(Frac::new(80, 100));
            res.set(0, e0);
            res.set(7, e0.lighten(Frac::new(75, 100)));
            res.set(8, e0.lighten(Frac::new(25, 100)));
            res.set(15, e0.lighten(Frac::new(75, 100)));
        },
    }
    proof {
        assert(res@ =~= generic_adjust_spec(colors@, light));
    }
    res
}

/// The assembled theme a consumer reads: the anchor colors and the sixteen
/// palette slots.
#[allow(dead_code)]
pub struct Palette {
    background: Color,
    foreground: Color,
    cursor: Color,
    colors: [Color; 16],
}

} // verus!
