//! The extraction strategy boundary and the palette adjuster: a strategy
//! produces at least 16 raw swatches from decoded pixels, and the adjuster
//! remaps and recolors them into the final 16-slot palette for the chosen
//! brightness.

use crate::brightness::Brightness;
use crate::color::spec_saturate;
use crate::color::Color;
use crate::color::Frac;
use vstd::pervasive::VecAdditionalExecFns;
use vstd::prelude::*;

verus! {

/// An extraction strategy: one operation, producing at least 16 raw colors
/// from the decoded pixels of an image.
pub trait Backend {
    fn generate_colors(&self, pixels: &Vec<Color>) -> (r: Vec<Color>)
        requires
            pixels@.len() >= 16,
        ensures
            r@.len() >= 16,
    ;
}

/// The mode-independent remap: slot 0 keeps the first raw color, slots 1
/// through 8 take the upper half `raw[8..16]`, and slots 9 through 15 take
/// `raw[8..15]` again, duplicating the higher-variance swatches into both
/// bands and discarding `raw[1..8]` entirely.
pub open spec fn remap_spec(s: Seq<Color>) -> Seq<Color> {
    seq![s[0]] + s.subrange(8, 16) + s.subrange(8, 15)
}

/// The near-white anchor the dark mode blends toward.
pub open spec fn near_white() -> Color {
    Color { r: 0xEE, g: 0xEE, b: 0xEE }
}

/// The final palette for a raw swatch sequence and a brightness mode: the
/// remapped working set with the four anchor slots 0, 7, 8 and 15
/// recolored.
///
/// Light mode desaturates every working entry to saturation 1/2, then sets
/// slot 0 to the last raw color lightened by 0.85, slot 8 to the last raw
/// color darkened by 0.4, and slots 7 and 15 to the first raw color
/// untouched. Dark mode darkens slot 0 by 0.4 only when its red channel
/// exceeds 16 (so near-black backgrounds are not clipped further), blends
/// slot 7 and slot 15 toward near-white, and sets slot 8 to the new slot 7
/// darkened by 0.3.
pub open spec fn adjust_spec(s: Seq<Color>, light: Brightness) -> Seq<Color> {
    let w = remap_spec(s);
    match light {
        Brightness::Light => {
            let d = w.map_values(|c: Color| spec_saturate(c, Frac { num: 1, den: 2 }));
            d.update(0, s.last().spec_lighten(Frac { num: 85, den: 100 })).update(7, s[0]).update(
                8,
                s.last().spec_darken(Frac { num: 40, den: 100 }),
            ).update(15, s[0])
        },
        Brightness::Dark => {
            let w0 = if w[0].r > 16 {
                w[0].spec_darken(Frac { num: 40, den: 100 })
            } else {
                w[0]
            };
            let w7 = w[7].spec_blend(near_white());
            let w8 = w7.spec_darken(Frac { num: 30, den: 100 });
            let w15 = w[15].spec_blend(near_white());
            w.update(0, w0).update(7, w7).update(8, w8).update(15, w15)
        },
    }
}

/// Remaps and recolors at least 16 raw swatches into the final 16-slot
/// palette for the chosen brightness.
pub fn adjust(colors: &Vec<Color>, light: Brightness) -> (r: Vec<Color>)
    requires
        colors@.len() >= 16,
    ensures
        r@ == adjust_spec(colors@, light),
        r@.len() == 16,
{
    let mut raw: Vec<Color> = Vec::new();
    raw.push(colors[0]);
    let mut i: usize = 8;
    while i < 16
        invariant
            8 <= i <= 16,
            colors@.len() >= 16,
            raw@ == seq![colors@[0]] + colors@.subrange(8, i as int),
        decreases 16 - i,
    {
        raw.push(colors[i]);
        proof {
            assert(seq![colors@[0]] + colors@.subrange(8, i as int) + seq![colors@[i as int]]
                =~= seq![colors@[0]] + colors@.subrange(8, i + 1));
        }
        i += 1;
    }
    let mut i: usize = 8;
    while i < 15
        invariant
            8 <= i <= 15,
            colors@.len() >= 16,
            raw@ == seq![colors@[0]] + colors@.subrange(8, 16) + colors@.subrange(8, i as int),
        decreases 15 - i,
    {
        raw.push(colors[i]);
        proof {
            assert(seq![colors@[0]] + colors@.subrange(8, 16) + colors@.subrange(8, i as int)
                + seq![colors@[i as int]] =~= seq![colors@[0]] + colors@.subrange(8, 16)
                + colors@.subrange(8, i + 1));
        }
        i += 1;
    }
    proof {
        assert(raw@ =~= remap_spec(colors@));
    }
    let last = colors[colors.len() - 1];
    proof {
        assert(colors@.last() == colors@[colors@.len() - 1]);
    }
    match light {
        Brightness::Light => {
            let ghost w = raw@;
            let half = Frac::new(1, 2);
            let mut k: usize = 0;
            while k < 16
                invariant
                    0 <= k <= 16,
                    half == (Frac { num: 1, den: 2 }),
                    raw@.len() == 16,
                    w.len() == 16,
                    forall|j: int|
                        0 <= j < k ==> raw@[j] == spec_saturate(w[j], Frac { num: 1, den: 2 }),
                    forall|j: int| k <= j < 16 ==> raw@[j] == w[j],
                decreases 16 - k,
            {
                let c = raw[k];
                raw.set(k, c.saturate(half));
                k += 1;
            }
            proof {
                assert(raw@ =~= w.map_values(|c: Color| spec_saturate(c, Frac { num: 1, den: 2 })));
            }
            raw.set(0, last.lighten(Frac::new(85, 100)));
            raw.set(7, colors[0]);
            raw.set(8, last.darken(Frac::new(40, 100)));
            raw.set(15, colors[0]);
        },
        Brightness::Dark => {
            let first = raw[0];
            if first.r > 16 {
                raw.set(0, first.darken(Frac::new(40, 100)));
            }
            let w7 = raw[7].blend(Color::new(0xEE, 0xEE, 0xEE));
            raw.set(7, w7);
            raw.set(8, w7.darken(Frac::new(30, 100)));
            let w15 = raw[15].blend(Color::new(0xEE, 0xEE, 0xEE));
            raw.set(15, w15);
        },
    }
    proof {
        assert(raw@ =~= adjust_spec(colors@, light));
    }
    raw
}

/// Runs the chosen extraction strategy over the decoded pixels and adjusts
/// the raw swatches it returns into the final 16-slot palette: whatever raw
/// sequence the strategy produced, the result is its adjustment.
pub fn get<B: Backend>(pixels: &Vec<Color>, light: Brightness, backend: &B) -> (r: Vec<Color>)
    requires
        pixels@.len() >= 16,
    ensures
        r@.len() == 16,
        exists|raw: Seq<Color>| raw.len() >= 16 && r@ == adjust_spec(raw, light),
{
    let colors: Vec<Color> = backend.generate_colors(pixels);
    let palette = adjust(&colors, light);
    proof {
        assert(colors@.len() >= 16 && palette@ == adjust_spec(colors@, light));
    }
    palette
}

} // verus!
