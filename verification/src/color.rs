use crate::fraction::Fraction;
use crate::text::{append_hex_pair, hex_pair};
use vstd::prelude::*;
use vstd::string::StringExecFns;

verus! {

/// An RGB colour with 8-bit channels.
#[derive(Clone, Copy, Debug, PartialEq, Eq, Structural)]
pub struct Color {
    pub r: u8,
    pub g: u8,
    pub b: u8,
}

/// The channel value for the exact sum `total`: the sum itself, capped at 255.
pub open spec fn saturated(total: int) -> u8 {
    if total >= 255 {
        255u8
    } else if total <= 0 {
        0u8
    } else {
        total as u8
    }
}

impl Color {
    /// The colour with all channels at zero.
    pub open spec fn black() -> Color {
        Color { r: 0, g: 0, b: 0 }
    }

    /// Channel-wise sum of two colours, each channel capped at 255.
    pub open spec fn blend(self, other: Color) -> Color {
        Color {
            r: saturated(self.r + other.r),
            g: saturated(self.g + other.g),
            b: saturated(self.b + other.b),
        }
    }

    /// Adds two colours channel by channel; a channel that would exceed 255 stays at 255.
    pub fn add_colors(c1: &Color, c2: &Color) -> (sum: Color)
        ensures
            sum == c1.blend(*c2),
    {
        Color {
            r: c1.r.saturating_add(c2.r),
            g: c1.g.saturating_add(c2.g),
            b: c1.b.saturating_add(c2.b),
        }
    }

    /// The text of [`Color::color_to_hex`]: a hash sign and two lower-case hexadecimal
    /// digits for each of red, green and blue.
    pub open spec fn hex_text(self) -> Seq<char> {
        seq!['#'] + hex_pair(self.r) + hex_pair(self.g) + hex_pair(self.b)
    }

    /// Writes the colour as `#rrggbb`.
    pub fn color_to_hex(color: &Color) -> (hex: String)
        ensures
            hex@ == color.hex_text(),
    {
        proof {
            reveal_strlit("#");
        }
        let mut hex = String::new();
        hex.append("#");
        append_hex_pair(&mut hex, color.r);
        append_hex_pair(&mut hex, color.g);
        append_hex_pair(&mut hex, color.b);
        hex
    }

    /// One channel as a number: 0 selects red, 1 green, anything else blue.
    pub open spec fn channel(self, which: int) -> int {
        if which == 0 {
            self.r as int
        } else if which == 1 {
            self.g as int
        } else {
            self.b as int
        }
    }
}

/// A colour given by hue, saturation and value, each an exact fraction: `h` is the hue
/// as a part of the full circle, so the angle is `360 * h` degrees; `s` and `v` lie
/// between 0 and 1.
#[derive(Clone, Copy, Debug, PartialEq, Eq, Structural)]
pub struct ColorHSV {
    pub h: Fraction,
    pub s: Fraction,
    pub v: Fraction,
}

/// The channel value for the intensity `num / den` between 0 and 1: 255 times the
/// intensity, rounded down.
pub open spec fn level(num: int, den: int) -> u8 {
    (255 * num / den) as u8
}

impl ColorHSV {
    /// The hue is below a full turn; saturation and value are between 0 and 1.
    pub open spec fn wf(self) -> bool {
        &&& self.h.below_one()
        &&& self.s.in_unit_interval()
        &&& self.v.in_unit_interval()
    }

    /// Which sixth of the colour circle the hue lies in, from 0 to 5.
    pub open spec fn sector(self) -> int {
        6 * self.h.num / (self.h.den as int)
    }

    /// Numerator, over the hue's denominator, of the part of the chroma that the
    /// middle channel gets: it rises from 0 to 1 over the even sixths of the circle
    /// and falls back over the odd ones.
    pub open spec fn rise(self) -> int {
        let t = (6 * self.h.num) % (2 * self.h.den);
        if t <= self.h.den {
            t
        } else {
            2 * self.h.den - t
        }
    }

    /// The strongest channel: the value itself.
    pub open spec fn top(self) -> u8 {
        level(self.v.num as int, self.v.den as int)
    }

    /// The middle channel: the value less the part of the chroma it lacks.
    pub open spec fn mid(self) -> u8 {
        level(
            self.v.num * (self.s.num * self.rise() + (self.s.den - self.s.num) * self.h.den),
            self.v.den * self.s.den * self.h.den,
        )
    }

    /// The weakest channel: the value less the whole chroma.
    pub open spec fn low(self) -> u8 {
        level(self.v.num * (self.s.den - self.s.num), self.v.den * self.s.den)
    }

    /// The RGB colour of this hue, saturation and value.
    pub open spec fn rgb(self) -> Color {
        let sector = self.sector();
        if sector == 0 {
            Color { r: self.top(), g: self.mid(), b: self.low() }
        } else if sector == 1 {
            Color { r: self.mid(), g: self.top(), b: self.low() }
        } else if sector == 2 {
            Color { r: self.low(), g: self.top(), b: self.mid() }
        } else if sector == 3 {
            Color { r: self.low(), g: self.mid(), b: self.top() }
        } else if sector == 4 {
            Color { r: self.mid(), g: self.low(), b: self.top() }
        } else {
            Color { r: self.top(), g: self.low(), b: self.mid() }
        }
    }

    /// Converts to RGB, each channel rounded down to a whole number of 255ths.
    pub fn to_rgb(&self) -> (color: Color)
        requires
            self.wf(),
        ensures
            color == self.rgb(),
    {
        let hn = self.h.num as u128;
        let hd = self.h.den as u128;
        let sn = self.s.num as u128;
        let sd = self.s.den as u128;
        let vn = self.v.num as u128;
        let vd = self.v.den as u128;

        let sector = 6 * hn / hd;
        let t = (6 * hn) % (2 * hd);
        let rise = if t <= hd {
            t
        } else {
            2 * hd - t
        };

        proof {
            lemma_mid_fits(vn as int, vd as int, sn as int, sd as int, rise as int, hd as int);
            lemma_low_fits(vn as int, vd as int, sn as int, sd as int);
        }
        let top = level_of(vn, vd);
        let mid = level_of(vn * (sn * rise + (sd - sn) * hd), vd * sd * hd);
        let low = level_of(vn * (sd - sn), vd * sd);

        if sector == 0 {
            Color { r: top, g: mid, b: low }
        } else if sector == 1 {
            Color { r: mid, g: top, b: low }
        } else if sector == 2 {
            Color { r: low, g: top, b: mid }
        } else if sector == 3 {
            Color { r: low, g: mid, b: top }
        } else if sector == 4 {
            Color { r: mid, g: low, b: top }
        } else {
            Color { r: top, g: low, b: mid }
        }
    }
}

proof fn lemma_mid_fits(vn: int, vd: int, sn: int, sd: int, rise: int, hd: int)
    by (nonlinear_arith)
    requires
        0 <= vn <= vd <= 0xffff_ffff,
        0 < vd,
        0 <= sn <= sd <= 0xffff_ffff,
        0 < sd,
        0 <= rise <= hd <= 0xffff_ffff,
        0 < hd,
    ensures
        0 <= sn * rise <= 0xffff_ffff * 0xffff_ffff,
        0 <= (sd - sn) * hd <= 0xffff_ffff * 0xffff_ffff,
        0 <= sn * rise + (sd - sn) * hd <= sd * hd,
        0 <= vn * (sn * rise + (sd - sn) * hd) <= vd * sd * hd,
        0 < vd * sd <= 0xffff_ffff * 0xffff_ffff,
        0 < vd * sd * hd <= 0xffff_ffff * 0xffff_ffff * 0xffff_ffff,
{
}

proof fn lemma_low_fits(vn: int, vd: int, sn: int, sd: int)
    by (nonlinear_arith)
    requires
        0 <= vn <= vd <= 0xffff_ffff,
        0 < vd,
        0 <= sn <= sd <= 0xffff_ffff,
        0 < sd,
    ensures
        0 <= vn * (sd - sn) <= vd * sd,
        0 < vd * sd <= 0xffff_ffff * 0xffff_ffff,
{
}

/// 255 times `num / den`, rounded down.
fn level_of(num: u128, den: u128) -> (value: u8)
    requires
        0 < den,
        num <= den,
        den <= 0xffff_ffff * 0xffff_ffff * 0xffff_ffff,
    ensures
        value == level(num as int, den as int),
{
    assert(255 * num / (den as int) <= 255) by (nonlinear_arith)
        requires
            0 < den,
            0 <= num <= den,
    ;
    (255 * num / den) as u8
}

/// The colours blended one after another onto black.
pub open spec fn blend_all(colors: Seq<Color>) -> Color
    decreases colors.len(),
{
    if colors.len() == 0 {
        Color::black()
    } else {
        blend_all(colors.drop_last()).blend(colors.last())
    }
}

/// The exact, uncapped sum of one channel over the colours.
pub open spec fn channel_total(colors: Seq<Color>, which: int) -> int
    decreases colors.len(),
{
    if colors.len() == 0 {
        0
    } else {
        channel_total(colors.drop_last(), which) + colors.last().channel(which)
    }
}

/// Blending is commutative.
pub proof fn blend_commutes(a: Color, b: Color)
    ensures
        a.blend(b) == b.blend(a),
{
}

/// Blending is associative: the cap at 255 does not depend on the grouping.
pub proof fn blend_associates(a: Color, b: Color, c: Color)
    ensures
        a.blend(b).blend(c) == a.blend(b.blend(c)),
{
}

/// Blending a sequence of colours caps the exact sum of each channel at 255.
pub proof fn lemma_blend_all_caps_totals(colors: Seq<Color>)
    ensures
        0 <= channel_total(colors, 0),
        0 <= channel_total(colors, 1),
        0 <= channel_total(colors, 2),
        blend_all(colors) == (Color {
            r: saturated(channel_total(colors, 0)),
            g: saturated(channel_total(colors, 1)),
            b: saturated(channel_total(colors, 2)),
        }),
    decreases colors.len(),
{
    if colors.len() > 0 {
        lemma_blend_all_caps_totals(colors.drop_last());
    }
}

/// Taking one colour out lowers a channel's sum by that colour's channel.
pub proof fn lemma_total_remove(colors: Seq<Color>, k: int, which: int)
    requires
        0 <= k < colors.len(),
    ensures
        channel_total(colors, which) == channel_total(colors.remove(k), which) + colors[k].channel(
            which,
        ),
    decreases colors.len(),
{
    if k < colors.len() - 1 {
        lemma_total_remove(colors.drop_last(), k, which);
        assert(colors.remove(k).drop_last() =~= colors.drop_last().remove(k));
    }
}

/// A channel's sum depends only on which colours occur how often, not on their order.
pub proof fn lemma_total_ignores_order(a: Seq<Color>, b: Seq<Color>, which: int)
    requires
        a.to_multiset() == b.to_multiset(),
    ensures
        channel_total(a, which) == channel_total(b, which),
    decreases a.len(),
{
    vstd::seq_lib::to_multiset_len(a);
    vstd::seq_lib::to_multiset_len(b);
    if a.len() > 0 {
        let x = a.last();
        let rest = a.drop_last();
        assert(rest.push(x) =~= a);
        vstd::seq_lib::to_multiset_build(rest, x);
        vstd::seq_lib::to_multiset_contains(b, x);
        let k = choose|k: int| 0 <= k < b.len() && b[k] == x;
        vstd::seq_lib::to_multiset_remove(b, k);
        assert(rest.to_multiset() =~= b.remove(k).to_multiset());
        lemma_total_ignores_order(rest, b.remove(k), which);
        lemma_total_remove(b, k, which);
    }
}

/// Blending the same colours in any order gives the same colour, also where a channel
/// reaches the cap.
pub proof fn blend_ignores_order(a: Seq<Color>, b: Seq<Color>)
    requires
        a.to_multiset() == b.to_multiset(),
    ensures
        blend_all(a) == blend_all(b),
{
    lemma_blend_all_caps_totals(a);
    lemma_blend_all_caps_totals(b);
    lemma_total_ignores_order(a, b, 0);
    lemma_total_ignores_order(a, b, 1);
    lemma_total_ignores_order(a, b, 2);
}

} // verus!
