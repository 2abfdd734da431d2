//! RGB and the byte-scaled HSL that the palette reports.
use vstd::prelude::*;
use vstd::string::StringExecFns;

verus! {

/// A color in RGB space, one byte per channel.
#[derive(PartialEq, Eq, Structural, Debug, Clone, Copy)]
pub struct Rgb {
    pub r: u8,
    pub g: u8,
    pub b: u8,
}

/// Hue, saturation and lightness, each scaled to 0..=255.
///
/// The values follow colorgram's integer derivation, which is not the
/// textbook HSL: see [`rgb_to_hsl`].
#[derive(PartialEq, Eq, Structural, Debug, Clone, Copy)]
pub struct Hsl {
    pub h: u8,
    pub s: u8,
    pub l: u8,
}

/// Integer division that truncates toward zero, for a positive divisor.
pub open spec fn trunc_div(a: int, d: int) -> int {
    if a >= 0 {
        a / d
    } else {
        -((-a) / d)
    }
}

pub open spec fn max3(r: int, g: int, b: int) -> int {
    if r >= g && r >= b {
        r
    } else if g >= b {
        g
    } else {
        b
    }
}

pub open spec fn min3(r: int, g: int, b: int) -> int {
    if r <= g && r <= b {
        r
    } else if g <= b {
        g
    } else {
        b
    }
}

/// Saturation of a chromatic color, before narrowing to a byte.
pub open spec fn sat_of(most: int, least: int) -> int {
    let diff = most - least;
    if (most + least) / 2 > 127 {
        diff * 255 / (510 - most - least)
    } else {
        diff * 255 / (most + least)
    }
}

/// Hue of a chromatic color, before narrowing to a byte.
pub open spec fn hue_of(r: int, g: int, b: int) -> int {
    let most = max3(r, g, b);
    let diff = most - min3(r, g, b);
    if most == r {
        trunc_div(trunc_div((g - b) * 255, diff) + if g < b {
            1530int
        } else {
            0int
        }, 6)
    } else if most == g {
        trunc_div(trunc_div((b - r) * 255, diff) + 510, 6)
    } else {
        trunc_div(trunc_div((r - g) * 255, diff) + 1020, 6)
    }
}

/// The colorgram HSL of an RGB color.
pub open spec fn spec_rgb_to_hsl(c: Rgb) -> Hsl {
    let (r, g, b) = (c.r as int, c.g as int, c.b as int);
    let most = max3(r, g, b);
    let least = min3(r, g, b);
    let l = (most + least) / 2;
    if most == least {
        Hsl { h: 0, s: 0, l: l as u8 }
    } else {
        Hsl { h: hue_of(r, g, b) as u8, s: sat_of(most, least) as u8, l: l as u8 }
    }
}

/// A gray, whose three channels are equal, has hue and saturation zero and
/// lightness equal to its channel value.
pub proof fn lemma_gray_hsl(c: Rgb)
    requires
        c.r == c.g && c.g == c.b,
    ensures
        spec_rgb_to_hsl(c) == (Hsl { h: 0, s: 0, l: c.r }),
{
}

/// A channel difference no larger than the spread scales to at most 255.
proof fn lemma_scaled_ratio(x: int, diff: int)
    requires
        0 <= x <= diff,
        diff > 0,
    ensures
        0 <= x * 255 / diff <= 255,
{
    assert(x * 255 <= diff * 255) by (nonlinear_arith)
        requires
            x <= diff,
    ;
    assert(0 <= x * 255 / diff <= 255) by (nonlinear_arith)
        requires
            0 <= x * 255 <= diff * 255,
            diff > 0,
    ;
}

proof fn lemma_hue_range(r: int, g: int, b: int)
    requires
        0 <= r <= 255,
        0 <= g <= 255,
        0 <= b <= 255,
        max3(r, g, b) != min3(r, g, b),
    ensures
        0 <= hue_of(r, g, b) <= 255,
{
    let diff = max3(r, g, b) - min3(r, g, b);
    if g >= b {
        lemma_scaled_ratio(g - b, diff);
    } else {
        lemma_scaled_ratio(b - g, diff);
    }
    if b >= r {
        lemma_scaled_ratio(b - r, diff);
    } else {
        lemma_scaled_ratio(r - b, diff);
    }
    if r >= g {
        lemma_scaled_ratio(r - g, diff);
    } else {
        lemma_scaled_ratio(g - r, diff);
    }
}

proof fn lemma_sat_range(most: int, least: int)
    requires
        0 <= least < most <= 255,
    ensures
        0 <= sat_of(most, least) <= 255,
{
    let diff = most - least;
    if (most + least) / 2 > 127 {
        assert(diff * 255 / (510 - most - least) <= 255) by (nonlinear_arith)
            requires
                0 < diff <= 510 - most - least,
        ;
        assert(diff * 255 / (510 - most - least) >= 0) by (nonlinear_arith)
            requires
                0 < diff,
                0 < 510 - most - least,
        ;
    } else {
        assert(diff * 255 / (most + least) <= 255) by (nonlinear_arith)
            requires
                0 < diff <= most + least,
        ;
        assert(diff * 255 / (most + least) >= 0) by (nonlinear_arith)
            requires
                0 < diff,
                0 < most + least,
        ;
    }
}

/// Converts an RGB color to colorgram's byte-scaled HSL.
///
/// Lightness is the halved sum of the largest and smallest channel;
/// saturation and hue use truncating integer division with colorgram's
/// offsets (510, 1020, 1530 on a 0..1530 hue circle, divided by six).
pub fn rgb_to_hsl(rgb: &Rgb) -> (res: Hsl)
    ensures
        res == spec_rgb_to_hsl(*rgb),
{
    let r = rgb.r as u32;
    let g = rgb.g as u32;
    let b = rgb.b as u32;
    let most = if r >= g && r >= b {
        r
    } else if g >= b {
        g
    } else {
        b
    };
    let least = if r <= g && r <= b {
        r
    } else if g <= b {
        g
    } else {
        b
    };
    let sum = most + least;
    let l = sum >> 1;
    assert(l == sum / 2) by (bit_vector)
        requires
            l == sum >> 1,
    ;
    if most == least {
        return Hsl { h: 0, s: 0, l: l as u8 };
    }
    let diff = most - least;
    proof {
        lemma_sat_range(most as int, least as int);
        lemma_hue_range(r as int, g as int, b as int);
        let d = diff as int;
        if g < b {
            lemma_scaled_ratio(b - g, d);
        }
        if b < r {
            lemma_scaled_ratio(r - b, d);
        }
        if r < g {
            lemma_scaled_ratio(g - r, d);
        }
    }
    let s = if l > 127 {
        diff * 255 / (510 - most - least)
    } else {
        diff * 255 / (most + least)
    };
    // The hue's partial quotient may be negative: it is formed here from its
    // magnitude so that every division stays on unsigned operands.
    let h = if most == r {
        if g >= b {
            ((g - b) * 255 / diff) / 6
        } else {
            (1530 - (b - g) * 255 / diff) / 6
        }
    } else if most == g {
        if b >= r {
            ((b - r) * 255 / diff + 510) / 6
        } else {
            (510 - (r - b) * 255 / diff) / 6
        }
    } else {
        if r >= g {
            ((r - g) * 255 / diff + 1020) / 6
        } else {
            (1020 - (g - r) * 255 / diff) / 6
        }
    };
    Hsl { h: h as u8, s: s as u8, l: l as u8 }
}

/// The decimal digit `d` as a character.
pub open spec fn digit_char(d: nat) -> char {
    if d == 0 {
        '0'
    } else if d == 1 {
        '1'
    } else if d == 2 {
        '2'
    } else if d == 3 {
        '3'
    } else if d == 4 {
        '4'
    } else if d == 5 {
        '5'
    } else if d == 6 {
        '6'
    } else if d == 7 {
        '7'
    } else if d == 8 {
        '8'
    } else {
        '9'
    }
}

/// The decimal form of `v`, without leading zeros.
pub open spec fn decimal(v: nat) -> Seq<char>
    decreases v,
{
    if v < 10 {
        seq![digit_char(v)]
    } else {
        decimal(v / 10) + seq![digit_char(v % 10)]
    }
}

/// `name(a, b, c)`, the numbers written in decimal.
pub open spec fn triple_text(name: Seq<char>, a: u8, b: u8, c: u8) -> Seq<char> {
    name + seq!['('] + decimal(a as nat) + seq![',', ' '] + decimal(b as nat) + seq![',', ' ']
        + decimal(c as nat) + seq![')']
}

fn push_digit(s: &mut String, d: u8)
    requires
        d < 10,
    ensures
        final(s)@ == old(s)@.push(digit_char(d as nat)),
{
    let t = if d == 0 {
        "0"
    } else if d == 1 {
        "1"
    } else if d == 2 {
        "2"
    } else if d == 3 {
        "3"
    } else if d == 4 {
        "4"
    } else if d == 5 {
        "5"
    } else if d == 6 {
        "6"
    } else if d == 7 {
        "7"
    } else if d == 8 {
        "8"
    } else {
        "9"
    };
    proof {
        reveal_strlit("0");
        reveal_strlit("1");
        reveal_strlit("2");
        reveal_strlit("3");
        reveal_strlit("4");
        reveal_strlit("5");
        reveal_strlit("6");
        reveal_strlit("7");
        reveal_strlit("8");
        reveal_strlit("9");
    }
    s.append(t);
    assert(s@ =~= old(s)@.push(digit_char(d as nat)));
}

fn push_decimal(s: &mut String, v: u8)
    ensures
        final(s)@ == old(s)@ + decimal(v as nat),
{
    if v >= 100 {
        push_digit(s, v / 100);
        push_digit(s, (v / 10) % 10);
        push_digit(s, v % 10);
        assert(decimal(v as nat) =~= seq![
            digit_char((v / 100) as nat),
            digit_char(((v / 10) % 10) as nat),
            digit_char((v % 10) as nat),
        ]) by {
            assert(decimal((v / 100) as nat) == seq![digit_char((v / 100) as nat)]);
            assert((v / 10) / 10 == v / 100);
            assert(decimal((v / 10) as nat) == decimal((v / 100) as nat) + seq![
                digit_char(((v / 10) % 10) as nat),
            ]);
        }
    } else if v >= 10 {
        push_digit(s, v / 10);
        push_digit(s, v % 10);
        assert(decimal((v / 10) as nat) == seq![digit_char((v / 10) as nat)]);
        assert(decimal(v as nat) =~= seq![digit_char((v / 10) as nat), digit_char((v % 10) as nat)]);
    } else {
        push_digit(s, v);
        assert(decimal(v as nat) =~= seq![digit_char(v as nat)]);
    }
    assert(s@ =~= old(s)@ + decimal(v as nat));
}

fn triple_to_string(name: &str, a: u8, b: u8, c: u8) -> (r: String)
    ensures
        r@ == triple_text(name@, a, b, c),
{
    let mut s = String::from_str(name);
    proof {
        reveal_strlit("(");
        reveal_strlit(", ");
        reveal_strlit(")");
    }
    s.append("(");
    push_decimal(&mut s, a);
    s.append(", ");
    push_decimal(&mut s, b);
    s.append(", ");
    push_decimal(&mut s, c);
    s.append(")");
    assert(s@ =~= triple_text(name@, a, b, c));
    s
}

impl Rgb {
    /// The color as text: `rgb(r, g, b)`, in decimal.
    pub fn to_string(&self) -> (r: String)
        ensures
            r@ == triple_text(seq!['r', 'g', 'b'], self.r, self.g, self.b),
    {
        proof {
            reveal_strlit("rgb");
        }
        triple_to_string("rgb", self.r, self.g, self.b)
    }
}

impl Hsl {
    /// The color as text: `hsl(h, s, l)`, in decimal.
    pub fn to_string(&self) -> (r: String)
        ensures
            r@ == triple_text(seq!['h', 's', 'l'], self.h, self.s, self.l),
    {
        proof {
            reveal_strlit("hsl");
        }
        triple_to_string("hsl", self.h, self.s, self.l)
    }
}

} // verus!
