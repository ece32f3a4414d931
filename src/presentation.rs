//! Alternate texts for a color: `rgb()`, hexadecimal, `hsl()` and `hwb()`.
use vstd::prelude::*;
use crate::line_index::Range;

verus! {

/// A color as its presentations write it: 8-bit red, green, blue and alpha, the hue in whole
/// degrees, and saturation, lightness, whiteness and blackness in whole percents.
#[derive(Clone, Copy, Debug, PartialEq, Eq, Structural)]
pub struct PresentationColor {
    pub red: u8,
    pub green: u8,
    pub blue: u8,
    pub alpha: u8,
    pub hue: u32,
    pub saturation: u32,
    pub lightness: u32,
    pub whiteness: u32,
    pub blackness: u32,
}

/// A replacement of the text in `range` by `new_text`.
#[derive(Clone, Debug, PartialEq, Eq)]
pub struct TextEdit {
    pub range: Range,
    pub new_text: String,
}

/// One way to write a color, with the edit that writes it.
#[derive(Clone, Debug, PartialEq, Eq)]
pub struct ColorPresentation {
    pub label: String,
    pub text_edit: TextEdit,
}

/// The decimal digit `d`.
pub open spec fn digit_char(d: nat) -> char {
    if d == 0 {
        '0'
    } else if d == 1 {
        '1'
    } else if d == 2 {
        '2'
    } else if d == 3 {
        '3'
    } else if d == 4 {
        '4'
    } else if d == 5 {
        '5'
    } else if d == 6 {
        '6'
    } else if d == 7 {
        '7'
    } else if d == 8 {
        '8'
    } else {
        '9'
    }
}

/// `n` in decimal, without leading zeros.
pub open spec fn decimal(n: nat) -> Seq<char>
    decreases n,
{
    if n < 10 {
        seq![digit_char(n)]
    } else {
        decimal(n / 10).push(digit_char(n % 10))
    }
}

/// The lowercase hexadecimal digit `d`.
pub open spec fn hex_digit(d: nat) -> char {
    if d < 10 {
        digit_char(d)
    } else if d == 10 {
        'a'
    } else if d == 11 {
        'b'
    } else if d == 12 {
        'c'
    } else if d == 13 {
        'd'
    } else if d == 14 {
        'e'
    } else {
        'f'
    }
}

/// The two lowercase hexadecimal digits of `b`.
pub open spec fn hex_byte(b: u8) -> Seq<char> {
    seq![hex_digit(b as nat / 16), hex_digit(b as nat % 16)]
}

/// `#` and the hexadecimal digits of red, green and blue, then of alpha when it is below 255.
pub open spec fn hex_color_text(r: u8, g: u8, b: u8, a: u8) -> Seq<char> {
    seq!['#'] + hex_byte(r) + hex_byte(g) + hex_byte(b) + if a < 255 {
        hex_byte(a)
    } else {
        seq![]
    }
}

/// The 8-bit alpha `a` as a whole percent: `a / 255 * 100`, rounded half away from zero.
pub open spec fn alpha_percent(a: u8) -> nat {
    ((a as nat) * 200 + 255) / 510
}

/// ` / A%` for a color that is not fully opaque, else nothing.
pub open spec fn alpha_suffix(a: u8) -> Seq<char> {
    if a == 255 {
        seq![]
    } else {
        seq![' ', '/', ' '] + decimal(alpha_percent(a)) + seq!['%']
    }
}

/// `name(x y z)` in CSS functional notation, with a percent sign after `y` and `z` when
/// `percents`, and the alpha suffix before the parenthesis.
pub open spec fn functional_text(name: Seq<char>, x: nat, y: nat, z: nat, percents: bool, a: u8) -> Seq<
    char,
> {
    let pct = if percents {
        seq!['%']
    } else {
        seq![]
    };
    name + seq!['('] + decimal(x) + seq![' '] + decimal(y) + pct + seq![' '] + decimal(z) + pct
        + alpha_suffix(a) + seq![')']
}

/// `rgb(R G B)` from the 8-bit components.
pub open spec fn rgb_text(c: PresentationColor) -> Seq<char> {
    functional_text(seq!['r', 'g', 'b'], c.red as nat, c.green as nat, c.blue as nat, false, c.alpha)
}

/// `hsl(H S% L%)`.
pub open spec fn hsl_text(c: PresentationColor) -> Seq<char> {
    functional_text(
        seq!['h', 's', 'l'],
        c.hue as nat,
        c.saturation as nat,
        c.lightness as nat,
        true,
        c.alpha,
    )
}

/// `hwb(H W% B%)`.
pub open spec fn hwb_text(c: PresentationColor) -> Seq<char> {
    functional_text(
        seq!['h', 'w', 'b'],
        c.hue as nat,
        c.whiteness as nat,
        c.blackness as nat,
        true,
        c.alpha,
    )
}

/// The four presentations of `c`, in order: RGB, hexadecimal, HSL, HWB.
pub open spec fn presentation_texts(c: PresentationColor) -> Seq<Seq<char>> {
    seq![
        rgb_text(c),
        hex_color_text(c.red, c.green, c.blue, c.alpha),
        hsl_text(c),
        hwb_text(c),
    ]
}

/// Relies on String::push, which appends one character.
#[verifier::external_body]
fn push_char(s: &mut String, c: char)
    ensures
        final(s)@ == old(s)@.push(c),
{
    s.push(c);
}

/// Relies on csscolorparser::Color::from_rgba8 and Color::to_css_hex: the 8-bit components
/// survive the round trip through the color, and the text is `#` with two lowercase
/// hexadecimal digits for each of red, green and blue, then for alpha when it is below 255.
#[verifier::external_body]
fn css_hex(r: u8, g: u8, b: u8, a: u8) -> (s: String)
    ensures
        s@ == hex_color_text(r, g, b, a),
{
    csscolorparser::Color::from_rgba8(r, g, b, a).to_css_hex()
}

fn digit(d: u32) -> (c: char)
    requires
        d < 10,
    ensures
        c == digit_char(d as nat),
{
    if d == 0 {
        '0'
    } else if d == 1 {
        '1'
    } else if d == 2 {
        '2'
    } else if d == 3 {
        '3'
    } else if d == 4 {
        '4'
    } else if d == 5 {
        '5'
    } else if d == 6 {
        '6'
    } else if d == 7 {
        '7'
    } else if d == 8 {
        '8'
    } else {
        '9'
    }
}

fn push_decimal(s: &mut String, n: u32)
    ensures
        final(s)@ == old(s)@ + decimal(n as nat),
    decreases n,
{
    let ghost before = s@;
    if n >= 10 {
        push_decimal(s, n / 10);
    }
    push_char(s, digit(n % 10));
    assert(s@ =~= before + decimal(n as nat));
}

fn push_alpha_suffix(s: &mut String, a: u8)
    ensures
        final(s)@ == old(s)@ + alpha_suffix(a),
{
    let ghost before = s@;
    if a != 255 {
        push_char(s, ' ');
        push_char(s, '/');
        push_char(s, ' ');
        let percent: u32 = ((a as u32) * 200 + 255) / 510;
        push_decimal(s, percent);
        push_char(s, '%');
    }
    assert(s@ =~= before + alpha_suffix(a));
}

/// Writes `functional_text` of the name `name`.
fn write_functional(name: [char; 3], x: u32, y: u32, z: u32, percents: bool, a: u8) -> (s: String)
    ensures
        s@ == functional_text(seq![name[0], name[1], name[2]], x as nat, y as nat, z as nat, percents, a),
{
    let mut s = String::new();
    push_char(&mut s, name[0]);
    push_char(&mut s, name[1]);
    push_char(&mut s, name[2]);
    push_char(&mut s, '(');
    push_decimal(&mut s, x);
    push_char(&mut s, ' ');
    push_decimal(&mut s, y);
    if percents {
        push_char(&mut s, '%');
    }
    push_char(&mut s, ' ');
    push_decimal(&mut s, z);
    if percents {
        push_char(&mut s, '%');
    }
    push_alpha_suffix(&mut s, a);
    push_char(&mut s, ')');
    assert(s@ =~= functional_text(seq![name[0], name[1], name[2]], x as nat, y as nat, z as nat, percents, a));
    s
}

/// The four presentations of `color`, in the order RGB, hexadecimal, HSL, HWB, each labelled
/// with its text and carrying an edit that writes that text over `range`.
pub fn compute_color_presentations(color: PresentationColor, range: Range) -> (r: Vec<
    ColorPresentation,
>)
    ensures
        r@.len() == 4,
        forall|k: int|
            0 <= k < 4 ==> {
                &&& (#[trigger] r@[k]).label@ == presentation_texts(color)[k]
                &&& r@[k].text_edit.new_text@ == presentation_texts(color)[k]
                &&& r@[k].text_edit.range == range
            },
{
    let rgb = write_functional(
        ['r', 'g', 'b'],
        color.red as u32,
        color.green as u32,
        color.blue as u32,
        false,
        color.alpha,
    );
    let hex = css_hex(color.red, color.green, color.blue, color.alpha);
    let hsl = write_functional(
        ['h', 's', 'l'],
        color.hue,
        color.saturation,
        color.lightness,
        true,
        color.alpha,
    );
    let hwb = write_functional(
        ['h', 'w', 'b'],
        color.hue,
        color.whiteness,
        color.blackness,
        true,
        color.alpha,
    );
    let ghost texts = presentation_texts(color);
    assert(rgb@ == texts[0]);
    assert(hsl@ == texts[2]);
    assert(hwb@ == texts[3]);
    let mut r: Vec<ColorPresentation> = Vec::new();
    r.push(ColorPresentation { label: rgb.clone(), text_edit: TextEdit { range, new_text: rgb } });
    r.push(ColorPresentation { label: hex.clone(), text_edit: TextEdit { range, new_text: hex } });
    r.push(ColorPresentation { label: hsl.clone(), text_edit: TextEdit { range, new_text: hsl } });
    r.push(ColorPresentation { label: hwb.clone(), text_edit: TextEdit { range, new_text: hwb } });
    r
}

/// The value of the hexadecimal digit `c`, in either case.
pub open spec fn hex_digit_value(c: char) -> Option<nat> {
    let v = c as u32;
    if 0x30 <= v <= 0x39 {
        Some((v - 0x30) as nat)
    } else if 0x61 <= v <= 0x66 {
        Some((v - 0x61 + 10) as nat)
    } else if 0x41 <= v <= 0x46 {
        Some((v - 0x41 + 10) as nat)
    } else {
        None
    }
}

/// The byte that the two hexadecimal digits at `i` and `i + 1` of `s` write.
pub open spec fn hex_pair_value(s: Seq<char>, i: int) -> Option<u8> {
    match (hex_digit_value(s[i]), hex_digit_value(s[i + 1])) {
        (Some(hi), Some(lo)) => Some((hi * 16 + lo) as u8),
        _ => None,
    }
}

/// The 8-bit red, green, blue and alpha that a `#RRGGBB` or `#RRGGBBAA` text denotes; alpha
/// is 255 when absent.
pub open spec fn hex_color_value(s: Seq<char>) -> Option<(u8, u8, u8, u8)> {
    if (s.len() == 7 || s.len() == 9) && s[0] == '#' {
        match (hex_pair_value(s, 1), hex_pair_value(s, 3), hex_pair_value(s, 5)) {
            (Some(r), Some(g), Some(b)) => if s.len() == 7 {
                Some((r, g, b, 255u8))
            } else {
                match hex_pair_value(s, 7) {
                    Some(a) => Some((r, g, b, a)),
                    None => None,
                }
            },
            _ => None,
        }
    } else {
        None
    }
}

proof fn lemma_hex_byte_value(b: u8)
    ensures
        hex_pair_value(hex_byte(b), 0) == Some(b),
{
    let hi = b as nat / 16;
    let lo = b as nat % 16;
    assert(hex_digit_value(hex_digit(hi)) == Some(hi));
    assert(hex_digit_value(hex_digit(lo)) == Some(lo));
    assert(hi * 16 + lo == b);
}

/// Reading back the hexadecimal presentation gives the 8-bit red, green, blue and alpha it was
/// written from.
pub proof fn lemma_hex_round_trip(r: u8, g: u8, b: u8, a: u8)
    ensures
        hex_color_value(hex_color_text(r, g, b, a)) == Some((r, g, b, a)),
{
    let s = hex_color_text(r, g, b, a);
    lemma_hex_byte_value(r);
    lemma_hex_byte_value(g);
    lemma_hex_byte_value(b);
    lemma_hex_byte_value(a);
    assert(s.subrange(1, 3) == hex_byte(r));
    assert(s.subrange(3, 5) == hex_byte(g));
    assert(s.subrange(5, 7) == hex_byte(b));
    assert(hex_pair_value(s, 1) == hex_pair_value(hex_byte(r), 0));
    assert(hex_pair_value(s, 3) == hex_pair_value(hex_byte(g), 0));
    assert(hex_pair_value(s, 5) == hex_pair_value(hex_byte(b), 0));
    if a < 255 {
        assert(s.subrange(7, 9) == hex_byte(a));
        assert(hex_pair_value(s, 7) == hex_pair_value(hex_byte(a), 0));
    }
}

} // verus!
