//! Colors of the Xournal++ format, written as `#RRGGBBAA` or by name.
use vstd::prelude::*;

use crate::error::XoppError;
use crate::text::{
    digit_value, digits_value, is_unicode_whitespace, parse_u32, parse_u32_radix, push_char,
    remove_char, str_chars, str_eq, trim, trim_chars, trim_end, trim_start,
};

verus! {

/// A Xopp color (represented in XML as hex values in the format `#RRGGBBAA`).
#[derive(Debug, Clone, Copy, PartialEq, Eq, Structural)]
pub struct XoppColor {
    /// red from 0 to 255
    pub red: u8,
    /// green from 0 to 255
    pub green: u8,
    /// blue from 0 to 255
    pub blue: u8,
    /// alpha from 0 to 255
    pub alpha: u8,
}

impl Default for XoppColor {
    fn default() -> (c: Self)
        ensures
            c == rgba(0, 0, 0, 0),
    {
        XoppColor { red: 0, green: 0, blue: 0, alpha: 0 }
    }
}

/// The color with the given channels.
pub open spec fn rgba(red: u8, green: u8, blue: u8, alpha: u8) -> XoppColor {
    XoppColor { red, green, blue, alpha }
}

/// The color whose channels are the bytes of `v`, red the most significant.
pub open spec fn color_from_u32(v: u32) -> XoppColor {
    rgba(
        (v / 0x100_0000) as u8,
        ((v / 0x1_0000) % 0x100) as u8,
        ((v / 0x100) % 0x100) as u8,
        (v % 0x100) as u8,
    )
}

/// A hexadecimal color value: surrounding whitespace and every `#` are
/// ignored, the rest is a hexadecimal `u32` whose bytes are red, green,
/// blue and alpha.
pub open spec fn hex_color(s: Seq<char>) -> Option<XoppColor> {
    match parse_u32_radix(remove_char(trim(s), '#'), 16) {
        Some(v) => Some(color_from_u32(v)),
        None => None,
    }
}

/// A color attribute value of a stroke or a text: one of the color names
/// of the format, else a hexadecimal color.
pub open spec fn stroke_color(s: Seq<char>) -> Option<XoppColor> {
    if s == "black"@ {
        Some(rgba(0x00, 0x00, 0x00, 0xff))
    } else if s == "blue"@ {
        Some(rgba(0x33, 0x33, 0xcc, 0xff))
    } else if s == "red"@ {
        Some(rgba(0xff, 0x00, 0x00, 0xff))
    } else if s == "green"@ {
        Some(rgba(0x00, 0x80, 0x00, 0xff))
    } else if s == "gray"@ {
        Some(rgba(0x80, 0x80, 0x80, 0xff))
    } else if s == "lightblue"@ {
        Some(rgba(0x80, 0xc0, 0xff, 0xff))
    } else if s == "lightgreen"@ {
        Some(rgba(0x00, 0xff, 0x00, 0xff))
    } else if s == "magenta"@ {
        Some(rgba(0xff, 0x00, 0xff, 0xff))
    } else if s == "orange"@ {
        Some(rgba(0xff, 0x80, 0x00, 0xff))
    } else if s == "yellow"@ {
        Some(rgba(0xff, 0xff, 0xf0, 0xff))
    } else if s == "white"@ {
        Some(rgba(0xff, 0xff, 0xff, 0xff))
    } else {
        hex_color(s)
    }
}

/// A color attribute value of a solid page background: one of the
/// background color names of the format, else a hexadecimal color.
pub open spec fn background_color(s: Seq<char>) -> Option<XoppColor> {
    if s == "white"@ {
        Some(rgba(0xff, 0xff, 0xff, 0xff))
    } else if s == "blue"@ {
        Some(rgba(0xa0, 0xe8, 0xff, 0xff))
    } else if s == "pink"@ {
        Some(rgba(0xff, 0xc0, 0xd4, 0xff))
    } else if s == "green"@ {
        Some(rgba(0x80, 0xff, 0xc0, 0xff))
    } else if s == "orange"@ {
        Some(rgba(0xff, 0xc0, 0x80, 0xff))
    } else if s == "yellow"@ {
        Some(rgba(0xff, 0xff, 0x80, 0xff))
    } else {
        hex_color(s)
    }
}

/// The outcome of parsing a color value.
pub open spec fn color_result(c: Option<XoppColor>) -> Result<XoppColor, XoppError> {
    match c {
        Some(c) => Ok(c),
        None => Err(XoppError::InvalidColorValue),
    }
}

/// The lowercase hexadecimal digit of `d`.
pub open spec fn lower_hex_digit(d: nat) -> char {
    if d == 0 {
        '0'
    } else if d == 1 {
        '1'
    } else if d == 2 {
        '2'
    } else if d == 3 {
        '3'
    } else if d == 4 {
        '4'
    } else if d == 5 {
        '5'
    } else if d == 6 {
        '6'
    } else if d == 7 {
        '7'
    } else if d == 8 {
        '8'
    } else if d == 9 {
        '9'
    } else if d == 10 {
        'a'
    } else if d == 11 {
        'b'
    } else if d == 12 {
        'c'
    } else if d == 13 {
        'd'
    } else if d == 14 {
        'e'
    } else {
        'f'
    }
}

/// A byte as two lowercase hexadecimal digits, as `{:02x}` writes it.
pub open spec fn hex_byte(b: u8) -> Seq<char> {
    seq![lower_hex_digit((b / 16) as nat), lower_hex_digit((b % 16) as nat)]
}

/// The attribute value of a color: `#` and the channels as lowercase
/// hexadecimal, red, green, blue, alpha.
pub open spec fn color_attr_value(c: XoppColor) -> Seq<char> {
    seq!['#'] + hex_byte(c.red) + hex_byte(c.green) + hex_byte(c.blue) + hex_byte(c.alpha)
}

fn lower_hex_digit_char(d: u8) -> (c: char)
    requires
        d < 16,
    ensures
        c == lower_hex_digit(d as nat),
{
    match d {
        0 => '0',
        1 => '1',
        2 => '2',
        3 => '3',
        4 => '4',
        5 => '5',
        6 => '6',
        7 => '7',
        8 => '8',
        9 => '9',
        10 => 'a',
        11 => 'b',
        12 => 'c',
        13 => 'd',
        14 => 'e',
        _ => 'f',
    }
}

fn push_hex_byte(s: &mut String, b: u8)
    ensures
        final(s)@ == old(s)@ + hex_byte(b),
{
    push_char(s, lower_hex_digit_char(b / 16));
    push_char(s, lower_hex_digit_char(b % 16));
    assert(final(s)@ =~= old(s)@ + hex_byte(b));
}

impl XoppColor {
    /// The color as an XML attribute value, `#rrggbbaa` in lowercase
    /// hexadecimal.
    pub fn as_xml_attr_value(&self) -> (s: String)
        ensures
            s@ == color_attr_value(*self),
    {
        let mut s = String::new();
        push_char(&mut s, '#');
        push_hex_byte(&mut s, self.red);
        push_hex_byte(&mut s, self.green);
        push_hex_byte(&mut s, self.blue);
        push_hex_byte(&mut s, self.alpha);
        assert(s@ =~= color_attr_value(*self));
        s
    }

    /// Parses an attribute value in the format `#RRGGBBAA`; surrounding
    /// whitespace and every `#` are ignored.
    pub fn from_hexcolor_attr_value(s: &str) -> (res: Result<Self, XoppError>)
        ensures
            res == color_result(hex_color(s@)),
    {
        let cs = str_chars(s);
        let (lo, hi) = trim_chars(&cs);
        let ghost trimmed = cs@.subrange(lo as int, hi as int);
        let mut digits = String::new();
        let mut i = lo;
        assert(trimmed.take(0) =~= Seq::<char>::empty());
        while i < hi
            invariant
                lo <= i <= hi <= cs.len(),
                trimmed == cs@.subrange(lo as int, hi as int),
                digits@ == remove_char(trimmed.take(i - lo), '#'),
            decreases hi - i,
        {
            assert(trimmed.take(i + 1 - lo).drop_last() =~= trimmed.take(i - lo));
            if cs[i] != '#' {
                push_char(&mut digits, cs[i]);
            }
            i = i + 1;
        }
        assert(trimmed.take(hi - lo) =~= trimmed);
        match parse_u32(digits.as_str(), 16) {
            Some(v) => Ok(
                XoppColor {
                    red: (v / 0x100_0000) as u8,
                    green: ((v / 0x1_0000) % 0x100) as u8,
                    blue: ((v / 0x100) % 0x100) as u8,
                    alpha: (v % 0x100) as u8,
                },
            ),
            None => Err(XoppError::InvalidColorValue),
        }
    }

    /// Parses a color attribute value of a stroke or a text: a color name
    /// of the format, else a hexadecimal color.
    pub fn from_strokecolor_attr_value(s: &str) -> (res: Result<Self, XoppError>)
        ensures
            res == color_result(stroke_color(s@)),
    {
        if str_eq(s, "black") {
            Ok(XoppColor { red: 0x00, green: 0x00, blue: 0x00, alpha: 0xff })
        } else if str_eq(s, "blue") {
            Ok(XoppColor { red: 0x33, green: 0x33, blue: 0xcc, alpha: 0xff })
        } else if str_eq(s, "red") {
            Ok(XoppColor { red: 0xff, green: 0x00, blue: 0x00, alpha: 0xff })
        } else if str_eq(s, "green") {
            Ok(XoppColor { red: 0x00, green: 0x80, blue: 0x00, alpha: 0xff })
        } else if str_eq(s, "gray") {
            Ok(XoppColor { red: 0x80, green: 0x80, blue: 0x80, alpha: 0xff })
        } else if str_eq(s, "lightblue") {
            Ok(XoppColor { red: 0x80, green: 0xc0, blue: 0xff, alpha: 0xff })
        } else if str_eq(s, "lightgreen") {
            Ok(XoppColor { red: 0x00, green: 0xff, blue: 0x00, alpha: 0xff })
        } else if str_eq(s, "magenta") {
            Ok(XoppColor { red: 0xff, green: 0x00, blue: 0xff, alpha: 0xff })
        } else if str_eq(s, "orange") {
            Ok(XoppColor { red: 0xff, green: 0x80, blue: 0x00, alpha: 0xff })
        } else if str_eq(s, "yellow") {
            Ok(XoppColor { red: 0xff, green: 0xff, blue: 0xf0, alpha: 0xff })
        } else if str_eq(s, "white") {
            Ok(XoppColor { red: 0xff, green: 0xff, blue: 0xff, alpha: 0xff })
        } else {
            Self::from_hexcolor_attr_value(s)
        }
    }

    /// Parses a color attribute value of a solid page background: a
    /// background color name of the format, else a hexadecimal color.
    pub fn from_backgroundcolor_attr_value(s: &str) -> (res: Result<Self, XoppError>)
        ensures
            res == color_result(background_color(s@)),
    {
        if str_eq(s, "white") {
            Ok(XoppColor { red: 0xff, green: 0xff, blue: 0xff, alpha: 0xff })
        } else if str_eq(s, "blue") {
            Ok(XoppColor { red: 0xa0, green: 0xe8, blue: 0xff, alpha: 0xff })
        } else if str_eq(s, "pink") {
            Ok(XoppColor { red: 0xff, green: 0xc0, blue: 0xd4, alpha: 0xff })
        } else if str_eq(s, "green") {
            Ok(XoppColor { red: 0x80, green: 0xff, blue: 0xc0, alpha: 0xff })
        } else if str_eq(s, "orange") {
            Ok(XoppColor { red: 0xff, green: 0xc0, blue: 0x80, alpha: 0xff })
        } else if str_eq(s, "yellow") {
            Ok(XoppColor { red: 0xff, green: 0xff, blue: 0x80, alpha: 0xff })
        } else {
            Self::from_hexcolor_attr_value(s)
        }
    }
}

// ---------------------------------------------------------------------------
// Laws
// ---------------------------------------------------------------------------
proof fn lemma_hex_digit(d: nat)
    requires
        d < 16,
    ensures
        digit_value(lower_hex_digit(d), 16) == Some(d),
        !is_unicode_whitespace(lower_hex_digit(d)),
        lower_hex_digit(d) != '#',
        lower_hex_digit(d) != '+',
{
}

proof fn lemma_remove_char_concat(a: Seq<char>, b: Seq<char>, c: char)
    ensures
        remove_char(a + b, c) == remove_char(a, c) + remove_char(b, c),
    decreases b.len(),
{
    if b.len() == 0 {
        assert(a + b =~= a);
        assert(remove_char(a, c) + remove_char(b, c) =~= remove_char(a, c));
    } else {
        lemma_remove_char_concat(a, b.drop_last(), c);
        assert((a + b).drop_last() =~= a + b.drop_last());
        assert((a + b).last() == b.last());
        if b.last() != c {
            assert(remove_char(a, c) + remove_char(b, c) =~= (remove_char(a, c) + remove_char(
                b.drop_last(),
                c,
            )).push(b.last()));
        }
    }
}

proof fn lemma_remove_absent_char(a: Seq<char>, c: char)
    requires
        forall|i: int| 0 <= i < a.len() ==> a[i] != c,
    ensures
        remove_char(a, c) == a,
    decreases a.len(),
{
    if a.len() > 0 {
        lemma_remove_absent_char(a.drop_last(), c);
        assert(a.drop_last().push(a.last()) =~= a);
    }
}

proof fn lemma_digits_hex_byte(xs: Seq<char>, v: nat, b: u8)
    requires
        digits_value(xs, 16) == Some(v),
    ensures
        digits_value(xs + hex_byte(b), 16) == Some(v * 256 + b as nat),
{
    let hi = lower_hex_digit((b / 16) as nat);
    let lo = lower_hex_digit((b % 16) as nat);
    lemma_hex_digit((b / 16) as nat);
    lemma_hex_digit((b % 16) as nat);
    let ys = xs + hex_byte(b);
    assert(ys.drop_last() =~= xs.push(hi));
    assert(xs.push(hi).drop_last() =~= xs);
    assert(digits_value(xs.push(hi), 16) == Some(v * 16 + (b / 16) as nat));
    assert((v * 16 + (b / 16) as nat) * 16 + (b % 16) as nat == v * 256 + b as nat) by (nonlinear_arith);
}

proof fn lemma_decode_channels(r: u8, g: u8, b: u8, a: u8)
    ensures
        ({
            let v: u32 = (((r as nat * 256 + g as nat) * 256 + b as nat) * 256 + a as nat) as u32;
            &&& ((r as nat * 256 + g as nat) * 256 + b as nat) * 256 + a as nat <= u32::MAX
            &&& color_from_u32(v) == rgba(r, g, b, a)
        }),
{
    let v: u32 = (((r as nat * 256 + g as nat) * 256 + b as nat) * 256 + a as nat) as u32;
    assert(((r as nat * 256 + g as nat) * 256 + b as nat) * 256 + a as nat <= u32::MAX)
        by (nonlinear_arith)
        requires
            r < 256,
            g < 256,
            b < 256,
            a < 256,
    ;
    assert(v == ((r as u32 * 256 + g as u32) * 256 + b as u32) * 256 + a as u32);
    assert(v / 0x100_0000 == r as u32 && (v / 0x1_0000) % 0x100 == g as u32 && (v / 0x100) % 0x100
        == b as u32 && v % 0x100 == a as u32) by (bit_vector)
        requires
            v == ((r as u32 * 256 + g as u32) * 256 + b as u32) * 256 + a as u32,
    ;
}

/// Reading back a written color gives the color: the attribute value that
/// `as_xml_attr_value` writes parses, as a hexadecimal color, to the same
/// channels.
pub proof fn lemma_hex_color_roundtrip(c: XoppColor)
    ensures
        hex_color(color_attr_value(c)) == Some(c),
{
    let s = color_attr_value(c);
    let digits = hex_byte(c.red) + hex_byte(c.green) + hex_byte(c.blue) + hex_byte(c.alpha);
    assert(s =~= seq!['#'] + digits);
    lemma_hex_digit((c.alpha % 16) as nat);
    assert(s.last() == lower_hex_digit((c.alpha % 16) as nat));
    assert(trim_start(s) == s);
    assert(trim_end(s) == s);
    assert(trim(s) == s);
    assert forall|i: int| 0 <= i < digits.len() implies digits[i] != '#' by {
        lemma_hex_digit((c.red / 16) as nat);
        lemma_hex_digit((c.red % 16) as nat);
        lemma_hex_digit((c.green / 16) as nat);
        lemma_hex_digit((c.green % 16) as nat);
        lemma_hex_digit((c.blue / 16) as nat);
        lemma_hex_digit((c.blue % 16) as nat);
        lemma_hex_digit((c.alpha / 16) as nat);
        lemma_hex_digit((c.alpha % 16) as nat);
    }
    lemma_remove_char_concat(seq!['#'], digits, '#');
    lemma_remove_absent_char(digits, '#');
    assert(seq!['#'].drop_last() =~= Seq::<char>::empty());
    assert(remove_char(Seq::<char>::empty(), '#') =~= Seq::<char>::empty());
    assert(seq!['#'].last() == '#');
    assert(remove_char(seq!['#'], '#') =~= Seq::<char>::empty());
    assert(remove_char(s, '#') =~= digits);
    let e = Seq::<char>::empty();
    assert(digits_value(e, 16) == Some(0nat));
    lemma_digits_hex_byte(e, 0, c.red);
    assert(e + hex_byte(c.red) =~= hex_byte(c.red));
    let d1 = hex_byte(c.red);
    lemma_digits_hex_byte(d1, c.red as nat, c.green);
    let d2 = d1 + hex_byte(c.green);
    lemma_digits_hex_byte(d2, c.red as nat * 256 + c.green as nat, c.blue);
    let d3 = d2 + hex_byte(c.blue);
    lemma_digits_hex_byte(
        d3,
        (c.red as nat * 256 + c.green as nat) * 256 + c.blue as nat,
        c.alpha,
    );
    assert(d3 + hex_byte(c.alpha) =~= digits);
    lemma_hex_digit((c.red / 16) as nat);
    assert(digits[0] != '+');
    lemma_decode_channels(c.red, c.green, c.blue, c.alpha);
}

/// A written color reads back as the same color where a stroke or a text
/// color is expected.
pub proof fn lemma_stroke_color_roundtrip(c: XoppColor)
    ensures
        stroke_color(color_attr_value(c)) == Some(c),
{
    let s = color_attr_value(c);
    assert(s[0] == '#');
    reveal_strlit("black");
    reveal_strlit("blue");
    reveal_strlit("red");
    reveal_strlit("green");
    reveal_strlit("gray");
    reveal_strlit("lightblue");
    reveal_strlit("lightgreen");
    reveal_strlit("magenta");
    reveal_strlit("orange");
    reveal_strlit("yellow");
    reveal_strlit("white");
    lemma_hex_color_roundtrip(c);
}

/// A written color reads back as the same color where a page background
/// color is expected.
pub proof fn lemma_background_color_roundtrip(c: XoppColor)
    ensures
        background_color(color_attr_value(c)) == Some(c),
{
    let s = color_attr_value(c);
    assert(s[0] == '#');
    reveal_strlit("white");
    reveal_strlit("blue");
    reveal_strlit("pink");
    reveal_strlit("green");
    reveal_strlit("orange");
    reveal_strlit("yellow");
    lemma_hex_color_roundtrip(c);
}

/// A lowercase hexadecimal digit.
pub open spec fn is_lower_hex_digit(c: char) -> bool {
    ('0' <= c && c <= '9') || ('a' <= c && c <= 'f')
}

proof fn lemma_lower_hex_digit_inverse(c: char)
    requires
        is_lower_hex_digit(c),
    ensures
        digit_value(c, 16) is Some,
        digit_value(c, 16)->0 < 16,
        lower_hex_digit(digit_value(c, 16)->0) == c,
{
    assert(c == '0' || c == '1' || c == '2' || c == '3' || c == '4' || c == '5' || c == '6' || c
        == '7' || c == '8' || c == '9' || c == 'a' || c == 'b' || c == 'c' || c == 'd' || c == 'e'
        || c == 'f');
}

proof fn lemma_hex_byte_of_digits(hi: char, lo: char)
    requires
        is_lower_hex_digit(hi),
        is_lower_hex_digit(lo),
    ensures
        ({
            let b = (digit_value(hi, 16)->0 * 16 + digit_value(lo, 16)->0) as u8;
            &&& digit_value(hi, 16)->0 * 16 + digit_value(lo, 16)->0 < 256
            &&& hex_byte(b) == seq![hi, lo]
        }),
{
    lemma_lower_hex_digit_inverse(hi);
    lemma_lower_hex_digit_inverse(lo);
    let dh = digit_value(hi, 16)->0;
    let dl = digit_value(lo, 16)->0;
    let b = (dh * 16 + dl) as u8;
    assert(b / 16 == dh && b % 16 == dl);
    assert(hex_byte(b) =~= seq![hi, lo]);
}

/// Reading back written text gives the text: `#` followed by eight
/// lowercase hexadecimal digits parses to a color that is written as the
/// same text.
pub proof fn lemma_hex_text_roundtrip(digits: Seq<char>)
    requires
        digits.len() == 8,
        forall|i: int| 0 <= i < 8 ==> is_lower_hex_digit(#[trigger] digits[i]),
    ensures
        hex_color(seq!['#'] + digits) is Some,
        color_attr_value(hex_color(seq!['#'] + digits)->0) == seq!['#'] + digits,
{
    let h = digits;
    assert(is_lower_hex_digit(h[0]) && is_lower_hex_digit(h[1]) && is_lower_hex_digit(h[2])
        && is_lower_hex_digit(h[3]) && is_lower_hex_digit(h[4]) && is_lower_hex_digit(h[5])
        && is_lower_hex_digit(h[6]) && is_lower_hex_digit(h[7]));
    lemma_hex_byte_of_digits(h[0], h[1]);
    lemma_hex_byte_of_digits(h[2], h[3]);
    lemma_hex_byte_of_digits(h[4], h[5]);
    lemma_hex_byte_of_digits(h[6], h[7]);
    let r = (digit_value(h[0], 16)->0 * 16 + digit_value(h[1], 16)->0) as u8;
    let g = (digit_value(h[2], 16)->0 * 16 + digit_value(h[3], 16)->0) as u8;
    let b = (digit_value(h[4], 16)->0 * 16 + digit_value(h[5], 16)->0) as u8;
    let a = (digit_value(h[6], 16)->0 * 16 + digit_value(h[7], 16)->0) as u8;
    let c = rgba(r, g, b, a);
    assert(color_attr_value(c) =~= seq!['#'] + h);
    lemma_hex_color_roundtrip(c);
}

} // verus!
