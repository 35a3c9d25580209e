//! Colour palettes: choosing one from a free-text prompt, reading a colour
//! from its text, and the text of a design file.

use vstd::prelude::*;
use vstd::string::StringExecFns;

use crate::bytes::split;
use crate::chars::{
    chars_of, contains, contains_text, lowercased, narrow, narrow_chars, push_decimal,
    split_chars, to_lower,
    trim, trimmed, widen,
};
use crate::decimal::{decimal_text, parse_decimal, parse_u64};

verus! {

/// The palettes that a prompt can ask for.
#[derive(Clone, Copy, Debug, PartialEq, Eq, Structural)]
pub enum Palette {
    Dark,
    Blue,
    Red,
    Green,
    Warm,
    Pastel,
    Neon,
    Gray,
    Neutral,
}

/// The palette that a prompt in lower case asks for. The first group of key
/// words of which the prompt holds one decides; a prompt that holds none
/// gets the neutral palette.
pub open spec fn palette_of(p: Seq<char>) -> Palette {
    if contains_text(p, "dark"@) || contains_text(p, "noir"@) || contains_text(p, "mörk"@)
        || contains_text(p, "svart"@) || contains_text(p, "black"@) {
        Palette::Dark
    } else if contains_text(p, "blå"@) || contains_text(p, "blue"@) || contains_text(p, "blått"@) {
        Palette::Blue
    } else if contains_text(p, "röd"@) || contains_text(p, "red"@) || contains_text(p, "rött"@) {
        Palette::Red
    } else if contains_text(p, "grön"@) || contains_text(p, "green"@) || contains_text(
        p,
        "grönt"@,
    ) {
        Palette::Green
    } else if contains_text(p, "warm"@) || contains_text(p, "orange"@) || contains_text(p, "sun"@)
        || contains_text(p, "gul"@) || contains_text(p, "yellow"@) {
        Palette::Warm
    } else if contains_text(p, "pastel"@) || contains_text(p, "soft"@) || contains_text(
        p,
        "ljus"@,
    ) || contains_text(p, "light"@) {
        Palette::Pastel
    } else if contains_text(p, "neon"@) || contains_text(p, "cyber"@) || contains_text(
        p,
        "stark"@,
    ) || contains_text(p, "bright"@) {
        Palette::Neon
    } else if contains_text(p, "grå"@) || contains_text(p, "gray"@) || contains_text(p, "grey"@)
        || contains_text(p, "grått"@) {
        Palette::Gray
    } else {
        Palette::Neutral
    }
}

/// The four colours of a palette as text: background, text, even rows, odd
/// rows, each as three numbers with commas between them.
pub open spec fn palette_texts(palette: Palette) -> (Seq<char>, Seq<char>, Seq<char>, Seq<char>) {
    match palette {
        Palette::Dark => ("20,20,20"@, "230,230,235"@, "30,30,30"@, "24,24,24"@),
        Palette::Blue => ("200,220,240"@, "10,20,40"@, "210,225,245"@, "205,222,242"@),
        Palette::Red => ("240,220,220"@, "80,20,20"@, "245,225,225"@, "242,222,222"@),
        Palette::Green => ("220,240,220"@, "20,60,20"@, "225,245,225"@, "222,242,222"@),
        Palette::Warm => ("255,247,237"@, "60,40,20"@, "255,238,210"@, "255,245,230"@),
        Palette::Pastel => ("250,250,255"@, "40,40,60"@, "245,245,255"@, "235,250,245"@),
        Palette::Neon => ("5,5,10"@, "200,255,220"@, "20,20,30"@, "10,10,20"@),
        Palette::Gray => ("180,180,180"@, "40,40,40"@, "190,190,190"@, "185,185,185"@),
        Palette::Neutral => ("230,235,240"@, "20,25,30"@, "240,242,245"@, "235,238,242"@),
    }
}

/// The number that one field of a colour denotes: the field is trimmed and
/// read as a decimal number up to 255; anything else counts as zero.
pub open spec fn channel(field: Seq<char>) -> u8 {
    match parse_decimal(narrow(trimmed(field)), 255) {
        Some(n) => n as u8,
        None => 0,
    }
}

/// The colour that a text denotes: three fields with commas between them,
/// or a light gray where the text has not exactly three fields.
pub open spec fn rgb_of(s: Seq<char>) -> (u8, u8, u8) {
    let parts = split(s, ',');
    if parts.len() == 3 {
        (channel(parts[0]), channel(parts[1]), channel(parts[2]))
    } else {
        (200u8, 200u8, 200u8)
    }
}

/// Tells whether a prompt holds a key word.
fn mentions(p: &[char], word: &str) -> (r: bool)
    ensures
        r == contains_text(p@, word@),
{
    let w = chars_of(word);
    contains(p, w.as_slice())
}

/// Tells which palette a prompt in lower case asks for.
pub fn palette_named(lower: &str) -> (palette: Palette)
    ensures
        palette == palette_of(lower@),
{
    let chars = chars_of(lower);
    let p = chars.as_slice();
    if mentions(p, "dark") || mentions(p, "noir") || mentions(p, "mörk") || mentions(p, "svart")
        || mentions(p, "black") {
        Palette::Dark
    } else if mentions(p, "blå") || mentions(p, "blue") || mentions(p, "blått") {
        Palette::Blue
    } else if mentions(p, "röd") || mentions(p, "red") || mentions(p, "rött") {
        Palette::Red
    } else if mentions(p, "grön") || mentions(p, "green") || mentions(p, "grönt") {
        Palette::Green
    } else if mentions(p, "warm") || mentions(p, "orange") || mentions(p, "sun") || mentions(
        p,
        "gul",
    ) || mentions(p, "yellow") {
        Palette::Warm
    } else if mentions(p, "pastel") || mentions(p, "soft") || mentions(p, "ljus") || mentions(
        p,
        "light",
    ) {
        Palette::Pastel
    } else if mentions(p, "neon") || mentions(p, "cyber") || mentions(p, "stark") || mentions(
        p,
        "bright",
    ) {
        Palette::Neon
    } else if mentions(p, "grå") || mentions(p, "gray") || mentions(p, "grey") || mentions(
        p,
        "grått",
    ) {
        Palette::Gray
    } else {
        Palette::Neutral
    }
}

/// The four colours of a palette as text.
pub fn palette_colors(palette: Palette) -> (r: (String, String, String, String))
    ensures
        (r.0@, r.1@, r.2@, r.3@) == palette_texts(palette),
{
    match palette {
        Palette::Dark => (
            String::from_str("20,20,20"),
            String::from_str("230,230,235"),
            String::from_str("30,30,30"),
            String::from_str("24,24,24"),
        ),
        Palette::Blue => (
            String::from_str("200,220,240"),
            String::from_str("10,20,40"),
            String::from_str("210,225,245"),
            String::from_str("205,222,242"),
        ),
        Palette::Red => (
            String::from_str("240,220,220"),
            String::from_str("80,20,20"),
            String::from_str("245,225,225"),
            String::from_str("242,222,222"),
        ),
        Palette::Green => (
            String::from_str("220,240,220"),
            String::from_str("20,60,20"),
            String::from_str("225,245,225"),
            String::from_str("222,242,222"),
        ),
        Palette::Warm => (
            String::from_str("255,247,237"),
            String::from_str("60,40,20"),
            String::from_str("255,238,210"),
            String::from_str("255,245,230"),
        ),
        Palette::Pastel => (
            String::from_str("250,250,255"),
            String::from_str("40,40,60"),
            String::from_str("245,245,255"),
            String::from_str("235,250,245"),
        ),
        Palette::Neon => (
            String::from_str("5,5,10"),
            String::from_str("200,255,220"),
            String::from_str("20,20,30"),
            String::from_str("10,10,20"),
        ),
        Palette::Gray => (
            String::from_str("180,180,180"),
            String::from_str("40,40,40"),
            String::from_str("190,190,190"),
            String::from_str("185,185,185"),
        ),
        Palette::Neutral => (
            String::from_str("230,235,240"),
            String::from_str("20,25,30"),
            String::from_str("240,242,245"),
            String::from_str("235,238,242"),
        ),
    }
}

/// Chooses the colours for a free-text prompt: background, text, even rows
/// and odd rows, each as text.
///
/// The prompt is taken in lower case, and the first group of key words of
/// which it holds one decides.
pub fn choose_palette(prompt: &str) -> (r: (String, String, String, String))
    ensures
        (r.0@, r.1@, r.2@, r.3@) == palette_texts(palette_of(lowercased(prompt@))),
{
    let lower = to_lower(prompt);
    palette_colors(palette_named(lower.as_str()))
}

/// Reads one field of a colour.
fn read_channel(field: &[char]) -> (n: u8)
    ensures
        n == channel(field@),
{
    let t = trim(field);
    let bytes = narrow_chars(t);
    match parse_u64(bytes.as_slice()) {
        Some(n) => if n <= 255 {
            n as u8
        } else {
            0
        },
        None => {
            proof {
                let body = crate::decimal::without_plus(bytes@);
                if body.len() > 0 && crate::decimal::all_digits(body) {
                    assert(crate::decimal::digits_value(body) > 255);
                }
            }
            0
        },
    }
}

/// Reads a colour from its text: three numbers with commas between them.
///
/// Each number may stand in white space; a field that is no number up to
/// 255 counts as zero. A text that has not exactly three fields gives the
/// light gray `(200, 200, 200)`.
pub fn parse_rgb(s: &str) -> (rgb: (u8, u8, u8))
    ensures
        rgb == rgb_of(s@),
{
    let chars = chars_of(s);
    let parts = split_chars(chars.as_slice(), ',');
    let ghost fields = split(s@, ',');
    assert(forall|k: int| 0 <= k < parts@.len() ==> parts@[k]@ == #[trigger] fields[k]);
    if parts.len() == 3 {
        let a = read_channel(parts[0].as_slice());
        let b = read_channel(parts[1].as_slice());
        let c = read_channel(parts[2].as_slice());
        (a, b, c)
    } else {
        (200, 200, 200)
    }
}

/// One line of a design file: a name and the three numbers of a colour.
pub open spec fn color_line(name: Seq<char>, rgb: (u8, u8, u8)) -> Seq<char> {
    name + ": ["@ + widen(decimal_text(rgb.0 as nat)) + ","@ + widen(decimal_text(rgb.1 as nat))
        + ","@ + widen(decimal_text(rgb.2 as nat)) + "]\n"@
}

/// The text of a design file: background, text colour, heading size, and
/// the colours of even and odd rows, one line each.
pub open spec fn design_text(
    bg: (u8, u8, u8),
    text: (u8, u8, u8),
    heading_size: Seq<char>,
    row_even: (u8, u8, u8),
    row_odd: (u8, u8, u8),
) -> Seq<char> {
    color_line("bg"@, bg) + color_line("text"@, text) + "heading_size: "@ + heading_size + "\n"@
        + color_line("row_even"@, row_even) + color_line("row_odd"@, row_odd)
}

/// Appends one line of a design file.
fn push_color_line(out: &mut String, name: &str, rgb: (u8, u8, u8))
    ensures
        final(out)@ == old(out)@ + color_line(name@, rgb),
{
    out.append(name);
    out.append(": [");
    push_decimal(out, rgb.0 as u64);
    out.append(",");
    push_decimal(out, rgb.1 as u64);
    out.append(",");
    push_decimal(out, rgb.2 as u64);
    out.append("]\n");
    assert(final(out)@ =~= old(out)@ + color_line(name@, rgb));
}

/// Writes the text of a design file. The heading size is given as text.
pub fn render_design(
    bg: (u8, u8, u8),
    text: (u8, u8, u8),
    heading_size: &str,
    row_even: (u8, u8, u8),
    row_odd: (u8, u8, u8),
) -> (out: String)
    ensures
        out@ == design_text(bg, text, heading_size@, row_even, row_odd),
{
    let mut out = String::new();
    push_color_line(&mut out, "bg", bg);
    push_color_line(&mut out, "text", text);
    out.append("heading_size: ");
    out.append(heading_size);
    out.append("\n");
    push_color_line(&mut out, "row_even", row_even);
    push_color_line(&mut out, "row_odd", row_odd);
    assert(out@ =~= design_text(bg, text, heading_size@, row_even, row_odd));
    out
}

/// The four colours that a free-text prompt asks for, as numbers.
pub open spec fn prompt_colors(prompt: Seq<char>) -> (
    (u8, u8, u8),
    (u8, u8, u8),
    (u8, u8, u8),
    (u8, u8, u8),
) {
    let texts = palette_texts(palette_of(lowercased(prompt)));
    (rgb_of(texts.0), rgb_of(texts.1), rgb_of(texts.2), rgb_of(texts.3))
}

/// Writes the design file for a free-text prompt: the colours of the
/// palette that the prompt asks for, under a heading size of 18.
pub fn generate_desig(prompt: &str) -> (out: String)
    ensures
        out@ == design_text(
            prompt_colors(prompt@).0,
            prompt_colors(prompt@).1,
            "18.0"@,
            prompt_colors(prompt@).2,
            prompt_colors(prompt@).3,
        ),
{
    let (bg, text, even, odd) = choose_palette(prompt);
    render_design(
        parse_rgb(bg.as_str()),
        parse_rgb(text.as_str()),
        "18.0",
        parse_rgb(even.as_str()),
        parse_rgb(odd.as_str()),
    )
}

} // verus!
