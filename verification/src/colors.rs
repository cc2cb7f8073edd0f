//! Colors, and the texts that stand for them.
use crossterm::style::Color as TermColor;

use vstd::prelude::*;
use vstd::slice::slice_subrange;

use crate::numbers::hex_digit;
use crate::text::{chars_of, text_of};

verus! {

/// A color of the terminal.
#[derive(Clone, Copy, Debug, PartialEq, Eq, Structural)]
pub enum Color {
    Reset,
    Black,
    DarkGrey,
    Red,
    DarkRed,
    Green,
    DarkGreen,
    Yellow,
    DarkYellow,
    Blue,
    DarkBlue,
    Magenta,
    DarkMagenta,
    Cyan,
    DarkCyan,
    White,
    Grey,
    Rgb { r: u8, g: u8, b: u8 },
    AnsiValue(u8),
}

/// What is wrong with a text that is to stand for a color.
#[derive(Clone, Copy, Debug, PartialEq, Eq, Structural)]
pub enum ColorError {
    /// There is no text.
    Empty,
    /// There are not three numbers after the `#`.
    Hex,
    /// The terminal has no color of the name after the `@`.
    Terminal,
    /// The palette has no color of the name.
    Palette,
}

impl ColorError {
    /// What is wrong with the text `name`, in words.
    pub open spec fn message(self, name: Seq<char>) -> Seq<char> {
        match self {
            ColorError::Empty => "Empty string"@,
            ColorError::Hex => "Could not parse 3 hex values from string"@,
            ColorError::Terminal => "Could not convert color name "@ + name
                + " to Crossterm color"@,
            ColorError::Palette => "No such color in palette"@,
        }
    }

    /// What is wrong with the text `name`, in words.
    pub fn text(&self, name: &str) -> (out: String)
        ensures
            out@ == self.message(name@),
    {
        match self {
            ColorError::Empty => "Empty string".to_owned(),
            ColorError::Hex => "Could not parse 3 hex values from string".to_owned(),
            ColorError::Terminal => {
                let mut out = "Could not convert color name ".to_owned();
                out.append(name);
                out.append(" to Crossterm color");
                out
            },
            ColorError::Palette => "No such color in palette".to_owned(),
        }
    }
}

/// The color of the terminal that has a name.
pub open spec fn terminal_color(name: Seq<char>) -> Option<Color> {
    if name == "reset"@ {
        Some(Color::Reset)
    } else if name == "black"@ {
        Some(Color::Black)
    } else if name == "dark_grey"@ {
        Some(Color::DarkGrey)
    } else if name == "red"@ {
        Some(Color::Red)
    } else if name == "dark_red"@ {
        Some(Color::DarkRed)
    } else if name == "green"@ {
        Some(Color::Green)
    } else if name == "dark_green"@ {
        Some(Color::DarkGreen)
    } else if name == "yellow"@ {
        Some(Color::Yellow)
    } else if name == "dark_yellow"@ {
        Some(Color::DarkYellow)
    } else if name == "blue"@ {
        Some(Color::Blue)
    } else if name == "dark_blue"@ {
        Some(Color::DarkBlue)
    } else if name == "magenta"@ {
        Some(Color::Magenta)
    } else if name == "dark_magenta"@ {
        Some(Color::DarkMagenta)
    } else if name == "cyan"@ {
        Some(Color::Cyan)
    } else if name == "dark_cyan"@ {
        Some(Color::DarkCyan)
    } else if name == "white"@ {
        Some(Color::White)
    } else if name == "grey"@ {
        Some(Color::Grey)
    } else {
        None
    }
}

/// What `serde_json::from_str` reads from a text as a `crossterm::style::Color`.
pub uninterp spec fn json_color(json: Seq<char>) -> Option<Color>;

/// What stands between the quotes around a text.
pub open spec fn unquoted(json: Seq<char>) -> Option<Seq<char>> {
    if json.len() >= 2 && json[0] == '"' && json.last() == '"' {
        Some(json.subrange(1, json.len() - 1))
    } else {
        None
    }
}

/// The color that a JSON text stands for: that of the name in quotes, where there is one.
pub open spec fn color_of_json(json: Seq<char>) -> Option<Color> {
    match unquoted(json) {
        Some(name) => match terminal_color(name) {
            Some(color) => Some(color),
            None => json_color(json),
        },
        None => json_color(json),
    }
}

/// `serde_json::from_str` for `crossterm::style::Color`. It depends on the text alone; the name
/// of a color in quotes gives that color. Which other texts it takes, and as what color, is left
/// to the two crates.
#[verifier::external_body]
pub(crate) fn color_from_json(json: &str) -> (out: Option<Color>)
    ensures
        out == json_color(json@),
        out == color_of_json(json@),
{
    let color: TermColor = serde_json::from_str(json).ok()?;
    Some(match color {
        TermColor::Reset => Color::Reset, TermColor::Black => Color::Black,
        TermColor::DarkGrey => Color::DarkGrey, TermColor::Red => Color::Red,
        TermColor::DarkRed => Color::DarkRed, TermColor::Green => Color::Green,
        TermColor::DarkGreen => Color::DarkGreen, TermColor::Yellow => Color::Yellow,
        TermColor::DarkYellow => Color::DarkYellow, TermColor::Blue => Color::Blue,
        TermColor::DarkBlue => Color::DarkBlue, TermColor::Magenta => Color::Magenta,
        TermColor::DarkMagenta => Color::DarkMagenta, TermColor::Cyan => Color::Cyan,
        TermColor::DarkCyan => Color::DarkCyan, TermColor::White => Color::White,
        TermColor::Grey => Color::Grey, TermColor::Rgb { r, g, b } => Color::Rgb { r, g, b },
        TermColor::AnsiValue(n) => Color::AnsiValue(n),
    })
}

/// What `palette::named::from_str` has under a name, in red, green and blue.
pub uninterp spec fn palette_entry(name: Seq<char>) -> Option<(u8, u8, u8)>;

/// The color that the palette has under a name, in red, green and blue.
pub open spec fn palette_color(name: Seq<char>) -> Option<(u8, u8, u8)> {
    if name == "saddlebrown"@ {
        Some((139u8, 69u8, 19u8))
    } else if name == "darkorange"@ {
        Some((255u8, 140u8, 0u8))
    } else if name == "gold"@ {
        Some((255u8, 215u8, 0u8))
    } else if name == "brown"@ {
        Some((165u8, 42u8, 42u8))
    } else if name == "yellowgreen"@ {
        Some((154u8, 205u8, 50u8))
    } else if name == "cyan"@ {
        Some((0u8, 255u8, 255u8))
    } else if name == "turquoise"@ {
        Some((64u8, 224u8, 208u8))
    } else if name == "steelblue"@ {
        Some((70u8, 130u8, 180u8))
    } else if name == "lightsteelblue"@ {
        Some((176u8, 196u8, 222u8))
    } else if name == "teal"@ {
        Some((0u8, 128u8, 128u8))
    } else {
        palette_entry(name)
    }
}

/// `palette::named::from_str`: the color of SVG and CSS of a name in lower case. It depends on
/// the name alone; the colors that the themes of this library name are stated.
#[verifier::external_body]
pub(crate) fn color_from_palette(name: &str) -> (out: Option<(u8, u8, u8)>)
    ensures
        out == palette_entry(name@),
        out == palette_color(name@),
{
    palette::named::from_str(name).map(|c| (c.red, c.green, c.blue))
}

/// The number that one or two characters stand for: two hexadecimal digits, or one with a `+`
/// before it or not.
pub open spec fn hex_pair(s: Seq<char>) -> Option<u8> {
    if s.len() == 1 {
        hex_digit(s[0])
    } else {
        match (hex_digit(s[0]), hex_digit(s[1])) {
            (Some(a), Some(b)) => Some((a * 16 + b) as u8),
            (None, Some(b)) => if s[0] == '+' {
                Some(b)
            } else {
                None
            },
            _ => None,
        }
    }
}

/// The numbers that the pairs of characters of a text stand for; a pair that stands for none is
/// left out, and the last character may stand alone.
pub open spec fn hex_values(s: Seq<char>) -> Seq<u8>
    decreases s.len(),
{
    if s.len() == 0 {
        Seq::empty()
    } else {
        let n = if s.len() == 1 {
            1int
        } else {
            2int
        };
        let rest = hex_values(s.skip(n));
        match hex_pair(s.take(n)) {
            Some(v) => seq![v] + rest,
            None => rest,
        }
    }
}

/// The color that a text stands for, where `term` is what the terminal has under the name after
/// an `@` and `named` is what the palette has under the text: red, green and blue in hexadecimal
/// after a `#`, a color of the terminal after an `@`, and else a color of the palette.
pub open spec fn color_given(
    text: Seq<char>,
    term: Option<Color>,
    named: Option<(u8, u8, u8)>,
) -> Result<Color, ColorError> {
    if text.len() == 0 {
        Err(ColorError::Empty)
    } else if text[0] == '#' {
        let values = hex_values(text.skip(1));
        if values.len() == 3 {
            Ok(Color::Rgb { r: values[0], g: values[1], b: values[2] })
        } else {
            Err(ColorError::Hex)
        }
    } else if text[0] == '@' {
        match term {
            Some(color) => Ok(color),
            None => Err(ColorError::Terminal),
        }
    } else {
        match named {
            Some((r, g, b)) => Ok(Color::Rgb { r, g, b }),
            None => Err(ColorError::Palette),
        }
    }
}

/// The name after the `@` of a text as a JSON text.
pub open spec fn quoted_name(text: Seq<char>) -> Seq<char> {
    seq!['"'] + text.skip(1) + seq!['"']
}

/// The color that a text stands for.
pub open spec fn color_value(text: Seq<char>) -> Result<Color, ColorError> {
    color_given(text, color_of_json(quoted_name(text)), palette_color(text))
}

fn hex_digit_value(c: char) -> (out: Option<u8>)
    ensures
        out == hex_digit(c),
        out matches Some(v) ==> v < 16,
{
    if '0' <= c && c <= '9' {
        Some(c as u8 - 48u8)
    } else if 'a' <= c && c <= 'f' {
        Some(c as u8 - 87u8)
    } else if 'A' <= c && c <= 'F' {
        Some(c as u8 - 55u8)
    } else {
        None
    }
}

fn hex_pair_value(s: &[char]) -> (out: Option<u8>)
    requires
        1 <= s.len() <= 2,
    ensures
        out == hex_pair(s@),
{
    if s.len() == 1 {
        hex_digit_value(s[0])
    } else {
        match (hex_digit_value(s[0]), hex_digit_value(s[1])) {
            (Some(a), Some(b)) => Some(a * 16 + b),
            (None, Some(b)) => if s[0] == '+' {
                Some(b)
            } else {
                None
            },
            _ => None,
        }
    }
}

fn parse_hex_values(s: &[char]) -> (out: Vec<u8>)
    ensures
        out@ == hex_values(s@),
{
    let mut out: Vec<u8> = Vec::new();
    let mut rest = s;
    assert(out@ + hex_values(rest@) =~= hex_values(s@));
    while rest.len() > 0
        invariant
            out@ + hex_values(rest@) == hex_values(s@),
        decreases rest.len(),
    {
        let n: usize = if rest.len() == 1 {
            1
        } else {
            2
        };
        let ghost here = rest@;
        let ghost before = out@;
        let pair = slice_subrange(rest, 0, n);
        assert(pair@ =~= here.take(n as int));
        let value = hex_pair_value(pair);
        let len: usize = rest.len();
        rest = slice_subrange(rest, n, len);
        assert(rest@ =~= here.skip(n as int));
        if let Some(v) = value {
            out.push(v);
        }
        assert(out@ + hex_values(rest@) =~= before + hex_values(here));
    }
    assert(out@ =~= hex_values(s@));
    out
}

/// The color that a text stands for, where `term` is what the terminal has under the name after
/// an `@` and `named` is what the palette has under the text.
pub fn color_from_parts(
    text: &str,
    term: Option<Color>,
    named: Option<(u8, u8, u8)>,
) -> (out: Result<Color, ColorError>)
    ensures
        out == color_given(text@, term, named),
{
    let chars = chars_of(text);
    if chars.len() == 0 {
        return Err(ColorError::Empty);
    }
    if chars[0] == '#' {
        let rest = slice_subrange(chars.as_slice(), 1, chars.len());
        assert(rest@ =~= text@.skip(1));
        let values = parse_hex_values(rest);
        if values.len() != 3 {
            return Err(ColorError::Hex);
        }
        Ok(Color::Rgb { r: values[0], g: values[1], b: values[2] })
    } else if chars[0] == '@' {
        match term {
            Some(color) => Ok(color),
            None => Err(ColorError::Terminal),
        }
    } else {
        match named {
            Some((r, g, b)) => Ok(Color::Rgb { r, g, b }),
            None => Err(ColorError::Palette),
        }
    }
}

/// The color that a text stands for: `#` with red, green and blue in hexadecimal, `@` with the
/// name of a color of the terminal, or the name of a color of the palette.
pub fn from_string(name: &str) -> (out: Result<Color, ColorError>)
    ensures
        out == color_value(name@),
        name@.len() > 0 && name@[0] == '@' && terminal_color(name@.skip(1)) is Some ==> out == Ok::<
            Color,
            ColorError,
        >(terminal_color(name@.skip(1)).unwrap()),
{
    let chars = chars_of(name);
    let term: Option<Color> = if chars.len() > 0 && chars[0] == '@' {
        let mut json: Vec<char> = Vec::new();
        json.push('"');
        let mut i: usize = 1;
        while i < chars.len()
            invariant
                1 <= i <= chars.len(),
                chars@ == name@,
                json@ == seq!['"'] + name@.subrange(1, i as int),
            decreases chars.len() - i,
        {
            json.push(chars[i]);
            i = i + 1;
            assert(json@ =~= seq!['"'] + name@.subrange(1, i as int));
        }
        json.push('"');
        assert(json@ =~= quoted_name(name@));
        let text = text_of(json.as_slice());
        assert(text@.subrange(1, text@.len() - 1) =~= name@.skip(1));
        color_from_json(text.as_str())
    } else {
        None
    };
    let named: Option<(u8, u8, u8)> = if chars.len() > 0 && chars[0] != '@' && chars[0] != '#' {
        color_from_palette(name)
    } else {
        None
    };
    color_from_parts(name, term, named)
}

/// The hexadecimal digit of a number below sixteen.
pub open spec fn hex_char(n: int) -> char {
    if n < 10 {
        ('0' as int + n) as char
    } else {
        ('a' as int + n - 10) as char
    }
}

/// A number as two hexadecimal digits.
pub open spec fn hex_text(n: u8) -> Seq<char> {
    seq![hex_char(n as int / 16), hex_char(n as int % 16)]
}

/// A `#` and the two hexadecimal digits of red, green and blue each stand for that color.
pub proof fn law_hex_color(r: u8, g: u8, b: u8)
    ensures
        color_value(seq!['#'] + hex_text(r) + hex_text(g) + hex_text(b)) == Ok::<Color, ColorError>(
            Color::Rgb { r, g, b },
        ),
{
    let text = seq!['#'] + hex_text(r) + hex_text(g) + hex_text(b);
    let s = text.skip(1);
    assert(s =~= hex_text(r) + hex_text(g) + hex_text(b));
    lemma_hex_text(r);
    lemma_hex_text(g);
    lemma_hex_text(b);
    assert(s.take(2) =~= hex_text(r));
    let s2 = s.skip(2);
    assert(s2.take(2) =~= hex_text(g));
    let s3 = s2.skip(2);
    assert(s3.take(2) =~= hex_text(b));
    let s4 = s3.skip(2);
    assert(s4.len() == 0);
    assert(hex_values(s4) =~= Seq::empty());
    assert(hex_values(s3) =~= seq![b]);
    assert(hex_values(s2) =~= seq![g, b]);
    assert(hex_values(s) =~= seq![r, g, b]);
}

proof fn lemma_hex_text(n: u8)
    ensures
        hex_pair(hex_text(n)) == Some(n),
{
    let a = n as int / 16;
    let b = n as int % 16;
    assert(hex_digit(hex_char(a)) == Some(a as u8));
    assert(hex_digit(hex_char(b)) == Some(b as u8));
    assert(n == a * 16 + b);
}

/// A digit from `0` to `9` stands for itself in hexadecimal, and a letter from `a` to `f`, in
/// either case, for ten to fifteen; nothing else is a digit.
pub proof fn law_hex_digit(c: char)
    ensures
        hex_digit(c) == (if 48 <= c as int <= 57 {
            Some((c as int - 48) as u8)
        } else if 97 <= c as int <= 102 {
            Some((c as int - 87) as u8)
        } else if 65 <= c as int <= 70 {
            Some((c as int - 55) as u8)
        } else {
            None
        }),
{
}

/// A text that does not start with `#` stands for a color of the terminal where it starts with
/// `@`, by the name behind that, and else for a color of the palette, by the text itself; it
/// stands for none where there is no such color, and neither does a text of nothing.
pub proof fn law_named_color(name: Seq<char>)
    ensures
        color_value(seq!['@'] + name) == (match color_of_json(seq!['"'] + name + seq!['"']) {
            Some(color) => Ok::<Color, ColorError>(color),
            None => Err(ColorError::Terminal),
        }),
        name.len() > 0 && name[0] != '#' && name[0] != '@' ==> color_value(name) == (
        match palette_color(name) {
            Some((r, g, b)) => Ok::<Color, ColorError>(Color::Rgb { r, g, b }),
            None => Err(ColorError::Palette),
        }),
        color_value(Seq::empty()) == Err::<Color, ColorError>(ColorError::Empty),
{
    let text = seq!['@'] + name;
    assert(text[0] == '@');
    assert(text.skip(1) =~= name);
}

} // verus!
