//! Colours: as a ruleset writes them, and as a cell shows them.

use vstd::prelude::*;
use crate::text::Source;

verus! {

/// A colour as four bytes: red, green, blue and opacity.
#[derive(Clone, Copy, Debug, PartialEq, Eq, Structural)]
pub struct Rgba {
    pub r: u8,
    pub g: u8,
    pub b: u8,
    pub a: u8,
}

/// A colour as a ruleset writes it: four bytes, or the text `#RRGGBBAA`.
#[derive(Debug, PartialEq)]
pub enum RulesetColour {
    Rgba(u8, u8, u8, u8),
    Hex(String),
}

/// What a `RulesetColour` holds.
pub ghost enum ColourView {
    Rgba(u8, u8, u8, u8),
    Hex(Seq<char>),
}

/// The value of a hexadecimal digit, in either case.
pub open spec fn hex_digit(c: char) -> Option<int> {
    let u = c as u32 as int;
    if 0x30 <= u <= 0x39 {
        Some(u - 0x30)
    } else if 0x41 <= u <= 0x46 {
        Some(u - 0x41 + 10)
    } else if 0x61 <= u <= 0x66 {
        Some(u - 0x61 + 10)
    } else {
        None
    }
}

/// The text is `#` and eight hexadecimal digits.
pub open spec fn is_hex_colour(s: Seq<char>) -> bool {
    &&& s.len() == 9
    &&& s[0] == '#'
    &&& forall|i: int| 1 <= i < 9 ==> (#[trigger] hex_digit(s[i])) is Some
}

/// The byte that the two digits at positions `i` and `i + 1` write.
pub open spec fn hex_byte(s: Seq<char>, i: int) -> int {
    16 * hex_digit(s[i]).unwrap() + hex_digit(s[i + 1]).unwrap()
}

/// The colour that the text `#RRGGBBAA` writes.
pub open spec fn hex_colour(s: Seq<char>) -> Rgba {
    Rgba {
        r: hex_byte(s, 1) as u8,
        g: hex_byte(s, 3) as u8,
        b: hex_byte(s, 5) as u8,
        a: hex_byte(s, 7) as u8,
    }
}

/// Black with no opacity: what a text that writes no colour is shown as.
pub open spec fn transparent() -> Rgba {
    Rgba { r: 0, g: 0, b: 0, a: 0 }
}

impl ColourView {
    /// The colour is four bytes, or a text that writes a colour.
    pub open spec fn is_resolvable(self) -> bool {
        match self {
            ColourView::Rgba(_, _, _, _) => true,
            ColourView::Hex(s) => is_hex_colour(s),
        }
    }

    /// The colour written, if there is one.
    pub open spec fn resolve(self) -> Option<Rgba> {
        match self {
            ColourView::Rgba(r, g, b, a) => Some(Rgba { r, g, b, a }),
            ColourView::Hex(s) => if is_hex_colour(s) {
                Some(hex_colour(s))
            } else {
                None
            },
        }
    }

    /// The colour shown: the colour written, or transparent black.
    pub open spec fn rgba(self) -> Rgba {
        match self.resolve() {
            Some(c) => c,
            None => transparent(),
        }
    }
}

impl View for RulesetColour {
    type V = ColourView;

    open spec fn view(&self) -> ColourView {
        match self {
            RulesetColour::Rgba(r, g, b, a) => ColourView::Rgba(*r, *g, *b, *a),
            RulesetColour::Hex(s) => ColourView::Hex(s@),
        }
    }
}

impl Clone for RulesetColour {
    fn clone(&self) -> (copy: Self)
        ensures
            copy@ == self@,
    {
        match self {
            RulesetColour::Rgba(r, g, b, a) => RulesetColour::Rgba(*r, *g, *b, *a),
            RulesetColour::Hex(s) => RulesetColour::Hex(s.clone()),
        }
    }
}

/// Reads one hexadecimal digit.
fn read_hex_digit(c: char) -> (value: Option<u8>)
    ensures
        match hex_digit(c) {
            Some(v) => value == Some(v as u8) && 0 <= v < 16,
            None => value is None,
        },
{
    let u: u32 = c as u32;
    if 0x30 <= u && u <= 0x39 {
        Some((u - 0x30) as u8)
    } else if 0x41 <= u && u <= 0x46 {
        Some((u - 0x41 + 10) as u8)
    } else if 0x61 <= u && u <= 0x66 {
        Some((u - 0x61 + 10) as u8)
    } else {
        None
    }
}

/// Reads the two digits at positions `i` and `i + 1`.
fn read_hex_byte(source: &Source, i: usize) -> (value: Option<u8>)
    requires
        source@.len() == 9,
        i + 1 < 9,
    ensures
        match value {
            Some(v) => hex_digit(source@[i as int]) is Some && hex_digit(source@[i + 1]) is Some
                && v == hex_byte(source@, i as int),
            None => hex_digit(source@[i as int]) is None || hex_digit(source@[i + 1]) is None,
        },
{
    match read_hex_digit(source.at(i)) {
        Some(high) => match read_hex_digit(source.at(i + 1)) {
            Some(low) => Some(16 * high + low),
            None => None,
        },
        None => None,
    }
}

/// Reads the text `#RRGGBBAA`.
fn read_hex_colour(text: &str) -> (colour: Option<Rgba>)
    ensures
        colour == (ColourView::Hex(text@)).resolve(),
{
    let source = Source::new(text);
    if source.len() != 9 || source.at(0) != '#' {
        return None;
    }
    let r = read_hex_byte(&source, 1);
    let g = read_hex_byte(&source, 3);
    let b = read_hex_byte(&source, 5);
    let a = read_hex_byte(&source, 7);
    match (r, g, b, a) {
        (Some(r), Some(g), Some(b), Some(a)) => {
            assert(is_hex_colour(text@)) by {
                assert forall|i: int| 1 <= i < 9 implies (#[trigger] hex_digit(text@[i])) is Some by {
                    if i == 1 || i == 3 || i == 5 || i == 7 {
                    } else {
                        assert(i == 2 || i == 4 || i == 6 || i == 8);
                    }
                }
            }
            Some(Rgba { r, g, b, a })
        },
        _ => {
            assert(!is_hex_colour(text@)) by {
                if is_hex_colour(text@) {
                    assert(hex_digit(text@[1]) is Some);
                    assert(hex_digit(text@[2]) is Some);
                    assert(hex_digit(text@[3]) is Some);
                    assert(hex_digit(text@[4]) is Some);
                    assert(hex_digit(text@[5]) is Some);
                    assert(hex_digit(text@[6]) is Some);
                    assert(hex_digit(text@[7]) is Some);
                    assert(hex_digit(text@[8]) is Some);
                }
            }
            None
        },
    }
}

impl RulesetColour {
    /// The colour written, or `None` where a text writes none.
    pub fn resolve(&self) -> (colour: Option<Rgba>)
        ensures
            colour == self@.resolve(),
    {
        match self {
            RulesetColour::Rgba(r, g, b, a) => Some(Rgba { r: *r, g: *g, b: *b, a: *a }),
            RulesetColour::Hex(s) => read_hex_colour(s.as_str()),
        }
    }

    /// Whether the colour is four bytes or a text that writes a colour.
    pub fn is_resolvable(&self) -> (yes: bool)
        ensures
            yes == self@.is_resolvable(),
    {
        self.resolve().is_some()
    }

    /// The colour shown: the colour written, or transparent black where a
    /// text writes none.
    pub fn rgba(&self) -> (colour: Rgba)
        ensures
            colour == self@.rgba(),
    {
        match self.resolve() {
            Some(colour) => colour,
            None => Rgba { r: 0, g: 0, b: 0, a: 0 },
        }
    }
}

} // verus!
