//! Colors, stroke and font descriptions, and their attribute texts.

use vstd::prelude::*;
use crate::text::{decimal, digit, push_decimal};

verus! {

/// A color with its opacity in thousandths: 0 is invisible, 1000 or more opaque.
#[derive(Clone, Copy, Debug, PartialEq, Eq, Structural)]
pub struct Rgba {
    pub r: u8,
    pub g: u8,
    pub b: u8,
    pub alpha: u16,
}

/// How a shape is stroked or filled.
#[derive(Clone, Copy, Debug, PartialEq, Eq, Structural)]
pub struct ShapeStyle {
    pub color: Rgba,
    pub stroke_width: u32,
}

/// Horizontal placement of a text against its anchor point.
#[derive(Clone, Copy, Debug, PartialEq, Eq, Structural)]
pub enum HPos {
    Left,
    Right,
    Center,
}

/// Vertical placement of a text against its anchor point.
#[derive(Clone, Copy, Debug, PartialEq, Eq, Structural)]
pub enum VPos {
    Top,
    Center,
    Bottom,
}

#[derive(Clone, Copy, Debug, PartialEq, Eq, Structural)]
pub enum FontStyle {
    Normal,
    Oblique,
    Italic,
    Bold,
}

/// Clockwise rotation of a text about its anchor point.
#[derive(Clone, Copy, Debug, PartialEq, Eq, Structural)]
pub enum FontTransform {
    Upright,
    Rotate90,
    Rotate180,
    Rotate270,
}

/// Everything that decides how a text is drawn.
pub struct TextStyle {
    pub family: String,
    /// Font size in hundredths of a point.
    pub size: u32,
    pub style: FontStyle,
    pub transform: FontTransform,
    pub color: Rgba,
    pub h_pos: HPos,
    pub v_pos: VPos,
}

/// Opacity in decimal notation: `0`, `1`, or `0.` and up to three digits with no
/// trailing zero.
pub open spec fn opacity_text(m: nat) -> Seq<char> {
    if m == 0 {
        seq!['0']
    } else if m >= 1000 {
        seq!['1']
    } else {
        let d1 = m / 100;
        let d2 = (m / 10) % 10;
        let d3 = m % 10;
        seq!['0', '.'] + if d3 != 0 {
            seq![digit(d1), digit(d2), digit(d3)]
        } else if d2 != 0 {
            seq![digit(d1), digit(d2)]
        } else {
            seq![digit(d1)]
        }
    }
}

/// Opacity in decimal notation.
pub fn opacity_string(m: u16) -> (r: String)
    ensures
        r@ == opacity_text(m as nat),
{
    let mut s = String::new();
    if m == 0 {
        push_decimal(&mut s, 0);
        assert(decimal(0) == seq![digit(0)]);
    } else if m >= 1000 {
        push_decimal(&mut s, 1);
        assert(decimal(1) == seq![digit(1)]);
    } else {
        push_decimal(&mut s, 0);
        s.append(".");
        proof {
            reveal_strlit(".");
        }
        let d1 = (m / 100) as u64;
        let d2 = ((m / 10) % 10) as u64;
        let d3 = (m % 10) as u64;
        push_decimal(&mut s, d1);
        assert(decimal(d1 as nat) == seq![digit(d1 as nat)]);
        if d3 != 0 || d2 != 0 {
            push_decimal(&mut s, d2);
            assert(decimal(d2 as nat) == seq![digit(d2 as nat)]);
        }
        if d3 != 0 {
            push_decimal(&mut s, d3);
            assert(decimal(d3 as nat) == seq![digit(d3 as nat)]);
        }
        assert(decimal(0) == seq![digit(0)]);
    }
    assert(s@ =~= opacity_text(m as nat));
    s
}

/// The font size as drawn, from hundredths of a point: divided by 1.24, still in
/// hundredths, rounded down.
pub open spec fn scaled_size(size: nat) -> nat {
    size * 100 / 124
}

/// The scaled font size with two decimals.
pub open spec fn font_size_text(size: nat) -> Seq<char> {
    let h = scaled_size(size);
    decimal(h / 100) + seq!['.', digit((h / 10) % 10), digit(h % 10)]
}

pub fn font_size_string(size: u32) -> (r: String)
    ensures
        r@ == font_size_text(size as nat),
{
    let h: u64 = (size as u64) * 100 / 124;
    let mut s = String::new();
    push_decimal(&mut s, h / 100);
    s.append(".");
    proof {
        reveal_strlit(".");
    }
    push_decimal(&mut s, (h / 10) % 10);
    push_decimal(&mut s, h % 10);
    assert(decimal(((h / 10) % 10) as nat) == seq![digit(((h / 10) % 10) as nat)]);
    assert(decimal((h % 10) as nat) == seq![digit((h % 10) as nat)]);
    assert(s@ =~= font_size_text(size as nat));
    s
}

} // verus!
