//! The colours of what is drawn, as red, green and blue.

use vstd::prelude::*;

verus! {

/// A part of a colour as it is shown on a bright ground: a little more than half of it, rounded.
pub open spec fn dimmed(c: u8) -> int {
    (c * 55 + 50) / 100
}

fn dim(c: u8) -> (r: u8)
    ensures
        r == dimmed(c),
{
    ((c as u32 * 55 + 50) / 100) as u8
}

/// A colour that was made for a dark ground. On a bright one it is dimmed, so that it can be read.
pub fn ink(dark: bool, color: (u8, u8, u8)) -> (r: (u8, u8, u8))
    ensures
        dark ==> r == color,
        !dark ==> r.0 == dimmed(color.0) && r.1 == dimmed(color.1) && r.2 == dimmed(color.2),
{
    if dark {
        color
    } else {
        (dim(color.0), dim(color.1), dim(color.2))
    }
}

/// The colours of a chart.
#[derive(Clone, Copy, Debug)]
pub struct Palette {
    pub grid: u8,
    pub axis: u8,
    pub text: u8,
    pub files: (u8, u8, u8),
    pub revs: (u8, u8, u8),
}

/// The colours of a chart. The first three are shades of gray.
pub fn palette(dark: bool) -> (r: Palette)
    ensures
        dark ==> r == (Palette {
            grid: 58,
            axis: 105,
            text: 165,
            files: (90u8, 160u8, 240u8),
            revs: (240u8, 175u8, 70u8),
        }),
        !dark ==> r == (Palette {
            grid: 222,
            axis: 165,
            text: 95,
            files: (50u8, 88u8, 132u8),
            revs: (132u8, 96u8, 39u8),
        }),
{
    let files = ink(dark, (90, 160, 240));
    let revs = ink(dark, (240, 175, 70));
    if dark {
        Palette { grid: 58, axis: 105, text: 165, files, revs }
    } else {
        Palette { grid: 222, axis: 165, text: 95, files, revs }
    }
}

/// The number that step `step` of the scale of a heat map stands for.
pub fn scale_value(max: usize, step: usize) -> (r: usize)
    requires
        step <= 4,
    ensures
        r == max * step / 4,
{
    assert(max * step <= 4 * max) by (nonlinear_arith)
        requires
            step <= 4,
            max >= 0,
    ;
    let v: u128 = (max as u128 * step as u128) / 4;
    v as usize
}

/// Colours stay ordered when they are dimmed, and no part of one grows.
pub proof fn law_dimming_keeps_order(a: u8, b: u8)
    requires
        a <= b,
    ensures
        dimmed(a) <= dimmed(b),
        dimmed(b) <= b,
{
}

} // verus!
