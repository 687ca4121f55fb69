use vstd::prelude::*;

verus! {

/// An RGB color with 8-bit channels.
#[derive(Clone, Copy, Debug, PartialEq, Eq, Structural)]
pub struct ColorObj {
    pub r: u8,
    pub g: u8,
    pub b: u8,
}

/// The color given to pixels that match the reference color: white.
pub open spec fn foreground() -> ColorObj {
    ColorObj { r: 255, g: 255, b: 255 }
}

/// The color given to pixels that do not match the reference color: black.
pub open spec fn background() -> ColorObj {
    ColorObj { r: 0, g: 0, b: 0 }
}

/// The color that marks a centroid in an annotated frame: green.
pub open spec fn marker() -> ColorObj {
    ColorObj { r: 0, g: 255, b: 0 }
}

/// Whether one channel value lies in `[reference - tol, reference + tol]`,
/// clamped to `0..=255`.
pub open spec fn channel_within(c: u8, reference: u8, tol: u8) -> bool {
    let lo: int = if tol > reference { 0 } else { reference - tol };
    let hi: int = if reference + tol > 255 { 255 } else { reference + tol };
    lo <= c && c <= hi
}

/// Whether every channel of `c` lies within `tol` of the same channel of `reference`.
pub open spec fn within_tolerance(c: ColorObj, reference: ColorObj, tol: u8) -> bool {
    channel_within(c.r, reference.r, tol) && channel_within(c.g, reference.g, tol)
        && channel_within(c.b, reference.b, tol)
}

impl ColorObj {
    pub fn new(r: u8, g: u8, b: u8) -> (res: ColorObj)
        ensures
            res == (ColorObj { r, g, b }),
    {
        ColorObj { r, g, b }
    }

    /// A field-by-field duplicate of this color.
    pub fn copy(&self) -> (res: ColorObj)
        ensures
            res == *self,
    {
        ColorObj { r: self.r, g: self.g, b: self.b }
    }
}

/// White, the foreground color of a mask frame.
pub fn foreground_color() -> (res: ColorObj)
    ensures
        res == foreground(),
{
    ColorObj { r: 255, g: 255, b: 255 }
}

/// Black, the background color of a mask frame.
pub fn background_color() -> (res: ColorObj)
    ensures
        res == background(),
{
    ColorObj { r: 0, g: 0, b: 0 }
}

/// Green, the color that marks a centroid.
pub fn marker_color() -> (res: ColorObj)
    ensures
        res == marker(),
{
    ColorObj { r: 0, g: 255, b: 0 }
}

fn channel_matches(c: u8, reference: u8, tol: u8) -> (res: bool)
    ensures
        res == channel_within(c, reference, tol),
{
    let hi: u8 = if 255 - tol < reference { 255 } else { reference + tol };
    let lo: u8 = if tol > reference { 0 } else { reference - tol };
    lo <= c && c <= hi
}

/// Classifies `c` as foreground (`true`) when each of its channels lies within
/// `tol` of the reference color's channel, with the window clamped to `0..=255`.
pub fn classify(c: ColorObj, reference: ColorObj, tol: u8) -> (res: bool)
    ensures
        res == within_tolerance(c, reference, tol),
{
    channel_matches(c.r, reference.r, tol) && channel_matches(c.g, reference.g, tol)
        && channel_matches(c.b, reference.b, tol)
}

/// The reference color is always classified as foreground, whatever the tolerance.
pub proof fn lemma_reference_is_foreground(reference: ColorObj, tol: u8)
    ensures
        within_tolerance(reference, reference, tol),
{
}

} // verus!
