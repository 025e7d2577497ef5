//! Color palette.
use vstd::prelude::*;

verus! {

/// An 8-bit RGBA color, as used for pixels and tile blend colors.
#[derive(Clone, Copy, Debug, PartialEq, Eq, Structural)]
pub struct Color {
    pub red: u8,
    pub green: u8,
    pub blue: u8,
    pub alpha: u8,
}

impl Color {
    /// Returns the color with the given channels.
    pub fn new(red: u8, green: u8, blue: u8, alpha: u8) -> (r: Color)
        ensures
            r == (Color { red, green, blue, alpha }),
    {
        Color { red, green, blue, alpha }
    }
}

/// "Default" color, typically only meaningful for blend masks.
pub open spec fn spec_default_color() -> Color {
    Color { red: 255, green: 255, blue: 255, alpha: 255 }
}

/// "Default" color, typically only meaningful for blend masks.
#[verifier::when_used_as_spec(spec_default_color)]
pub fn default_color() -> (r: Color)
    ensures
        r == spec_default_color(),
{
    Color { red: 255, green: 255, blue: 255, alpha: 255 }
}

/// Primary accent: objectives.
pub open spec fn spec_accent_1() -> Color {
    Color { red: 228, green: 140, blue: 53, alpha: 255 }
}

/// Primary accent: objectives.
#[verifier::when_used_as_spec(spec_accent_1)]
pub fn accent_1() -> (r: Color)
    ensures
        r == spec_accent_1(),
{
    Color { red: 228, green: 140, blue: 53, alpha: 255 }
}

/// Secondary accent: threats.
pub open spec fn spec_accent_2() -> Color {
    Color { red: 81, green: 156, blue: 160, alpha: 255 }
}

/// Secondary accent: threats.
#[verifier::when_used_as_spec(spec_accent_2)]
pub fn accent_2() -> (r: Color)
    ensures
        r == spec_accent_2(),
{
    Color { red: 81, green: 156, blue: 160, alpha: 255 }
}

/// Tertiary accent: completed paths and regions.
pub open spec fn spec_accent_3() -> Color {
    Color { red: 204, green: 116, blue: 167, alpha: 255 }
}

/// Tertiary accent: completed paths and regions.
#[verifier::when_used_as_spec(spec_accent_3)]
pub fn accent_3() -> (r: Color)
    ensures
        r == spec_accent_3(),
{
    Color { red: 204, green: 116, blue: 167, alpha: 255 }
}

/// Background.
pub open spec fn spec_background() -> Color {
    Color { red: 38, green: 38, blue: 34, alpha: 255 }
}

/// Background.
#[verifier::when_used_as_spec(spec_background)]
pub fn background() -> (r: Color)
    ensures
        r == spec_background(),
{
    Color { red: 38, green: 38, blue: 34, alpha: 255 }
}

} // verus!
