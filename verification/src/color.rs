//! Display colours, which the simulation carries along and blends on a merge.
use crate::fixed::Fixed;
use vstd::prelude::*;

verus! {

/// A colour of four channels, each a scalar between zero and one.
#[derive(Clone, Copy, PartialEq, Eq, Debug, Structural)]
pub struct Color {
    pub r: Fixed,
    pub g: Fixed,
    pub b: Fixed,
    pub a: Fixed,
}

/// One channel of a blend: `c1` weighted by `1 - factor` plus `c2` weighted
/// by `factor`.
pub open spec fn blend(c1: Fixed, c2: Fixed, factor: Fixed) -> Fixed {
    c1.times(Fixed::one().minus(factor)).plus(c2.times(factor))
}

/// Blends one channel.
fn blend_channel(c1: Fixed, c2: Fixed, factor: Fixed) -> (r: Fixed)
    ensures
        r == blend(c1, c2, factor),
{
    c1.times(Fixed::one().minus(factor)).plus(c2.times(factor))
}

impl Color {
    /// The colour with the given channels.
    pub fn new(r: Fixed, g: Fixed, b: Fixed, a: Fixed) -> (c: Color)
        ensures
            c == (Color { r, g, b, a }),
    {
        Color { r, g, b, a }
    }

    /// Opaque white.
    pub open spec fn spec_white() -> Color {
        Color { r: Fixed::one(), g: Fixed::one(), b: Fixed::one(), a: Fixed::one() }
    }

    /// Opaque white.
    #[verifier::when_used_as_spec(spec_white)]
    pub fn white() -> (c: Color)
        ensures
            c == Color::spec_white(),
    {
        Color { r: Fixed::one(), g: Fixed::one(), b: Fixed::one(), a: Fixed::one() }
    }

    /// The linear blend of two colours, channel by channel.
    pub open spec fn spec_mix(self, other: Color, factor: Fixed) -> Color {
        Color {
            r: blend(self.r, other.r, factor),
            g: blend(self.g, other.g, factor),
            b: blend(self.b, other.b, factor),
            a: blend(self.a, other.a, factor),
        }
    }

    /// Blends this colour with `other`: a factor of zero keeps this colour,
    /// a factor of one gives `other`.
    #[verifier::when_used_as_spec(spec_mix)]
    pub fn mix(self, other: Color, factor: Fixed) -> (c: Color)
        ensures
            c == self.spec_mix(other, factor),
    {
        Color {
            r: blend_channel(self.r, other.r, factor),
            g: blend_channel(self.g, other.g, factor),
            b: blend_channel(self.b, other.b, factor),
            a: blend_channel(self.a, other.a, factor),
        }
    }
}

} // verus!
