//! How the dots of a textured stroke spread across its width.
use vstd::prelude::*;

verus! {

/// The distribution for the spread of dots across the width of a textured shape
#[derive(Debug, Clone, Copy, PartialEq, Eq, Structural)]
pub enum TexturedDotsDistribution {
    /// Uniform distribution
    Uniform,
    /// Normal distribution
    Normal,
    /// Exponential distribution distribution, from the outline increasing in probability symmetrically to the center
    Exponential,
    /// Exponential distribution distribution, from the center increasing in probability symmetrically outwards to the outline
    ReverseExponential,
}

impl Default for TexturedDotsDistribution {
    fn default() -> (d: Self)
        ensures
            d == TexturedDotsDistribution::Normal,
    {
        TexturedDotsDistribution::Normal
    }
}

} // verus!
