use vstd::prelude::*;

verus! {

/// An 8-bit RGBA color.
#[derive(Clone, Copy, Debug, PartialEq, Eq, Structural)]
pub struct Rgba {
    pub r: u8,
    pub g: u8,
    pub b: u8,
    pub a: u8,
}

/// Outcome of iterating `z <- z^2 + c` from `z = 0` for one point `c`.
#[derive(Clone, Copy, Debug, PartialEq, Eq, Structural)]
pub enum DivergenceResult {
    /// The bailout predicate first held after iteration `step` (counted from 0).
    Diverged(u32),
    /// The bailout predicate never held within the iteration budget.
    Bounded,
}

impl DivergenceResult {
    pub fn is_bounded(&self) -> (r: bool)
        ensures
            r == (*self is Bounded),
    {
        match self {
            DivergenceResult::Bounded => true,
            DivergenceResult::Diverged(_) => false,
        }
    }
}

/// How a divergence result is turned into a color.
#[derive(Clone, Copy, Debug, PartialEq, Eq, Structural)]
pub enum ColorPolicy {
    /// Bounded points get one color, diverged points another, whatever their step.
    Binary,
    /// Diverged points get a gray whose level grows with the step; bounded points are black.
    Graded,
}

pub open spec fn gray_spec(level: u8) -> Rgba {
    Rgba { r: level, g: level, b: level, a: 255 }
}

/// The fill of a raster cell that no result has been written to: fully transparent,
/// which no color policy ever produces.
pub open spec fn background_spec() -> Rgba {
    Rgba { r: 0, g: 0, b: 0, a: 0 }
}

/// Color of bounded points under the binary policy.
pub open spec fn bounded_color_spec() -> Rgba {
    gray_spec(0)
}

/// Color of diverged points under the binary policy.
pub open spec fn diverged_color_spec() -> Rgba {
    gray_spec(255)
}

/// Gray level of a point that diverged at `step`, saturating at 255.
pub open spec fn shade_spec(step: u32) -> u8 {
    if step < 255 {
        step as u8
    } else {
        255
    }
}

pub open spec fn colorize_spec(policy: ColorPolicy, result: DivergenceResult) -> Rgba {
    match policy {
        ColorPolicy::Binary => match result {
            DivergenceResult::Bounded => bounded_color_spec(),
            DivergenceResult::Diverged(_) => diverged_color_spec(),
        },
        ColorPolicy::Graded => match result {
            DivergenceResult::Bounded => gray_spec(0),
            DivergenceResult::Diverged(n) => gray_spec(shade_spec(n)),
        },
    }
}

/// An opaque gray of the given level.
pub fn gray(level: u8) -> (c: Rgba)
    ensures
        c == gray_spec(level),
{
    Rgba { r: level, g: level, b: level, a: 255 }
}

pub fn background() -> (c: Rgba)
    ensures
        c == background_spec(),
{
    Rgba { r: 0, g: 0, b: 0, a: 0 }
}

pub fn shade(step: u32) -> (level: u8)
    ensures
        level == shade_spec(step),
{
    if step < 255 {
        step as u8
    } else {
        255
    }
}

/// The color that `policy` gives to `result`.
pub fn colorize(policy: ColorPolicy, result: DivergenceResult) -> (c: Rgba)
    ensures
        c == colorize_spec(policy, result),
{
    match policy {
        ColorPolicy::Binary => match result {
            DivergenceResult::Bounded => gray(0),
            DivergenceResult::Diverged(_) => gray(255),
        },
        ColorPolicy::Graded => match result {
            DivergenceResult::Bounded => gray(0),
            DivergenceResult::Diverged(n) => gray(shade(n)),
        },
    }
}

/// The binary policy takes exactly two values, and which one depends only on whether
/// the result is bounded.
pub proof fn lemma_binary_depends_only_on_boundedness(a: DivergenceResult, b: DivergenceResult)
    ensures
        colorize_spec(ColorPolicy::Binary, a) == bounded_color_spec() || colorize_spec(
            ColorPolicy::Binary,
            a,
        ) == diverged_color_spec(),
        bounded_color_spec() != diverged_color_spec(),
        (a is Bounded) == (b is Bounded) ==> colorize_spec(ColorPolicy::Binary, a)
            == colorize_spec(ColorPolicy::Binary, b),
        (a is Bounded) != (b is Bounded) ==> colorize_spec(ColorPolicy::Binary, a)
            != colorize_spec(ColorPolicy::Binary, b),
{
}

/// Under the graded policy the gray level of a diverged point never decreases as its
/// step grows.
pub proof fn lemma_graded_monotone(n1: u32, n2: u32)
    requires
        n1 <= n2,
    ensures
        colorize_spec(ColorPolicy::Graded, DivergenceResult::Diverged(n1)).r <= colorize_spec(
            ColorPolicy::Graded,
            DivergenceResult::Diverged(n2),
        ).r,
        colorize_spec(ColorPolicy::Graded, DivergenceResult::Diverged(n1)).r == colorize_spec(
            ColorPolicy::Graded,
            DivergenceResult::Diverged(n1),
        ).g,
        colorize_spec(ColorPolicy::Graded, DivergenceResult::Diverged(n1)).r == colorize_spec(
            ColorPolicy::Graded,
            DivergenceResult::Diverged(n1),
        ).b,
{
}

/// No color policy produces the background fill, so an unwritten cell is always
/// distinguishable from a written one.
pub proof fn lemma_background_never_produced(policy: ColorPolicy, result: DivergenceResult)
    ensures
        colorize_spec(policy, result) != background_spec(),
{
}

} // verus!
