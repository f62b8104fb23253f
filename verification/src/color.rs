//! The colour policy: from a classification to the samples of one pixel.

use vstd::prelude::*;
use crate::classify::{Classification, Octant};

verus! {

/// Brightest value of an 8-bit sample.
pub const MAX_SAMPLE: u8 = 255;

/// One pixel of three 8-bit channels.
#[derive(Clone, Copy, Debug, PartialEq, Eq, Structural)]
pub struct Rgb {
    pub red: u8,
    pub green: u8,
    pub blue: u8,
}

/// Layout of the samples of one pixel in the buffer.
#[derive(Clone, Copy, Debug, PartialEq, Eq, Structural)]
pub enum SampleFormat {
    /// One grey sample per pixel.
    Gray,
    /// Red, green and blue, in this order.
    Rgb,
}

/// Brightness that stands for `count` steps: the fewer steps, the brighter;
/// counts at or past the brightest sample all come out dark.
pub open spec fn intensity(count: u32) -> u8 {
    if count >= MAX_SAMPLE {
        0u8
    } else {
        (MAX_SAMPLE - count) as u8
    }
}

/// Grey sample of a classification: background is black, anything else as
/// bright as its count is small.
pub open spec fn gray_sample(outcome: Classification) -> u8 {
    match outcome {
        Classification::Background => 0u8,
        Classification::Reached { count, .. } => intensity(count),
    }
}

/// The colour of an octant at brightness `level`.
pub open spec fn octant_color(octant: Octant, level: u8) -> Rgb {
    match octant {
        Octant::NorthEast => Rgb { red: level, green: 0, blue: 0 },
        Octant::East => Rgb { red: level, green: level / 2, blue: 0 },
        Octant::SouthEast => Rgb { red: level, green: level, blue: 0 },
        Octant::South => Rgb { red: 0, green: level, blue: 0 },
        Octant::SouthWest => Rgb { red: 0, green: level, blue: (level / 3 * 2) as u8 },
        Octant::West => Rgb { red: 0, green: (level / 3 * 2) as u8, blue: level },
        Octant::NorthWest => Rgb { red: level / 4, green: level / 4, blue: level },
        Octant::North => Rgb { red: level, green: 0, blue: level },
    }
}

/// Colour of a classification: black for background and for a point that
/// settled in no octant, else the octant's colour at the brightness of the
/// count.
pub open spec fn rgb_sample(outcome: Classification) -> Rgb {
    match outcome {
        Classification::Reached { count, bucket: Some(octant) } => octant_color(
            octant,
            intensity(count),
        ),
        _ => Rgb { red: 0, green: 0, blue: 0 },
    }
}

/// The samples that a pixel of this classification takes in the buffer.
pub open spec fn sample_bytes(format: SampleFormat, outcome: Classification) -> Seq<u8> {
    match format {
        SampleFormat::Gray => seq![gray_sample(outcome)],
        SampleFormat::Rgb => {
            let color = rgb_sample(outcome);
            seq![color.red, color.green, color.blue]
        },
    }
}

impl SampleFormat {
    /// Samples per pixel.
    pub open spec fn spec_channels(self) -> int {
        match self {
            SampleFormat::Gray => 1,
            SampleFormat::Rgb => 3,
        }
    }

    /// Samples per pixel.
    pub fn channels(self) -> (count: usize)
        ensures
            count == self.spec_channels(),
    {
        match self {
            SampleFormat::Gray => 1,
            SampleFormat::Rgb => 3,
        }
    }
}

/// Brightness of a step count.
pub fn brightness(count: u32) -> (level: u8)
    ensures
        level == intensity(count),
{
    if count >= MAX_SAMPLE as u32 {
        0
    } else {
        MAX_SAMPLE - count as u8
    }
}

/// Grey sample of a classification.
pub fn colorize_gray(outcome: Classification) -> (sample: u8)
    ensures
        sample == gray_sample(outcome),
{
    match outcome {
        Classification::Background => 0,
        Classification::Reached { count, .. } => brightness(count),
    }
}

/// The colour that an octant has at a given brightness.
pub fn palette(octant: Octant, level: u8) -> (color: Rgb)
    ensures
        color == octant_color(octant, level),
{
    match octant {
        Octant::NorthEast => Rgb { red: level, green: 0, blue: 0 },
        Octant::East => Rgb { red: level, green: level / 2, blue: 0 },
        Octant::SouthEast => Rgb { red: level, green: level, blue: 0 },
        Octant::South => Rgb { red: 0, green: level, blue: 0 },
        Octant::SouthWest => Rgb { red: 0, green: level, blue: level / 3 * 2 },
        Octant::West => Rgb { red: 0, green: level / 3 * 2, blue: level },
        Octant::NorthWest => Rgb { red: level / 4, green: level / 4, blue: level },
        Octant::North => Rgb { red: level, green: 0, blue: level },
    }
}

/// Colour of a classification.
pub fn colorize_rgb(outcome: Classification) -> (color: Rgb)
    ensures
        color == rgb_sample(outcome),
{
    match outcome {
        Classification::Reached { count, bucket: Some(octant) } => palette(
            octant,
            brightness(count),
        ),
        _ => Rgb { red: 0, green: 0, blue: 0 },
    }
}

/// Fewer steps never give a darker sample.
pub proof fn lemma_intensity_monotone(fewer: u32, more: u32)
    requires
        fewer <= more,
    ensures
        intensity(fewer) >= intensity(more),
{
}

/// Below the brightest sample's value, different counts give different
/// brightness, and none of them is as dark as the background.
pub proof fn lemma_intensity_distinguishes(a: u32, b: u32)
    requires
        a < MAX_SAMPLE,
        b < MAX_SAMPLE,
    ensures
        intensity(a) == intensity(b) <==> a == b,
        intensity(a) > 0,
        gray_sample(Classification::Reached { count: a, bucket: None })
            != gray_sample(Classification::Background),
{
}

/// With a budget of the brightest sample's value, the brightness of a Newton
/// run that converged is the number of steps that it left unused.
pub proof fn lemma_intensity_is_remaining(remaining: u32)
    requires
        0 < remaining <= MAX_SAMPLE,
    ensures
        intensity((MAX_SAMPLE - remaining) as u32) == remaining,
{
}

} // verus!
