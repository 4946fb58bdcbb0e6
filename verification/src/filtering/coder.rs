//! The coded form of an image, and the whole-number steps of coding a
//! plane: the split into two bands and the bookkeeping of the level that
//! the decoder will have reached.
//!
//! Between these steps stands a quantizer, which the caller trains and
//! asks; this module takes its answers as they come.
use vstd::prelude::*;
use crate::jpegls::tga::Channel;
use crate::filtering::decoder::clamped;

verus! {

/// The two bands of one colour plane.
#[derive(Debug, Clone)]
pub struct CodedChannel {
    pub width: u32,
    pub height: u32,
    /// The first average, then for each further pair of pixels the
    /// quantized step from the decoded average before it.
    pub y_diff: Vec<i16>,
    /// For each pair of pixels, the quantized half of their difference.
    pub z: Vec<i16>,
}

/// The coded colour planes of an image.
#[derive(Debug, Clone)]
pub struct CodedImage {
    pub red: CodedChannel,
    pub green: CodedChannel,
    pub blue: CodedChannel,
}

impl CodedChannel {
    /// The number of pixels of the plane.
    pub open spec fn size(&self) -> int {
        self.width * self.height
    }

    /// Both bands hold a value for every pair of pixels, the band of
    /// averages holds at least one value, and the size of the plane fits a
    /// machine word.
    pub open spec fn wf(&self) -> bool {
        &&& self.y_diff@.len() >= 1
        &&& 2 * self.y_diff@.len() >= self.size()
        &&& 2 * self.z@.len() >= self.size()
        &&& self.width <= isize::MAX
        &&& self.height <= isize::MAX
        &&& self.size() <= isize::MAX
    }
}

impl CodedImage {
    /// The three planes are well-formed.
    pub open spec fn wf(&self) -> bool {
        &&& self.red.wf()
        &&& self.green.wf()
        &&& self.blue.wf()
    }
}

/// Value `i` of a plane in row order; zero past the end.
pub open spec fn sample(channel: &Channel, i: int) -> int {
    if 0 <= i < channel.data@.len() {
        channel.data@[i] as int
    } else {
        0
    }
}

/// Half of `value`, rounded towards zero.
pub open spec fn half(value: int) -> int {
    if value >= 0 {
        value / 2
    } else {
        -((-value) / 2)
    }
}

/// The average of the pair of pixels `i`, rounded down.
pub open spec fn pair_average(channel: &Channel, i: int) -> int {
    (sample(channel, 2 * i + 1) + sample(channel, 2 * i)) / 2
}

/// Half of the difference of the pair of pixels `i`, the second less the
/// first, rounded towards zero.
pub open spec fn pair_detail(channel: &Channel, i: int) -> int {
    half(sample(channel, 2 * i + 1) - sample(channel, 2 * i))
}

/// Value `i` of a plane in row order; zero past the end.
fn value_at(channel: &Channel, i: usize) -> (value: i16)
    ensures
        value == sample(channel, i as int),
        0 <= value <= 255,
{
    if i < channel.data.len() {
        channel.data[i] as i16
    } else {
        0
    }
}

/// The two bands of a plane: for each pair of pixels, in row order, their
/// average and half of their difference. A last pixel without a partner
/// is paired with zero.
pub fn split_bands(channel: &Channel) -> (bands: (Vec<i16>, Vec<i16>))
    requires
        channel.wf(),
    ensures
        bands.0@.len() == (channel.width * channel.height + 1) / 2,
        bands.1@.len() == bands.0@.len(),
        forall|i: int|
            0 <= i < bands.0@.len() ==> #[trigger] bands.0@[i] == pair_average(channel, i),
        forall|i: int|
            0 <= i < bands.1@.len() ==> #[trigger] bands.1@[i] == pair_detail(channel, i),
        forall|i: int| 0 <= i < bands.0@.len() ==> 0 <= #[trigger] bands.0@[i] <= 255,
{
    let mut y: Vec<i16> = Vec::new();
    let mut z: Vec<i16> = Vec::new();
    let len = channel.data.len();
    let size = len / 2 + len % 2;
    let mut i: usize = 0;
    while i < size
        invariant
            i <= size,
            len == channel.data@.len(),
            size == (len + 1) / 2,
            y@.len() == i,
            z@.len() == i,
            forall|k: int| 0 <= k < i ==> #[trigger] y@[k] == pair_average(channel, k),
            forall|k: int| 0 <= k < i ==> #[trigger] z@[k] == pair_detail(channel, k),
            forall|k: int| 0 <= k < i ==> 0 <= #[trigger] y@[k] <= 255,
        decreases size - i,
    {
        let x_ip = value_at(channel, 2 * i);
        let x_i = value_at(channel, 2 * i + 1);
        let difference = x_i - x_ip;
        let detail = if difference >= 0 {
            difference / 2
        } else {
            -((-difference) / 2)
        };
        y.push((x_i + x_ip) / 2);
        z.push(detail);
        i = i + 1;
    }
    (y, z)
}

/// The steps of the averages: the first average, then each average less
/// the one before it.
pub fn differences(y: &Vec<i16>) -> (steps: Vec<i16>)
    requires
        forall|i: int| 0 <= i < y@.len() ==> 0 <= #[trigger] y@[i] <= 255,
    ensures
        steps@.len() == y@.len(),
        forall|i: int|
            0 <= i < steps@.len() ==> #[trigger] steps@[i] == (if i == 0 {
                y@[0] as int
            } else {
                y@[i] - y@[i - 1]
            }),
{
    let mut steps: Vec<i16> = Vec::new();
    let mut i: usize = 0;
    while i < y.len()
        invariant
            i <= y@.len(),
            steps@.len() == i,
            forall|k: int| 0 <= k < y@.len() ==> 0 <= #[trigger] y@[k] <= 255,
            forall|k: int|
                0 <= k < i ==> #[trigger] steps@[k] == (if k == 0 {
                    y@[0] as int
                } else {
                    y@[k] - y@[k - 1]
                }),
        decreases y@.len() - i,
    {
        if i == 0 {
            steps.push(y[0]);
        } else {
            assert(0 <= y@[i as int] <= 255);
            assert(0 <= y@[i - 1] <= 255);
            steps.push(y[i] - y[i - 1]);
        }
        i = i + 1;
    }
    steps
}

/// The level at which the decoder starts: the first average, brought
/// into the range of a pixel.
pub fn first_level(average: i16) -> (level: i16)
    ensures
        level == clamped(average as int),
{
    if average < 0 {
        0
    } else if average > 255 {
        255
    } else {
        average
    }
}

/// The step that leads from the level that the decoder has reached to the
/// average `target`: what the quantizer is asked to code.
pub fn step_to(target: i16, level: i16) -> (step: i16)
    requires
        0 <= target <= 255,
        0 <= level <= 255,
    ensures
        step == target - level,
{
    target - level
}

/// The level that the decoder reaches from `level` by the quantized step
/// `quantized`.
pub fn next_level(level: i16, quantized: i16) -> (next: i16)
    requires
        0 <= level <= 255,
    ensures
        next == clamped(level + quantized),
        0 <= next <= 255,
{
    let sum: i32 = level as i32 + quantized as i32;
    if sum < 0 {
        0
    } else if sum > 255 {
        255
    } else {
        sum as i16
    }
}

} // verus!
