//! Decoding the two bands of a plane back into pixels.
use vstd::prelude::*;
use crate::filtering::coder::{CodedChannel, CodedImage};
use crate::jpegls::tga::{Bitmap, Channel};

verus! {

/// `value` brought into the range of a pixel.
pub open spec fn clamped(value: int) -> int {
    if value < 0 {
        0
    } else if value > 255 {
        255
    } else {
        value
    }
}

/// The decoded average of the pair of pixels `i`: the first value of the
/// band, or the decoded average before it moved by the step of this
/// pair; always within the range of a pixel.
pub open spec fn average(y_diff: Seq<i16>, i: int) -> int
    decreases i,
{
    if i <= 0 {
        clamped(y_diff[0] as int)
    } else {
        clamped(average(y_diff, i - 1) + y_diff[i])
    }
}

/// The decoded pixel `i` of a plane: the average of its pair less the
/// half-difference for the first pixel of the pair, plus it for the second.
pub open spec fn pixel(channel: &CodedChannel, i: int) -> int {
    if i % 2 == 0 {
        clamped(average(channel.y_diff@, i / 2) - channel.z@[i / 2])
    } else {
        clamped(average(channel.y_diff@, i / 2) + channel.z@[i / 2])
    }
}

/// Brings `value` into the range of a pixel.
fn clamp(value: i32) -> (pixel: i32)
    ensures
        pixel == clamped(value as int),
{
    if value < 0 {
        0
    } else if value > 255 {
        255
    } else {
        value
    }
}

/// Decodes the three planes of an image.
pub fn decode(image: CodedImage) -> (bitmap: Bitmap)
    requires
        image.wf(),
    ensures
        bitmap.red.wf(),
        bitmap.green.wf(),
        bitmap.blue.wf(),
        decodes(&bitmap.red, &image.red),
        decodes(&bitmap.green, &image.green),
        decodes(&bitmap.blue, &image.blue),
{
    let red = decode_channel(image.red);
    let green = decode_channel(image.green);
    let blue = decode_channel(image.blue);
    Bitmap { red, green, blue }
}

/// The plane `channel` is what `coded` decodes to.
pub open spec fn decodes(channel: &Channel, coded: &CodedChannel) -> bool {
    &&& channel.width == coded.width
    &&& channel.height == coded.height
    &&& channel.data@.len() == coded.size()
    &&& forall|i: int| 0 <= i < coded.size() ==> #[trigger] channel.data@[i] == pixel(coded, i)
}

/// Decodes one plane.
pub fn decode_channel(channel: CodedChannel) -> (decoded: Channel)
    requires
        channel.wf(),
    ensures
        decoded.wf(),
        decodes(&decoded, &channel),
{
    let width = channel.width as usize;
    let height = channel.height as usize;
    proof {
        assert(channel.width * channel.height >= 0) by (nonlinear_arith);
    }
    let size = width * height;
    let mut y_decoded: Vec<i32> = Vec::new();
    y_decoded.push(clamp(channel.y_diff[0] as i32));
    let mut i: usize = 1;
    while i < channel.y_diff.len()
        invariant
            1 <= i <= channel.y_diff@.len(),
            y_decoded@.len() == i,
            forall|k: int| 0 <= k < i ==> #[trigger] y_decoded@[k] == average(channel.y_diff@, k),
        decreases channel.y_diff@.len() - i,
    {
        let previous = y_decoded[i - 1];
        assert(previous == average(channel.y_diff@, i - 1));
        y_decoded.push(clamp(previous + channel.y_diff[i] as i32));
        i = i + 1;
    }
    let mut data: Vec<u8> = Vec::new();
    let mut i: usize = 0;
    while i < size
        invariant
            i <= size,
            size == channel.size(),
            channel.wf(),
            data@.len() == i,
            y_decoded@.len() == channel.y_diff@.len(),
            forall|k: int|
                0 <= k < y_decoded@.len() ==> #[trigger] y_decoded@[k] == average(
                    channel.y_diff@,
                    k,
                ),
            forall|k: int| 0 <= k < i ==> #[trigger] data@[k] == pixel(&channel, k),
        decreases size - i,
    {
        let level = y_decoded[i / 2];
        assert(level == average(channel.y_diff@, i as int / 2));
        let detail = channel.z[i / 2] as i32;
        let value = if i % 2 == 0 {
            clamp(level - detail)
        } else {
            clamp(level + detail)
        };
        data.push(value as u8);
        i = i + 1;
    }
    Channel { width: width as isize, height: height as isize, data }
}

} // verus!
