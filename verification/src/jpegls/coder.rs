//! The eight predictors and the residuals that they leave.
use vstd::prelude::*;
use crate::jpegls::tga::{Channel, lemma_row_order};

verus! {

/// The sum of two bytes, wrapped to a byte.
pub open spec fn wrapping_sum(a: u8, b: u8) -> u8 {
    if a + b > 255 {
        (a + b - 256) as u8
    } else {
        (a + b) as u8
    }
}

/// The difference of two bytes, wrapped to a byte.
pub open spec fn wrapping_difference(a: u8, b: u8) -> u8 {
    if a - b < 0 {
        (a - b + 256) as u8
    } else {
        (a - b) as u8
    }
}

/// The larger of two bytes.
pub open spec fn larger(a: u8, b: u8) -> u8 {
    if a >= b {
        a
    } else {
        b
    }
}

/// The smaller of two bytes.
pub open spec fn smaller(a: u8, b: u8) -> u8 {
    if a <= b {
        a
    } else {
        b
    }
}

/// What predictor `id` makes of the neighbours to the west, to the north
/// and to the north-west.
pub open spec fn prediction(w: u8, n: u8, nw: u8, id: u8) -> u8 {
    if id == 0 {
        w
    } else if id == 1 {
        n
    } else if id == 2 {
        nw
    } else if id == 3 {
        wrapping_difference(wrapping_sum(n, w), nw)
    } else if id == 4 {
        wrapping_sum(n, wrapping_difference(w, nw) / 2)
    } else if id == 5 {
        wrapping_sum(w, wrapping_difference(n, nw) / 2)
    } else if id == 6 {
        wrapping_sum(n, w) / 2
    } else if nw >= larger(w, n) {
        smaller(w, n)
    } else if nw <= smaller(w, n) {
        larger(w, n)
    } else {
        wrapping_difference(wrapping_sum(w, n), nw)
    }
}

/// What predictor `id` predicts for the pixel at column `x` of row `y`.
pub open spec fn predicted(channel: &Channel, x: int, y: int, id: u8) -> u8 {
    prediction(channel.pixel(x - 1, y), channel.pixel(x, y - 1), channel.pixel(x - 1, y - 1), id)
}

/// What predictor `id`, one of the eight, predicts for the pixel at
/// column `x` of row `y` from its neighbours.
pub fn predict(channel: &Channel, x: isize, y: isize, id: u8) -> (value: u8)
    requires
        channel.wf(),
        id < 8,
        x > isize::MIN,
        y > isize::MIN,
    ensures
        value == predicted(channel, x as int, y as int, id),
{
    let w = channel.get(x - 1, y);
    let n = channel.get(x, y - 1);
    let nw = channel.get(x - 1, y - 1);
    let larger = if w >= n {
        w
    } else {
        n
    };
    let smaller = if w <= n {
        w
    } else {
        n
    };
    match id {
        0 => w,
        1 => n,
        2 => nw,
        3 => n.wrapping_add(w).wrapping_sub(nw),
        4 => n.wrapping_add(w.wrapping_sub(nw) / 2),
        5 => w.wrapping_add(n.wrapping_sub(nw) / 2),
        6 => n.wrapping_add(w) / 2,
        _ => {
            if nw >= larger {
                smaller
            } else if nw <= smaller {
                larger
            } else {
                w.wrapping_add(n).wrapping_sub(nw)
            }
        },
    }
}

/// The residual of the pixel whose index in row order is `k`.
pub open spec fn residual(channel: &Channel, k: int, id: u8) -> u8 {
    let x = k % (channel.width as int);
    let y = k / (channel.width as int);
    wrapping_difference(channel.pixel(x, y), predicted(channel, x, y, id))
}

/// The residuals of a plane under predictor `id`, row by row: each value
/// less its prediction, wrapped to a byte.
pub fn code_with_prediction(channel: &Channel, id: u8) -> (result: Vec<u8>)
    requires
        channel.wf(),
        id < 8,
    ensures
        result@.len() == channel.width * channel.height,
        forall|k: int| 0 <= k < result@.len() ==> #[trigger] result@[k] == residual(channel, k, id),
{
    let mut result: Vec<u8> = Vec::new();
    let mut y: isize = 0;
    while y < channel.height
        invariant
            0 <= y <= channel.height,
            channel.wf(),
            id < 8,
            result@.len() == y * channel.width,
            forall|k: int|
                0 <= k < result@.len() ==> #[trigger] result@[k] == residual(channel, k, id),
        decreases channel.height - y,
    {
        let mut x: isize = 0;
        while x < channel.width
            invariant
                0 <= x <= channel.width,
                0 <= y < channel.height,
                channel.wf(),
                id < 8,
                result@.len() == y * channel.width + x,
                forall|k: int|
                    0 <= k < result@.len() ==> #[trigger] result@[k] == residual(channel, k, id),
            decreases channel.width - x,
        {
            proof {
                lemma_row_order(x as int, y as int, channel.width as int);
            }
            let prediction = predict(channel, x, y, id);
            let value = channel.get(x, y);
            let diff = value.wrapping_sub(prediction);
            result.push(diff);
            x += 1;
        }
        proof {
            assert((y + 1) * channel.width == y * channel.width + channel.width)
                by (nonlinear_arith);
        }
        y += 1;
    }
    proof {
        assert(channel.height * channel.width == channel.width * channel.height)
            by (nonlinear_arith);
    }
    result
}

} // verus!
