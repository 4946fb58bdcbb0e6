//! The colour planes of an uncompressed 24-bit Truevision (TGA) image.
use vstd::prelude::*;
use vstd::arithmetic::div_mod::lemma_fundamental_div_mod_converse;

verus! {

/// The length of the header of a Truevision file.
pub const HEADER_LEN: usize = 18;

/// The three colour planes of an image.
#[derive(Debug)]
pub struct Bitmap {
    pub red: Channel,
    pub green: Channel,
    pub blue: Channel,
}

/// One colour plane, stored row by row from the top.
#[derive(Debug)]
pub struct Channel {
    pub width: isize,
    pub height: isize,
    pub data: Vec<u8>,
}

impl Channel {
    /// The plane holds a value for each of its `width * height` pixels.
    pub open spec fn wf(&self) -> bool {
        &&& 0 <= self.width
        &&& 0 <= self.height
        &&& self.width * self.height <= isize::MAX
        &&& self.data@.len() == self.width * self.height
    }

    /// The value at column `x` of row `y`; zero outside of the plane.
    pub open spec fn pixel(&self, x: int, y: int) -> u8 {
        if 0 <= x < self.width && 0 <= y < self.height {
            self.data@[y * self.width + x]
        } else {
            0
        }
    }

    /// A plane of the given size that holds no values yet.
    pub fn new(width: isize, height: isize) -> (channel: Self)
        requires
            0 <= width * height <= isize::MAX,
        ensures
            channel.width == width,
            channel.height == height,
            channel.data@.len() == 0,
    {
        Self { width, height, data: Vec::with_capacity((width * height) as usize) }
    }

    /// The value at column `x` of row `y`; zero outside of the plane.
    pub fn get(&self, x: isize, y: isize) -> (value: u8)
        requires
            self.wf(),
        ensures
            value == self.pixel(x as int, y as int),
    {
        if (0 <= x && x < self.width) && (0 <= y && y < self.height) {
            proof {
                lemma_index_in_range(x as int, y as int, self.width as int, self.height as int);
            }
            self.data[(y * self.width + x) as usize]
        } else {
            0
        }
    }

    /// The values of the plane, row by row.
    pub fn iter(&self) -> (values: Vec<u8>)
        ensures
            values@ == self.data@,
    {
        self.data.clone()
    }
}

impl Bitmap {
    /// The three planes have the same size and are well-formed.
    pub open spec fn wf(&self) -> bool {
        &&& self.red.wf()
        &&& self.green.wf()
        &&& self.blue.wf()
        &&& self.red.width == self.green.width == self.blue.width
        &&& self.red.height == self.green.height == self.blue.height
    }

    /// The values of the red plane, then those of the green and of the
    /// blue one.
    pub fn iter(&self) -> (values: Vec<u8>)
        ensures
            values@ == self.red.data@ + self.green.data@ + self.blue.data@,
    {
        let mut values = self.red.data.clone();
        let mut green = self.green.data.clone();
        let mut blue = self.blue.data.clone();
        values.append(&mut green);
        values.append(&mut blue);
        values
    }
}

/// The index of a pixel of the plane lies within its values.
pub proof fn lemma_index_in_range(x: int, y: int, width: int, height: int)
    requires
        0 <= x < width,
        0 <= y < height,
    ensures
        0 <= y * width + x < width * height,
        0 <= y * width <= width * height,
        (height - 1 - y) * width + x < width * height,
        0 <= (height - 1 - y) * width,
{
    assert(y * width + width <= height * width) by (nonlinear_arith)
        requires
            0 <= y < height,
            0 < width,
    ;
    assert(0 <= y * width) by (nonlinear_arith)
        requires
            0 <= y,
            0 < width,
    ;
    assert((height - 1 - y) * width + width <= height * width) by (nonlinear_arith)
        requires
            0 <= y < height,
            0 < width,
    ;
    assert(0 <= (height - 1 - y) * width) by (nonlinear_arith)
        requires
            0 <= y < height,
            0 < width,
    ;
    assert(width * height == height * width) by (nonlinear_arith);
}

/// The width that the header of the file `input` gives.
pub open spec fn header_width(input: Seq<u8>) -> int {
    input[12] as int + input[13] as int * 256
}

/// The height that the header of the file `input` gives.
pub open spec fn header_height(input: Seq<u8>) -> int {
    input[14] as int + input[15] as int * 256
}

/// The offset in the file `input` of the pixel at column `x` of row `y`,
/// rows counted from the top: the file stores the bottom row first.
pub open spec fn pixel_offset(input: Seq<u8>, x: int, y: int) -> int {
    HEADER_LEN + 3 * ((header_height(input) - 1 - y) * header_width(input) + x)
}

/// The file `input` holds a header and three bytes for each pixel.
pub open spec fn holds_image(input: Seq<u8>) -> bool {
    &&& input.len() >= HEADER_LEN
    &&& input.len() >= HEADER_LEN + 3 * (header_width(input) * header_height(input))
}

/// The offset in the file `input` of the pixel whose index in row order
/// is `k`.
pub open spec fn offset_of(input: Seq<u8>, k: int) -> int {
    pixel_offset(input, k % header_width(input), k / header_width(input))
}

/// The index in row order of the pixel at column `x` of row `y` gives the
/// column and the row back.
pub proof fn lemma_row_order(x: int, y: int, width: int)
    requires
        0 <= x < width,
        0 <= y,
    ensures
        (y * width + x) % width == x,
        (y * width + x) / width == y,
        0 <= y * width + x,
{
    lemma_fundamental_div_mod_converse(y * width + x, width, y, x);
    assert(0 <= y * width) by (nonlinear_arith)
        requires
            0 <= y,
            0 < width,
    ;
}

/// Reads the three colour planes of an uncompressed 24-bit Truevision
/// file. Each pixel is stored as blue, green, red.
pub fn read_tga_to_bitmap(input: &[u8]) -> (bitmap: Bitmap)
    requires
        holds_image(input@),
        header_width(input@) * header_height(input@) <= isize::MAX,
    ensures
        bitmap.wf(),
        bitmap.red.width == header_width(input@),
        bitmap.red.height == header_height(input@),
        forall|x: int, y: int|
            0 <= x < header_width(input@) && 0 <= y < header_height(input@)
                ==> #[trigger] bitmap.red.pixel(x, y) == input@[pixel_offset(input@, x, y) + 2],
        forall|x: int, y: int|
            0 <= x < header_width(input@) && 0 <= y < header_height(input@)
                ==> #[trigger] bitmap.green.pixel(x, y) == input@[pixel_offset(input@, x, y) + 1],
        forall|x: int, y: int|
            0 <= x < header_width(input@) && 0 <= y < header_height(input@)
                ==> #[trigger] bitmap.blue.pixel(x, y) == input@[pixel_offset(input@, x, y)],
{
    let width: usize = input[12] as usize + input[13] as usize * 256;
    let height: usize = input[14] as usize + input[15] as usize * 256;
    let len = input.len();
    proof {
        assert(0 <= width * height) by (nonlinear_arith)
            requires
                0 <= width,
                0 <= height,
        ;
    }
    let mut bitmap = Bitmap {
        red: Channel::new(width as isize, height as isize),
        green: Channel::new(width as isize, height as isize),
        blue: Channel::new(width as isize, height as isize),
    };
    let mut y: usize = 0;
    while y < height
        invariant
            y <= height,
            len == input@.len(),
            width == header_width(input@),
            height == header_height(input@),
            holds_image(input@),
            width * height <= isize::MAX,
            bitmap.red.width == width,
            bitmap.red.height == height,
            bitmap.green.width == width,
            bitmap.green.height == height,
            bitmap.blue.width == width,
            bitmap.blue.height == height,
            bitmap.red.data@.len() == y * width,
            bitmap.green.data@.len() == y * width,
            bitmap.blue.data@.len() == y * width,
            forall|k: int|
                0 <= k < y * width ==> #[trigger] bitmap.red.data@[k] == input@[offset_of(input@, k)
                    + 2],
            forall|k: int|
                0 <= k < y * width ==> #[trigger] bitmap.green.data@[k] == input@[offset_of(
                    input@,
                    k,
                ) + 1],
            forall|k: int|
                0 <= k < y * width ==> #[trigger] bitmap.blue.data@[k] == input@[offset_of(
                    input@,
                    k,
                )],
        decreases height - y,
    {
        let mut x: usize = 0;
        while x < width
            invariant
                x <= width,
                y < height,
                len == input@.len(),
                width == header_width(input@),
                height == header_height(input@),
                holds_image(input@),
                width * height <= isize::MAX,
                bitmap.red.width == width,
                bitmap.red.height == height,
                bitmap.green.width == width,
                bitmap.green.height == height,
                bitmap.blue.width == width,
                bitmap.blue.height == height,
                bitmap.red.data@.len() == y * width + x,
                bitmap.green.data@.len() == y * width + x,
                bitmap.blue.data@.len() == y * width + x,
                forall|k: int|
                    0 <= k < y * width + x ==> #[trigger] bitmap.red.data@[k] == input@[offset_of(
                        input@,
                        k,
                    ) + 2],
                forall|k: int|
                    0 <= k < y * width + x ==> #[trigger] bitmap.green.data@[k] == input@[offset_of(
                        input@,
                        k,
                    ) + 1],
                forall|k: int|
                    0 <= k < y * width + x ==> #[trigger] bitmap.blue.data@[k] == input@[offset_of(
                        input@,
                        k,
                    )],
            decreases width - x,
        {
            proof {
                lemma_index_in_range(x as int, y as int, width as int, height as int);
                lemma_row_order(x as int, y as int, width as int);
            }
            let row: usize = height - 1 - y;
            proof {
                let index = (height - 1 - y) * width + x;
                assert(0 <= index < width * height);
                assert(row * width == (height - 1 - y) * width);
                assert(input@.len() >= HEADER_LEN + 3 * (width * height));
                assert(HEADER_LEN + 3 * index + 2 < input@.len());
            }
            let offset: usize = HEADER_LEN + 3 * (row * width + x);
            bitmap.red.data.push(input[offset + 2]);
            bitmap.green.data.push(input[offset + 1]);
            bitmap.blue.data.push(input[offset]);
            x += 1;
        }
        proof {
            assert((y + 1) * width == y * width + width) by (nonlinear_arith);
        }
        y += 1;
    }
    proof {
        assert(height * width == width * height) by (nonlinear_arith);
        assert forall|x: int, y: int|
            0 <= x < header_width(input@) && 0 <= y < header_height(
                input@,
            ) implies #[trigger] bitmap.red.pixel(x, y) == input@[pixel_offset(input@, x, y)
            + 2] by {
            lemma_index_in_range(x, y, width as int, height as int);
            lemma_row_order(x, y, width as int);
        }
        assert forall|x: int, y: int|
            0 <= x < header_width(input@) && 0 <= y < header_height(
                input@,
            ) implies #[trigger] bitmap.green.pixel(x, y) == input@[pixel_offset(input@, x, y)
            + 1] by {
            lemma_index_in_range(x, y, width as int, height as int);
            lemma_row_order(x, y, width as int);
        }
        assert forall|x: int, y: int|
            0 <= x < header_width(input@) && 0 <= y < header_height(
                input@,
            ) implies #[trigger] bitmap.blue.pixel(x, y) == input@[pixel_offset(input@, x, y)] by {
            lemma_index_in_range(x, y, width as int, height as int);
            lemma_row_order(x, y, width as int);
        }
    }
    bitmap
}

} // verus!
