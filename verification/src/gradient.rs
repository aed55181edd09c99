//! A test card: a square image whose red grows to the right, whose green
//! grows downwards, and whose blue fades from the top left corner.

use vstd::prelude::*;

verus! {

/// The width of the image, in pixels.
pub const WIDTH: u32 = 256;

/// The height of the image, in pixels.
pub const HEIGHT: u32 = 256;

/// The red of column `x`.
pub open spec fn red_spec(x: int) -> int {
    x * 255 / 256
}

/// The green of row `y`.
pub open spec fn green_spec(y: int) -> int {
    y * 255 / 256
}

/// The blue at column `x` and row `y`: the share of the image that lies to
/// the right of and below the pixel, on a scale of 255.
pub open spec fn blue_spec(x: int, y: int) -> int {
    (256 - x) * (256 - y) * 255 / 65536
}

/// The byte at position `i` of the image: three bytes a pixel, red, green,
/// blue, the pixels of a row from left to right, the rows from the top down.
pub open spec fn byte_spec(i: int) -> int {
    let x = (i / 3) % 256;
    let y = (i / 3) / 256;
    if i % 3 == 0 {
        red_spec(x)
    } else if i % 3 == 1 {
        green_spec(y)
    } else {
        blue_spec(x, y)
    }
}

/// The three bytes of the pixel at column `x` and row `y`.
pub fn gradient_pixel(x: u32, y: u32) -> (rgb: (u8, u8, u8))
    requires
        x < WIDTH,
        y < HEIGHT,
    ensures
        rgb.0 == red_spec(x as int),
        rgb.1 == green_spec(y as int),
        rgb.2 == blue_spec(x as int, y as int),
{
    let across = WIDTH - x;
    let down = HEIGHT - y;
    assert(0 < across * down <= 65536) by (nonlinear_arith)
        requires
            0 < across <= 256,
            0 < down <= 256,
    ;
    let r = x * 255 / WIDTH;
    let g = y * 255 / HEIGHT;
    let b = across * down * 255 / (WIDTH * HEIGHT);
    (r as u8, g as u8, b as u8)
}

/// The image, as `3 * WIDTH * HEIGHT` bytes.
pub fn gradient_pixels() -> (buffer: Vec<u8>)
    ensures
        buffer.len() == 3 * WIDTH * HEIGHT,
        forall|i: int| 0 <= i < buffer.len() ==> buffer[i] == byte_spec(i),
        forall|x: int, y: int|
            0 <= x < WIDTH && 0 <= y < HEIGHT ==> {
                &&& #[trigger] buffer[3 * (y * WIDTH + x)] == red_spec(x)
                &&& buffer[3 * (y * WIDTH + x) + 1] == green_spec(y)
                &&& buffer[3 * (y * WIDTH + x) + 2] == blue_spec(x, y)
            },
{
    let mut buffer: Vec<u8> = Vec::new();
    let mut y: u32 = 0;
    while y < HEIGHT
        invariant
            y <= HEIGHT,
            buffer.len() == 3 * (y * WIDTH),
            forall|i: int| 0 <= i < buffer.len() ==> buffer[i] == byte_spec(i),
        decreases HEIGHT - y,
    {
        let mut x: u32 = 0;
        while x < WIDTH
            invariant
                x <= WIDTH,
                y < HEIGHT,
                buffer.len() == 3 * (y * WIDTH + x),
                forall|i: int| 0 <= i < buffer.len() ==> buffer[i] == byte_spec(i),
            decreases WIDTH - x,
        {
            let (r, g, b) = gradient_pixel(x, y);
            buffer.push(r);
            buffer.push(g);
            buffer.push(b);
            x += 1;
        }
        y += 1;
    }
    proof {
        assert forall|x: int, y: int| 0 <= x < WIDTH && 0 <= y < HEIGHT implies {
            &&& #[trigger] buffer[3 * (y * WIDTH + x)] == red_spec(x)
            &&& buffer[3 * (y * WIDTH + x) + 1] == green_spec(y)
            &&& buffer[3 * (y * WIDTH + x) + 2] == blue_spec(x, y)
        } by {
            let pixel = y * 256 + x;
            let i = 3 * pixel;
            assert(pixel / 256 == y && pixel % 256 == x);
            assert(i / 3 == pixel && i % 3 == 0);
            assert((i + 1) / 3 == pixel && (i + 1) % 3 == 1);
            assert((i + 2) / 3 == pixel && (i + 2) % 3 == 2);
            assert(buffer[i] == byte_spec(i));
            assert(buffer[i + 1] == byte_spec(i + 1));
            assert(buffer[i + 2] == byte_spec(i + 2));
        }
    }
    buffer
}

} // verus!
