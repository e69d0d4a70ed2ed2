//! The pixel buffer and the PNG encoder of the `image` crate, as the canvas
//! sees them: a map from pixel coordinates to RGB triples, with a fixed size.

use image::{ImageBuffer, ImageOutputFormat, Rgb};
use std::io::Cursor;
use vstd::prelude::*;

verus! {

/// An RGB image buffer of the `image` crate (`ImageBuffer<Rgb<u8>, Vec<u8>>`),
/// held in a private field. Its contents are known only through
/// `image_pixels` and its size only through `image_size`.
#[verifier::external_body]
pub struct PixelBuffer {
    img: ImageBuffer<Rgb<u8>, Vec<u8>>,
}

/// An RGB colour as three channel values.
pub type Colour = (u8, u8, u8);

/// The pixels an RGB image buffer holds, by `(x, y)` coordinate.
pub uninterp spec fn image_pixels(img: PixelBuffer) -> Map<(u32, u32), (u8, u8, u8)>;

/// The `(width, height)` an RGB image buffer was made with.
pub uninterp spec fn image_size(img: PixelBuffer) -> (u32, u32);

/// The bytes of the PNG file that the `image` crate writes for an RGB image of
/// the given size and pixels, or `None` where its encoder reports an error.
pub uninterp spec fn png_encoding(width: u32, height: u32, pixels: Map<(u32, u32), (u8, u8, u8)>) -> Option<Seq<u8>>;

/// The coordinates of a `width` by `height` grid.
pub open spec fn grid(width: u32, height: u32) -> Set<(u32, u32)> {
    Set::new(|p: (u32, u32)| p.0 < width && p.1 < height)
}

/// A `width` by `height` image whose every pixel has the colour `c`.
pub open spec fn uniform_pixels(width: u32, height: u32, c: Colour) -> Map<(u32, u32), Colour> {
    Map::new(|p: (u32, u32)| p.0 < width && p.1 < height, |p: (u32, u32)| c)
}

/// `ImageBuffer::new(width, height)`: an image of the given size whose pixels
/// are all black. The crate computes the buffer length as `3 * width`, then
/// times `height`, with checked multiplications, and panics where either
/// overflows a `usize`; `requires` leaves those sizes out.
#[verifier::external_body]
pub(crate) fn new_image(width: u32, height: u32) -> (img: PixelBuffer)
    requires
        3 * width <= usize::MAX,
        3 * width * height <= usize::MAX,
    ensures
        image_size(img) == (width, height),
        image_pixels(img) == uniform_pixels(width, height, (0u8, 0u8, 0u8)),
{
    PixelBuffer { img: ImageBuffer::new(width, height) }
}

/// `ImageBuffer::put_pixel(x, y, Rgb(c))`: the pixel at `(x, y)` takes the
/// colour `c`; the size and every other pixel stay as they were. The crate
/// panics outside the image, which `requires` leaves out.
#[verifier::external_body]
pub(crate) fn put_pixel(img: &mut PixelBuffer, x: u32, y: u32, c: Colour)
    requires
        x < image_size(*old(img)).0,
        y < image_size(*old(img)).1,
    ensures
        image_size(*final(img)) == image_size(*old(img)),
        image_pixels(*final(img)) == image_pixels(*old(img)).insert((x, y), c),
{
    img.img.put_pixel(x, y, Rgb([c.0, c.1, c.2]))
}

/// `ImageBuffer::write_to` with `ImageOutputFormat::Png` into an in-memory
/// cursor: the written bytes, or `None` where the encoder returned an error.
/// What the bytes are is left to the name `png_encoding`. For an RGB image
/// the PNG encoder refuses only a zero width or a zero height (writing into a
/// `Vec` cannot fail), so a non-empty image always encodes.
#[verifier::external_body]
pub(crate) fn encode_png(img: &PixelBuffer) -> (png: Option<Vec<u8>>)
    ensures
        png_encoding(image_size(*img).0, image_size(*img).1, image_pixels(*img)) == match png {
            Some(bytes) => Some(bytes@),
            None => None::<Seq<u8>>,
        },
        image_size(*img).0 > 0 && image_size(*img).1 > 0 ==> png is Some,
{
    let mut out: Cursor<Vec<u8>> = Cursor::new(Vec::new());
    match img.img.write_to(&mut out, ImageOutputFormat::Png) {
        Ok(()) => Some(out.into_inner()),
        Err(_) => None,
    }
}

} // verus!
