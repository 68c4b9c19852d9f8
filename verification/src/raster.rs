//! RGBA pixel grids, held in an `image::RgbaImage`.
//!
//! The grid of the `image` crate is opaque to the verifier. Its size and its
//! pixels are modelled by three uninterpreted functions, gathered in the view
//! of [`RgbaImage`]; the few methods of the outside grid that the library
//! calls stand here as private functions whose contracts are trusted. All the
//! public methods are verified against those contracts.

use image::{AnimationDecoder, Rgba};
use vstd::prelude::*;

verus! {

/// `image::Rgba`, a pixel of four channels; the verifier reads its one
/// field, the array of the channels.
#[verifier::external_type_specification]
pub struct ExRgba<T>(image::Rgba<T>);

/// A grid of RGBA pixels, `width` by `height`, origin at the top left. The
/// grid is an `image::RgbaImage`, which the verifier does not look into.
#[verifier::external_body]
pub struct RgbaImage {
    inner: image::RgbaImage,
}

/// The number of pixel columns of the grid.
pub uninterp spec fn grid_width(image: RgbaImage) -> nat;

/// The number of pixel rows of the grid.
pub uninterp spec fn grid_height(image: RgbaImage) -> nat;

/// The pixels of the grid in row-major order, top row first.
pub uninterp spec fn grid_pixels(image: RgbaImage) -> Seq<Rgba<u8>>;

/// What an image is: its size and its pixels in row-major order.
pub struct ImageView {
    pub width: nat,
    pub height: nat,
    pub pixels: Seq<Rgba<u8>>,
}

impl View for RgbaImage {
    type V = ImageView;

    open spec fn view(&self) -> ImageView {
        ImageView {
            width: grid_width(*self),
            height: grid_height(*self),
            pixels: grid_pixels(*self),
        }
    }
}

/// The pixel with the given channels.
pub open spec fn rgba(r: u8, g: u8, b: u8, a: u8) -> Rgba<u8> {
    Rgba([r, g, b, a])
}

/// The fill of a new image: all four channels zero.
pub open spec fn clear_pixel() -> Rgba<u8> {
    rgba(0, 0, 0, 0)
}

/// Whether a grid of this size can be allocated: four bytes per pixel, and no
/// allocation may pass `isize::MAX` bytes.
pub open spec fn allocatable(width: int, height: int) -> bool {
    4 * width * height <= isize::MAX
}

/// A blank image of the given size.
pub open spec fn blank(width: nat, height: nat) -> ImageView {
    ImageView { width, height, pixels: Seq::new(width * height, |i: int| clear_pixel()) }
}

impl ImageView {
    /// The pixel count agrees with the size, and the size is one that can
    /// be allocated.
    pub open spec fn wf(self) -> bool {
        &&& self.pixels.len() == self.width * self.height
        &&& allocatable(self.width as int, self.height as int)
    }

    /// The pixel in column `x` of row `y`.
    pub open spec fn at(self, x: int, y: int) -> Rgba<u8>
        recommends
            0 <= x < self.width,
            0 <= y < self.height,
    {
        self.pixels[y * self.width + x]
    }
}

/// The position of `(x, y)` in row-major order lies inside the grid.
pub proof fn lemma_index_in_grid(x: int, y: int, width: int, height: int)
    requires
        0 <= x < width,
        0 <= y < height,
    ensures
        0 <= y * width + x < width * height,
        y * width + x < (y + 1) * width,
        (y + 1) * width <= width * height,
        (y + 1) * width == y * width + width,
{
    assert(y * width >= 0) by (nonlinear_arith)
        requires
            y >= 0,
            width > 0,
    ;
    assert((y + 1) * width == y * width + width) by (nonlinear_arith);
    assert((y + 1) * width <= height * width) by (nonlinear_arith)
        requires
            y + 1 <= height,
            width > 0,
    ;
    assert(height * width == width * height) by (nonlinear_arith);
}

/// A product of two bounded naturals is bounded by the product of the bounds.
pub proof fn lemma_product_bounded(a: int, b: int, a_max: int, b_max: int)
    requires
        0 <= a <= a_max,
        0 <= b <= b_max,
    ensures
        0 <= a * b <= a_max * b_max,
{
    assert(0 <= a * b <= a_max * b_max) by (nonlinear_arith)
        requires
            0 <= a <= a_max,
            0 <= b <= b_max,
    ;
}

/// Not verified: `image::ImageBuffer::new`. The grid has the size asked for and
/// every channel of every pixel is zero. It panics when the buffer, four
/// bytes per pixel, would pass the largest allocation.
#[verifier::external_body]
fn grid_new(width: u32, height: u32) -> (image: RgbaImage)
    requires
        allocatable(width as int, height as int),
    ensures
        grid_width(image) == width,
        grid_height(image) == height,
        grid_pixels(image) == Seq::new((width * height) as nat, |i: int| clear_pixel()),
{
    RgbaImage { inner: image::RgbaImage::new(width, height) }
}

/// Not verified: `image::ImageBuffer::width`. The grid holds exactly
/// `width * height` pixels, and its buffer of four bytes per pixel, being a
/// `Vec`, is no longer than `isize::MAX` bytes.
#[verifier::external_body]
fn grid_width_of(image: &RgbaImage) -> (width: u32)
    ensures
        width == grid_width(*image),
        grid_pixels(*image).len() == width * grid_height(*image),
        4 * width * grid_height(*image) <= isize::MAX,
{
    image.inner.width()
}

/// Not verified: `image::ImageBuffer::height`. The grid holds exactly
/// `width * height` pixels, and its buffer of four bytes per pixel, being a
/// `Vec`, is no longer than `isize::MAX` bytes.
#[verifier::external_body]
fn grid_height_of(image: &RgbaImage) -> (height: u32)
    ensures
        height == grid_height(*image),
        grid_pixels(*image).len() == grid_width(*image) * height,
        4 * grid_width(*image) * height <= isize::MAX,
{
    image.inner.height()
}

/// Not verified: `image::ImageBuffer::get_pixel`, which panics outside the
/// grid. The pixel at `(x, y)` is the one at `y * width + x` in row-major order.
#[verifier::external_body]
fn grid_get(image: &RgbaImage, x: u32, y: u32) -> (pixel: Rgba<u8>)
    requires
        x < grid_width(*image),
        y < grid_height(*image),
    ensures
        pixel == grid_pixels(*image)[y as int * grid_width(*image) as int + x as int],
{
    *image.inner.get_pixel(x, y)
}

/// Not verified: `image::ImageBuffer::put_pixel`, which panics outside the
/// grid. It replaces the pixel at `(x, y)` and nothing else.
#[verifier::external_body]
fn grid_put(image: &mut RgbaImage, x: u32, y: u32, pixel: Rgba<u8>)
    requires
        x < grid_width(*old(image)),
        y < grid_height(*old(image)),
    ensures
        grid_width(*final(image)) == grid_width(*old(image)),
        grid_height(*final(image)) == grid_height(*old(image)),
        grid_pixels(*final(image)) == grid_pixels(*old(image)).update(
            y as int * grid_width(*old(image)) as int + x as int,
            pixel,
        ),
{
    image.inner.put_pixel(x, y, pixel)
}

/// Not verified: `Clone` for `image::ImageBuffer`, which copies the size and
/// the pixel buffer.
#[verifier::external_body]
fn grid_clone(image: &RgbaImage) -> (copy: RgbaImage)
    ensures
        grid_width(copy) == grid_width(*image),
        grid_height(copy) == grid_height(*image),
        grid_pixels(copy) == grid_pixels(*image),
{
    RgbaImage { inner: image.inner.clone() }
}

/// What the `image` crate reads out of a PNG file: the image, or the text
/// of the error that it gives for the file.
pub uninterp spec fn png_image(bytes: Seq<u8>) -> Result<ImageView, Seq<char>>;

/// What the `image` crate reads out of a BMP file: the image, or the text
/// of the error that it gives for the file.
pub uninterp spec fn bmp_image(bytes: Seq<u8>) -> Result<ImageView, Seq<char>>;

/// What the `image` crate reads out of a GIF file: all its frames, or the
/// text of the first error that it gives for the file.
pub uninterp spec fn gif_images(bytes: Seq<u8>) -> Result<Seq<ImageView>, Seq<char>>;

/// The views of a list of images, in order.
pub open spec fn image_views(images: Seq<RgbaImage>) -> Seq<ImageView> {
    Seq::new(images.len(), |i: int| images[i]@)
}

/// Not verified: `image::ImageReader::with_format` for PNG, `decode`, and
/// `DynamicImage::to_rgba8`; for a file that is rejected, the text that the
/// `Display` of `image::ImageError` gives. What is read depends on the bytes
/// alone; an image that was read holds `width * height` pixels.
#[verifier::external_body]
pub(crate) fn read_png(bytes: &[u8]) -> (read: Result<RgbaImage, String>)
    ensures
        match read {
            Ok(image) => png_image(bytes@) == Ok::<ImageView, Seq<char>>(image@) && image@.wf(),
            Err(text) => png_image(bytes@) == Err::<ImageView, Seq<char>>(text@),
        },
{
    let reader = image::ImageReader::with_format(std::io::Cursor::new(bytes), image::ImageFormat::Png);
    match reader.decode() {
        Ok(image) => Ok(RgbaImage { inner: image.to_rgba8() }),
        Err(error) => Err(error.to_string()),
    }
}

/// Not verified: `image::ImageReader::with_format` for BMP, `decode`, and
/// `DynamicImage::to_rgba8`; for a file that is rejected, the text that the
/// `Display` of `image::ImageError` gives. What is read depends on the bytes
/// alone; an image that was read holds `width * height` pixels.
#[verifier::external_body]
pub(crate) fn read_bmp(bytes: &[u8]) -> (read: Result<RgbaImage, String>)
    ensures
        match read {
            Ok(image) => bmp_image(bytes@) == Ok::<ImageView, Seq<char>>(image@) && image@.wf(),
            Err(text) => bmp_image(bytes@) == Err::<ImageView, Seq<char>>(text@),
        },
{
    let reader = image::ImageReader::with_format(std::io::Cursor::new(bytes), image::ImageFormat::Bmp);
    match reader.decode() {
        Ok(image) => Ok(RgbaImage { inner: image.to_rgba8() }),
        Err(error) => Err(error.to_string()),
    }
}

/// Not verified: `image::codecs::gif::GifDecoder::new`, `into_frames`,
/// `collect_frames` and `Frame::into_buffer`; for a file that is rejected,
/// the text that the `Display` of `image::ImageError` gives. What is read
/// depends on the bytes alone; every frame that was read holds
/// `width * height` pixels.
#[verifier::external_body]
pub(crate) fn read_gif(bytes: &[u8]) -> (read: Result<Vec<RgbaImage>, String>)
    ensures
        match read {
            Ok(images) => gif_images(bytes@) == Ok::<Seq<ImageView>, Seq<char>>(
                image_views(images@),
            ) && forall|i: int| 0 <= i < images@.len() ==> (#[trigger] images@[i])@.wf(),
            Err(text) => gif_images(bytes@) == Err::<Seq<ImageView>, Seq<char>>(text@),
        },
{
    let frames = match image::codecs::gif::GifDecoder::new(std::io::Cursor::new(bytes)) {
        Ok(decoder) => decoder.into_frames().collect_frames(),
        Err(error) => Err(error),
    };
    match frames {
        Ok(frames) => Ok(frames.into_iter().map(|frame| RgbaImage { inner: frame.into_buffer() }).collect()),
        Err(error) => Err(error.to_string()),
    }
}

/// Whether `4 * width * height` bytes can be allocated.
pub fn can_allocate(width: u32, height: u32) -> (fits: bool)
    ensures
        fits == allocatable(width as int, height as int),
{
    proof {
        lemma_product_bounded(width as int, height as int, u32::MAX as int, u32::MAX as int);
        assert(4 * width * height == 4 * (width * height)) by (nonlinear_arith);
    }
    let pixels: u64 = (width as u64) * (height as u64);
    pixels <= (isize::MAX as u64) / 4
}

impl RgbaImage {
    /// A blank image, or `None` when one of this size cannot be allocated.
    pub fn new(width: u32, height: u32) -> (made: Option<RgbaImage>)
        ensures
            made is Some <==> allocatable(width as int, height as int),
            made matches Some(image) ==> image@ == blank(width as nat, height as nat) && image@.wf(),
    {
        if can_allocate(width, height) {
            Some(grid_new(width, height))
        } else {
            None
        }
    }

    /// The image with the given pixels in row-major order, or `None` when
    /// their number is not `width * height` or the image cannot be allocated.
    pub fn from_pixels(width: u32, height: u32, pixels: &Vec<Rgba<u8>>) -> (made: Option<RgbaImage>)
        ensures
            made is Some <==> pixels@.len() == width * height && allocatable(
                width as int,
                height as int,
            ),
            made matches Some(image) ==> image@ == (ImageView {
                width: width as nat,
                height: height as nat,
                pixels: pixels@,
            }) && image@.wf(),
    {
        proof {
            lemma_product_bounded(width as int, height as int, u32::MAX as int, u32::MAX as int);
        }
        if (pixels.len() as u64) != (width as u64) * (height as u64) {
            return None;
        }
        if !can_allocate(width, height) {
            return None;
        }
        Some(RgbaImage::with_pixels(width, height, pixels))
    }

    /// The image with the given pixels in row-major order, for a size that
    /// is known to fit them and to be one that can be allocated.
    pub fn with_pixels(width: u32, height: u32, pixels: &Vec<Rgba<u8>>) -> (image: RgbaImage)
        requires
            pixels@.len() == width * height,
            allocatable(width as int, height as int),
        ensures
            image@ == (ImageView {
                width: width as nat,
                height: height as nat,
                pixels: pixels@,
            }),
            image@.wf(),
    {
        let mut image = grid_new(width, height);
        let count = pixels.len();
        let mut i: usize = 0;
        let mut y: u32 = 0;
        while y < height
            invariant
                0 <= y <= height,
                i == y * width,
                count == pixels@.len(),
                pixels@.len() == width * height,
                image@.width == width,
                image@.height == height,
                image@.pixels.len() == width * height,
                forall|j: int| 0 <= j < i ==> image@.pixels[j] == pixels@[j],
            decreases height - y,
        {
            let mut x: u32 = 0;
            while x < width
                invariant
                    0 <= x <= width,
                    0 <= y < height,
                    i == y * width + x,
                    count == pixels@.len(),
                    pixels@.len() == width * height,
                    image@.width == width,
                    image@.height == height,
                    image@.pixels.len() == width * height,
                    forall|j: int| 0 <= j < i ==> image@.pixels[j] == pixels@[j],
                decreases width - x,
            {
                proof {
                    lemma_index_in_grid(x as int, y as int, width as int, height as int);
                }
                grid_put(&mut image, x, y, pixels[i]);
                i += 1;
                x += 1;
            }
            proof {
                assert((y + 1) * width == y * width + width) by (nonlinear_arith);
            }
            y += 1;
        }
        proof {
            assert(height * width == width * height) by (nonlinear_arith);
            assert(image@.pixels =~= pixels@);
        }
        image
    }

    /// An image of the given size with every pixel of one colour, or `None`
    /// when it cannot be allocated.
    pub fn filled(width: u32, height: u32, color: Rgba<u8>) -> (made: Option<RgbaImage>)
        ensures
            made is Some <==> allocatable(width as int, height as int),
            made matches Some(image) ==> image@ == (ImageView {
                width: width as nat,
                height: height as nat,
                pixels: Seq::new((width * height) as nat, |i: int| color),
            }) && image@.wf(),
    {
        if !can_allocate(width, height) {
            return None;
        }
        let mut image = grid_new(width, height);
        let ghost mut done: int = 0;
        let mut y: u32 = 0;
        while y < height
            invariant
                0 <= y <= height,
                done == y * width,
                image@.width == width,
                image@.height == height,
                image@.pixels.len() == width * height,
                forall|j: int| 0 <= j < done ==> image@.pixels[j] == color,
            decreases height - y,
        {
            let mut x: u32 = 0;
            while x < width
                invariant
                    0 <= x <= width,
                    0 <= y < height,
                    done == y * width + x,
                    image@.width == width,
                    image@.height == height,
                    image@.pixels.len() == width * height,
                    forall|j: int| 0 <= j < done ==> image@.pixels[j] == color,
                decreases width - x,
            {
                proof {
                    lemma_index_in_grid(x as int, y as int, width as int, height as int);
                }
                grid_put(&mut image, x, y, color);
                proof {
                    done = done + 1;
                }
                x += 1;
            }
            proof {
                assert((y + 1) * width == y * width + width) by (nonlinear_arith);
            }
            y += 1;
        }
        proof {
            assert(height * width == width * height) by (nonlinear_arith);
            assert(image@.pixels =~= Seq::new((width * height) as nat, |i: int| color));
        }
        Some(image)
    }

    /// The number of pixel columns.
    pub fn width(&self) -> (width: u32)
        ensures
            width == self@.width,
            self@.wf(),
    {
        grid_width_of(self)
    }

    /// The number of pixel rows.
    pub fn height(&self) -> (height: u32)
        ensures
            height == self@.height,
            self@.wf(),
    {
        grid_height_of(self)
    }

    /// The pixel at `(x, y)`, or `None` outside the image.
    pub fn pixel(&self, x: u32, y: u32) -> (found: Option<Rgba<u8>>)
        ensures
            found == if x < self@.width && y < self@.height {
                Some(self@.at(x as int, y as int))
            } else {
                None
            },
    {
        if x < grid_width_of(self) && y < grid_height_of(self) {
            Some(grid_get(self, x, y))
        } else {
            None
        }
    }

    /// The pixel at `(x, y)` of an image that has such a pixel.
    pub fn get_pixel(&self, x: u32, y: u32) -> (pixel: Rgba<u8>)
        requires
            x < self@.width,
            y < self@.height,
        ensures
            pixel == self@.at(x as int, y as int),
    {
        grid_get(self, x, y)
    }

    /// Replaces the pixel at `(x, y)` of an image that has such a pixel.
    pub fn put_pixel(&mut self, x: u32, y: u32, pixel: Rgba<u8>)
        requires
            x < old(self)@.width,
            y < old(self)@.height,
        ensures
            final(self)@.width == old(self)@.width,
            final(self)@.height == old(self)@.height,
            final(self)@.pixels == old(self)@.pixels.update(
                y as int * old(self)@.width as int + x as int,
                pixel,
            ),
    {
        grid_put(self, x, y, pixel)
    }

    /// Replaces the pixel at `(x, y)` and says so, or leaves an image without
    /// such a pixel unchanged.
    pub fn set_pixel(&mut self, x: u32, y: u32, pixel: Rgba<u8>) -> (inside: bool)
        ensures
            inside == (x < old(self)@.width && y < old(self)@.height),
            inside ==> final(self)@ == (ImageView {
                pixels: old(self)@.pixels.update(
                    y as int * old(self)@.width as int + x as int,
                    pixel,
                ),
                ..old(self)@
            }),
            !inside ==> final(self)@ == old(self)@,
    {
        if x < grid_width_of(self) && y < grid_height_of(self) {
            grid_put(self, x, y, pixel);
            true
        } else {
            false
        }
    }
}

impl Clone for RgbaImage {
    fn clone(&self) -> (copy: RgbaImage)
        ensures
            copy@ == self@,
    {
        grid_clone(self)
    }
}

} // verus!
