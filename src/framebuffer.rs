//! The shared framebuffer: an RGBA image of the output size, written by the
//! workers in batches of finished pixels.
use vstd::prelude::*;

verus! {

/// The shared framebuffer: an image crate RGBA buffer. Verus sees it only
/// through the names below and the wrappers that call into it.
#[verifier::external_body]
pub struct Framebuffer {
    pub image: image::RgbaImage,
}

/// What an image holds: the four channels of each pixel, by column and row.
pub uninterp spec fn image_pixels(img: Framebuffer) -> Map<(u32, u32), [u8; 4]>;

/// The width an image was made with.
pub uninterp spec fn image_width(img: Framebuffer) -> u32;

/// The height an image was made with.
pub uninterp spec fn image_height(img: Framebuffer) -> u32;

/// The positions inside a `width` by `height` image.
pub open spec fn in_bounds(width: u32, height: u32) -> Set<(u32, u32)> {
    Set::new(|c: (u32, u32)| c.0 < width && c.1 < height)
}

/// Relies on image's `ImageBuffer::new`: an image of the given size whose
/// samples are all zero. It panics when `4 * width * height` overflows `usize`.
#[verifier::external_body]
fn new_image(width: u32, height: u32) -> (img: Framebuffer)
    requires
        4 * width * height <= usize::MAX,
    ensures
        image_width(img) == width,
        image_height(img) == height,
        image_pixels(img).dom() == in_bounds(width, height),
        forall|c: (u32, u32)| #[trigger] image_pixels(img).contains_key(c) ==> image_pixels(img)[c]
            == [0u8, 0u8, 0u8, 0u8],
{
    Framebuffer { image: image::RgbaImage::new(width, height) }
}

/// Relies on image's `ImageBuffer::put_pixel`: sets one in-bounds pixel and
/// nothing else. It panics out of bounds.
#[verifier::external_body]
fn put_pixel(img: &mut Framebuffer, x: u32, y: u32, rgba: [u8; 4])
    requires
        x < image_width(*old(img)),
        y < image_height(*old(img)),
    ensures
        image_width(*final(img)) == image_width(*old(img)),
        image_height(*final(img)) == image_height(*old(img)),
        image_pixels(*final(img)) == image_pixels(*old(img)).insert((x, y), rgba),
{
    img.image.put_pixel(x, y, image::Rgba(rgba))
}

/// A black (all-zero) framebuffer of the given size, or `None` when its
/// samples would not fit in memory addressable by `usize`.
pub fn framebuffer(width: u32, height: u32) -> (r: Option<Framebuffer>)
    ensures
        r is Some <==> 4 * width * height <= usize::MAX,
        r matches Some(img) ==> {
            &&& image_width(img) == width
            &&& image_height(img) == height
            &&& image_pixels(img).dom() == in_bounds(width, height)
            &&& forall|c: (u32, u32)| #[trigger] image_pixels(img).contains_key(c)
                ==> image_pixels(img)[c] == [0u8, 0u8, 0u8, 0u8]
        },
{
    let w = width as usize;
    let h = height as usize;
    if h == 0 {
        return Some(new_image(width, height));
    }
    match 4usize.checked_mul(w) {
        Some(a) => match a.checked_mul(h) {
            Some(_) => Some(new_image(width, height)),
            None => None,
        },
        None => {
            assert(4 * width * height >= 4 * width) by (nonlinear_arith)
                requires
                    height >= 1,
            ;
            None
        },
    }
}

/// A finished pixel: column, row and its RGBA channels.
pub type PixelWrite = (u32, u32, [u8; 4]);

/// The image after writing `w` in order: a later write to a position wins.
pub open spec fn apply_writes(m: Map<(u32, u32), [u8; 4]>, w: Seq<PixelWrite>) -> Map<(u32, u32), [u8; 4]>
    decreases w.len(),
{
    if w.len() == 0 {
        m
    } else {
        let last = w.last();
        apply_writes(m, w.drop_last()).insert((last.0, last.1), last.2)
    }
}

/// More pending pixels than this make a batch ready to flush.
pub const FLUSH_THRESHOLD: usize = 250;

/// The pixels that one worker has finished but not yet written to the shared
/// framebuffer.
pub struct PixelBatch {
    pub width: u32,
    pub height: u32,
    pub pending: Vec<PixelWrite>,
}

impl PixelBatch {
    /// Every pending pixel lies inside the image.
    pub open spec fn wf(&self) -> bool {
        forall|k: int| 0 <= k < self.pending@.len() ==> in_bounds(self.width, self.height).contains(
            ((#[trigger] self.pending@[k]).0, self.pending@[k].1),
        )
    }

    /// An empty batch for an image of the given size.
    pub fn new(width: u32, height: u32) -> (r: PixelBatch)
        ensures
            r.width == width,
            r.height == height,
            r.pending@.len() == 0,
            r.wf(),
    {
        PixelBatch { width, height, pending: Vec::new() }
    }

    /// Adds a finished pixel; returns whether the batch is now due to be flushed.
    pub fn push(&mut self, x: u32, y: u32, rgba: [u8; 4]) -> (due: bool)
        requires
            old(self).wf(),
            x < old(self).width,
            y < old(self).height,
        ensures
            final(self).wf(),
            final(self).width == old(self).width,
            final(self).height == old(self).height,
            final(self).pending@ == old(self).pending@.push((x, y, rgba)),
            due == (final(self).pending@.len() > FLUSH_THRESHOLD),
    {
        self.pending.push((x, y, rgba));
        self.pending.len() > FLUSH_THRESHOLD
    }

    /// Writes every pending pixel, in order, into `image` and empties the batch.
    pub fn flush_into(&mut self, image: &mut Framebuffer)
        requires
            old(self).wf(),
            image_width(*old(image)) == old(self).width,
            image_height(*old(image)) == old(self).height,
        ensures
            image_width(*final(image)) == image_width(*old(image)),
            image_height(*final(image)) == image_height(*old(image)),
            image_pixels(*final(image)) == apply_writes(image_pixels(*old(image)), old(self).pending@),
            final(self).wf(),
            final(self).width == old(self).width,
            final(self).height == old(self).height,
            final(self).pending@.len() == 0,
    {
        let ghost start = image_pixels(*image);
        let n = self.pending.len();
        let mut k: usize = 0;
        while k < n
            invariant
                n == self.pending@.len(),
                k <= n,
                self.wf(),
                image_width(*image) == self.width,
                image_height(*image) == self.height,
                image_pixels(*image) == apply_writes(start, self.pending@.take(k as int)),
            decreases n - k,
        {
            let (x, y, rgba) = self.pending[k];
            assert(in_bounds(self.width, self.height).contains((self.pending@[k as int].0, self.pending@[k as int].1)));
            put_pixel(image, x, y, rgba);
            assert(self.pending@.take(k + 1).drop_last() =~= self.pending@.take(k as int));
            k = k + 1;
        }
        assert(self.pending@.take(n as int) =~= self.pending@);
        self.pending.clear();
    }
}

} // verus!
