//! Pixels, images, and frames: images cut into square blocks.
use crate::arith::{lemma_div_bounds, lemma_mul_bounds, lemma_round_down};
use vstd::prelude::*;

verus! {

/// The colour of one pixel, or the payload of one block.
#[derive(Clone, Copy, Debug, PartialEq, Eq, Structural)]
pub struct Rgb {
    pub r: u8,
    pub g: u8,
    pub b: u8,
}

impl Rgb {
    /// The colour of a pixel that is stored as blue, green, red.
    pub fn from_bgr(bgr: [u8; 3]) -> (rgb: Rgb)
        ensures
            rgb == (Rgb { r: bgr[2], g: bgr[1], b: bgr[0] }),
    {
        Rgb { r: bgr[2], g: bgr[1], b: bgr[0] }
    }

    /// The colour as it is stored in a pixel of blue, green, red.
    pub fn to_bgr(&self) -> (bgr: [u8; 3])
        ensures
            bgr[0] == self.b,
            bgr[1] == self.g,
            bgr[2] == self.r,
    {
        [self.b, self.g, self.r]
    }
}

/// Width and height in pixels.
#[derive(Clone, Copy, Debug, PartialEq, Eq, Structural)]
pub struct Size {
    pub width: usize,
    pub height: usize,
}

/// The colour of a pixel that nothing was written to.
pub open spec fn unfilled() -> Rgb {
    Rgb { r: 0, g: 0, b: 0 }
}

/// Rows of `width` pixels each, `height` of them, few enough to be counted in
/// a `usize`.
pub open spec fn shaped(pixels: Seq<Seq<Rgb>>, width: int, height: int) -> bool {
    &&& pixels.len() == height
    &&& forall|y: int| 0 <= y < height ==> (#[trigger] pixels[y]).len() == width
    &&& 0 <= width
    &&& width * height <= usize::MAX
}

/// An image of the given shape in which every pixel is unfilled.
pub open spec fn blank(width: int, height: int) -> Seq<Seq<Rgb>> {
    Seq::new(height as nat, |y: int| Seq::new(width as nat, |x: int| unfilled()))
}

/// A pixel buffer: the rows of an image from top to bottom, each row from
/// left to right, each pixel in red, green, blue order.
pub struct Image {
    rows: Vec<Vec<Rgb>>,
    width: usize,
}

impl View for Image {
    type V = Seq<Seq<Rgb>>;

    /// The pixels, `self@[y][x]` being the one in row `y` and column `x`.
    closed spec fn view(&self) -> Seq<Seq<Rgb>> {
        Seq::new(self.rows@.len(), |y: int| self.rows@[y]@)
    }
}

impl Image {
    /// Number of pixels in a row.
    pub closed spec fn spec_width(&self) -> usize {
        self.width
    }

    /// Number of rows.
    pub closed spec fn spec_height(&self) -> usize {
        self.rows@.len() as usize
    }

    /// The pixels have the shape that width and height announce.
    pub open spec fn wf(&self) -> bool {
        shaped(self@, self.spec_width() as int, self.spec_height() as int)
    }

    /// A blank image.
    pub fn new(width: usize, height: usize) -> (image: Image)
        requires
            width * height <= usize::MAX,
        ensures
            image.wf(),
            image.spec_width() == width,
            image.spec_height() == height,
            image@ == blank(width as int, height as int),
    {
        let mut rows: Vec<Vec<Rgb>> = Vec::new();
        let mut y: usize = 0;
        while y < height
            invariant
                y <= height,
                rows@.len() == y,
                forall|j: int| 0 <= j < y ==> (#[trigger] rows@[j])@ == Seq::new(
                    width as nat,
                    |x: int| unfilled(),
                ),
            decreases height - y,
        {
            let mut row: Vec<Rgb> = Vec::new();
            let mut x: usize = 0;
            while x < width
                invariant
                    x <= width,
                    row@ == Seq::new(x as nat, |i: int| unfilled()),
                decreases width - x,
            {
                row.push(Rgb { r: 0, g: 0, b: 0 });
                x += 1;
            }
            rows.push(row);
            y += 1;
        }
        let image = Image { rows, width };
        assert(image@ =~= blank(width as int, height as int));
        image
    }

    /// Number of pixels in a row.
    #[verifier::when_used_as_spec(spec_width)]
    pub fn width(&self) -> (width: usize)
        ensures
            width == self.spec_width(),
    {
        self.width
    }

    /// Number of rows.
    #[verifier::when_used_as_spec(spec_height)]
    pub fn height(&self) -> (height: usize)
        ensures
            height == self.spec_height(),
    {
        self.rows.len()
    }

    /// The pixel in column `x` of row `y`.
    pub fn get(&self, x: usize, y: usize) -> (pixel: Rgb)
        requires
            self.wf(),
            x < self.spec_width(),
            y < self.spec_height(),
        ensures
            pixel == self@[y as int][x as int],
    {
        assert(self@[y as int] == self.rows@[y as int]@);
        self.rows[y][x]
    }

    /// Overwrites the pixel in column `x` of row `y`.
    pub fn set(&mut self, x: usize, y: usize, pixel: Rgb)
        requires
            old(self).wf(),
            x < old(self).spec_width(),
            y < old(self).spec_height(),
        ensures
            final(self).wf(),
            final(self).spec_width() == old(self).spec_width(),
            final(self).spec_height() == old(self).spec_height(),
            final(self)@ == old(self)@.update(
                y as int,
                old(self)@[y as int].update(x as int, pixel),
            ),
    {
        assert(self@[y as int] == self.rows@[y as int]@);
        self.rows[y][x] = pixel;
        assert(self@ =~= old(self)@.update(y as int, old(self)@[y as int].update(x as int, pixel)));
    }
}

/// What an `EmbedSource` is to a contract.
pub struct EmbedSourceView {
    pub image: Seq<Seq<Rgb>>,
    pub size: usize,
    pub frame_size: Size,
    pub actual_size: Size,
}

/// A frame together with the block size by which it is read or written.
pub struct EmbedSource {
    pub image: Image,
    /// Edge length of a block, in pixels.
    pub size: usize,
    /// Width and height of the image.
    pub frame_size: Size,
    /// The part of the image that whole blocks cover, from the top left corner.
    pub actual_size: Size,
}

impl View for EmbedSource {
    type V = EmbedSourceView;

    open spec fn view(&self) -> EmbedSourceView {
        EmbedSourceView {
            image: self.image@,
            size: self.size,
            frame_size: self.frame_size,
            actual_size: self.actual_size,
        }
    }
}

impl EmbedSourceView {
    /// The view of a well-formed frame: a block size of at least one pixel, an
    /// image of the announced size, and the area that whole blocks cover.
    pub open spec fn wf(&self) -> bool {
        &&& 1 <= self.size
        &&& shaped(self.image, self.frame_size.width as int, self.frame_size.height as int)
        &&& self.actual_size.width == self.frame_size.width - self.frame_size.width % self.size
        &&& self.actual_size.height == self.frame_size.height - self.frame_size.height
            % self.size
    }

    /// Blocks in one row.
    pub open spec fn block_cols(&self) -> int {
        self.actual_size.width as int / self.size as int
    }

    /// Rows of blocks.
    pub open spec fn block_rows(&self) -> int {
        self.actual_size.height as int / self.size as int
    }

    /// Blocks in the frame.
    pub open spec fn capacity(&self) -> int {
        self.block_cols() * self.block_rows()
    }
}

/// The view of the frame that `EmbedSource::new` makes.
pub open spec fn blank_frame(size: usize, width: usize, height: usize) -> EmbedSourceView {
    EmbedSourceView {
        image: blank(width as int, height as int),
        size,
        frame_size: Size { width, height },
        actual_size: Size {
            width: (width - width % size) as usize,
            height: (height - height % size) as usize,
        },
    }
}

/// The view of the frame that `EmbedSource::from` makes of an image.
pub open spec fn frame_of(
    image: Seq<Seq<Rgb>>,
    width: usize,
    height: usize,
    size: usize,
) -> EmbedSourceView {
    EmbedSourceView {
        image,
        size,
        frame_size: Size { width, height },
        actual_size: Size {
            width: (width - width % size) as usize,
            height: (height - height % size) as usize,
        },
    }
}

/// In a well-formed frame the blocks lie inside the image and can be counted
/// in a `usize`.
pub proof fn lemma_frame_geometry(v: EmbedSourceView)
    requires
        v.wf(),
    ensures
        v.block_cols() == v.frame_size.width as int / v.size as int,
        v.block_rows() == v.frame_size.height as int / v.size as int,
        0 <= v.block_cols(),
        0 <= v.block_rows(),
        v.block_cols() * v.size == v.actual_size.width <= v.frame_size.width,
        v.block_rows() * v.size == v.actual_size.height <= v.frame_size.height,
        0 <= v.capacity() <= v.frame_size.width * v.frame_size.height <= usize::MAX,
{
    let w = v.frame_size.width as int;
    let h = v.frame_size.height as int;
    let s = v.size as int;
    lemma_round_down(w, s);
    lemma_round_down(h, s);
    lemma_div_bounds(w, s);
    lemma_div_bounds(h, s);
    lemma_div_bounds(w / s, 1);
    assert(w / s <= w) by (nonlinear_arith)
        requires
            0 <= w,
            1 <= s,
            (w / s) * s <= w,
            0 <= w / s,
    ;
    assert(h / s <= h) by (nonlinear_arith)
        requires
            0 <= h,
            1 <= s,
            (h / s) * s <= h,
            0 <= h / s,
    ;
    lemma_mul_bounds(w / s, w, h / s, h);
}

impl EmbedSource {
    /// Whether the frame is well-formed (see `EmbedSourceView::wf`).
    pub open spec fn wf(&self) -> bool {
        &&& self@.wf()
        &&& self.image.wf()
        &&& self.image.spec_width() == self.frame_size.width
        &&& self.image.spec_height() == self.frame_size.height
    }

    /// A blank frame of the given size, to be written in blocks of `size`
    /// pixels.
    pub fn new(size: usize, width: usize, height: usize) -> (source: EmbedSource)
        requires
            1 <= size,
            width * height <= usize::MAX,
        ensures
            source.wf(),
            source@ == blank_frame(size, width, height),
    {
        let image = Image::new(width, height);
        proof {
            lemma_div_bounds(width as int, size as int);
            lemma_div_bounds(height as int, size as int);
        }
        let actual_size = Size { width: width - width % size, height: height - height % size };
        EmbedSource { image, size, frame_size: Size { width, height }, actual_size }
    }

    /// The frame that holds the given image, to be read in blocks of `size`
    /// pixels.
    pub fn from(image: Image, size: usize) -> (source: EmbedSource)
        requires
            1 <= size,
            image.wf(),
        ensures
            source.wf(),
            source@ == frame_of(image@, image.spec_width(), image.spec_height(), size),
    {
        let width = image.width();
        let height = image.height();
        proof {
            lemma_div_bounds(width as int, size as int);
            lemma_div_bounds(height as int, size as int);
        }
        let actual_size = Size { width: width - width % size, height: height - height % size };
        EmbedSource { image, size, frame_size: Size { width, height }, actual_size }
    }

    /// Blocks in one row.
    pub fn block_cols(&self) -> (cols: usize)
        requires
            self.wf(),
        ensures
            cols == self@.block_cols(),
    {
        self.actual_size.width / self.size
    }

    /// Rows of blocks.
    pub fn block_rows(&self) -> (rows: usize)
        requires
            self.wf(),
        ensures
            rows == self@.block_rows(),
    {
        self.actual_size.height / self.size
    }

    /// Blocks in the frame.
    pub fn capacity(&self) -> (blocks: usize)
        requires
            self.wf(),
        ensures
            blocks == self@.capacity(),
    {
        proof {
            lemma_frame_geometry(self@);
        }
        self.block_cols() * self.block_rows()
    }
}

} // verus!
