//! The framebuffer: a fixed-size grid of pixels, three bytes each, stored
//! row by row with row 0 first.

use vstd::prelude::*;

verus! {

/// One pixel as it is stored: red, green and blue, eight bits each.
#[derive(Clone, Copy, Debug, PartialEq, Eq, Structural)]
pub struct Rgb {
    pub r: u8,
    pub g: u8,
    pub b: u8,
}

impl Rgb {
    pub fn new(r: u8, g: u8, b: u8) -> (c: Rgb)
        ensures
            c == (Rgb { r, g, b }),
    {
        Rgb { r, g, b }
    }
}

/// Where pixel `(x, y)` starts in a row-major buffer of `width` pixels per
/// row and three bytes per pixel.
pub open spec fn offset(width: nat, x: nat, y: nat) -> nat {
    3 * (y * width + x)
}

/// What an image is: its two dimensions and its bytes.
pub struct ImageView {
    pub width: nat,
    pub height: nat,
    pub bytes: Seq<u8>,
}

impl ImageView {
    /// The buffer holds exactly three bytes for each pixel of the grid.
    pub open spec fn wf(self) -> bool {
        self.bytes.len() == 3 * self.width * self.height
    }

    /// `(x, y)` names a pixel of the grid.
    pub open spec fn contains(self, x: nat, y: nat) -> bool {
        x < self.width && y < self.height
    }

    /// The pixel stored at `(x, y)`.
    pub open spec fn pixel(self, x: nat, y: nat) -> Rgb
        recommends
            self.wf(),
            self.contains(x, y),
    {
        let i = offset(self.width, x, y) as int;
        Rgb { r: self.bytes[i], g: self.bytes[i + 1], b: self.bytes[i + 2] }
    }

    /// The image of the given size in which every byte is zero.
    pub open spec fn blank(width: nat, height: nat) -> ImageView {
        ImageView { width, height, bytes: Seq::new(3 * width * height, |i: int| 0u8) }
    }

    /// The image after a tolerant write: inside the grid the three bytes of
    /// pixel `(x, y)` become `c`; outside it nothing changes.
    pub open spec fn put(self, x: nat, y: nat, c: Rgb) -> ImageView {
        if self.contains(x, y) {
            let i = offset(self.width, x, y) as int;
            ImageView {
                width: self.width,
                height: self.height,
                bytes: self.bytes.update(i, c.r).update(i + 1, c.g).update(i + 2, c.b),
            }
        } else {
            self
        }
    }
}

/// The three bytes of a pixel inside the grid lie inside the buffer.
pub proof fn lemma_offset_in_buffer(width: nat, height: nat, x: nat, y: nat)
    requires
        x < width,
        y < height,
    ensures
        offset(width, x, y) + 3 <= 3 * width * height,
{
    assert(y * width + x + 1 <= height * width) by (nonlinear_arith)
        requires
            x < width,
            y < height,
    ;
    assert(3 * width * height == 3 * (height * width)) by (nonlinear_arith);
}

/// Two different pixels of one grid start at least three bytes apart, so
/// their byte triples never overlap.
pub proof fn lemma_offsets_apart(width: nat, x1: nat, y1: nat, x2: nat, y2: nat)
    requires
        x1 < width,
        x2 < width,
        x1 != x2 || y1 != y2,
    ensures
        offset(width, x1, y1) + 3 <= offset(width, x2, y2) || offset(width, x2, y2) + 3 <= offset(
            width,
            x1,
            y1,
        ),
{
    if y1 < y2 {
        assert(y1 * width + x1 + 1 <= y2 * width + x2) by (nonlinear_arith)
            requires
                x1 < width,
                y1 < y2,
        ;
    } else if y2 < y1 {
        assert(y2 * width + x2 + 1 <= y1 * width + x1) by (nonlinear_arith)
            requires
                x2 < width,
                y2 < y1,
        ;
    }
}

/// A write never changes the size of an image, and keeps the buffer whole.
pub proof fn lemma_put_keeps_shape(v: ImageView, x: nat, y: nat, c: Rgb)
    requires
        v.wf(),
    ensures
        v.put(x, y, c).wf(),
        v.put(x, y, c).width == v.width,
        v.put(x, y, c).height == v.height,
        v.put(x, y, c).bytes.len() == v.bytes.len(),
{
    if v.contains(x, y) {
        lemma_offset_in_buffer(v.width, v.height, x, y);
    }
}

/// A pixel written inside the grid reads back as the colour written.
pub proof fn lemma_put_then_read(v: ImageView, x: nat, y: nat, c: Rgb)
    requires
        v.wf(),
        v.contains(x, y),
    ensures
        v.put(x, y, c).pixel(x, y) == c,
{
    lemma_offset_in_buffer(v.width, v.height, x, y);
}

/// A write inside the grid leaves every other pixel as it was.
pub proof fn lemma_put_keeps_others(v: ImageView, x: nat, y: nat, c: Rgb, x2: nat, y2: nat)
    requires
        v.wf(),
        v.contains(x2, y2),
        x != x2 || y != y2,
    ensures
        v.put(x, y, c).pixel(x2, y2) == v.pixel(x2, y2),
{
    if v.contains(x, y) {
        lemma_offset_in_buffer(v.width, v.height, x, y);
        lemma_offset_in_buffer(v.width, v.height, x2, y2);
        lemma_offsets_apart(v.width, x, y, x2, y2);
    }
}

/// A write outside the grid changes nothing at all.
pub proof fn lemma_put_outside_is_noop(v: ImageView, x: nat, y: nat, c: Rgb)
    requires
        x >= v.width || y >= v.height,
    ensures
        v.put(x, y, c) == v,
{
}

/// A grid of `width` by `height` pixels over a flat byte buffer.
pub struct Image {
    width: usize,
    height: usize,
    pixels: Vec<u8>,
}

impl View for Image {
    type V = ImageView;

    closed spec fn view(&self) -> ImageView {
        ImageView { width: self.width as nat, height: self.height as nat, bytes: self.pixels@ }
    }
}

impl Image {
    /// Holds of every image there is: the buffer is three bytes per pixel.
    #[verifier::type_invariant]
    spec fn inv(self) -> bool {
        self@.wf()
    }

    /// A zero-filled image. Either dimension may be zero, which gives an
    /// empty buffer.
    pub fn from(width: usize, height: usize) -> (img: Image)
        requires
            3 * width * height <= usize::MAX,
        ensures
            img@.wf(),
            img@ == ImageView::blank(width as nat, height as nat),
            img@.bytes.len() == 3 * width * height,
            forall|i: int| 0 <= i < img@.bytes.len() ==> img@.bytes[i] == 0u8,
    {
        let size: usize = if width == 0 || height == 0 {
            assert(3 * width * height == 0) by (nonlinear_arith)
                requires
                    width == 0 || height == 0,
            ;
            0
        } else {
            assert(width * height <= 3 * width * height && 3 * (width * height) == 3 * width
                * height) by (nonlinear_arith)
                requires
                    width >= 1,
                    height >= 1,
            ;
            3 * (width * height)
        };
        let pixels: Vec<u8> = vec![0u8; size];
        let img = Image { width, height, pixels };
        assert(img@.bytes =~= ImageView::blank(width as nat, height as nat).bytes);
        img
    }

    pub fn width(&self) -> (w: usize)
        ensures
            w == self@.width,
    {
        self.width
    }

    pub fn height(&self) -> (h: usize)
        ensures
            h == self@.height,
    {
        self.height
    }

    /// The stored bytes, row 0 first, red before green before blue.
    pub fn bytes(&self) -> (b: &Vec<u8>)
        ensures
            b@ == self@.bytes,
            b@.len() == 3 * self@.width * self@.height,
            self@.wf(),
    {
        proof {
            use_type_invariant(self);
        }
        &self.pixels
    }

    /// The buffer position of the first byte of pixel `(x, y)`.
    pub fn index(&self, x: usize, y: usize) -> (i: usize)
        requires
            offset(self@.width, x as nat, y as nat) <= usize::MAX,
        ensures
            i == offset(self@.width, x as nat, y as nat),
    {
        assert(y * self.width <= 3 * (y * self.width + x)) by (nonlinear_arith);
        3 * (y * self.width + x)
    }

    /// Stores `clr` at pixel `(x, y)`. A position outside the grid is
    /// ignored: the image is left exactly as it was.
    pub fn pixels(&mut self, x: usize, y: usize, clr: Rgb)
        ensures
            final(self)@.wf(),
            final(self)@ == old(self)@.put(x as nat, y as nat, clr),
            final(self)@.width == old(self)@.width,
            final(self)@.height == old(self)@.height,
            old(self)@.contains(x as nat, y as nat) ==> final(self)@.pixel(x as nat, y as nat)
                == clr,
            !old(self)@.contains(x as nat, y as nat) ==> final(self)@ == old(self)@,
    {
        proof {
            use_type_invariant(&*self);
            lemma_put_keeps_shape(self@, x as nat, y as nat, clr);
        }
        if x < self.width && y < self.height {
            proof {
                lemma_offset_in_buffer(self@.width, self@.height, x as nat, y as nat);
                lemma_put_then_read(self@, x as nat, y as nat, clr);
                assert(self.pixels@.len() == self.pixels.len());
            }
            let idx: usize = self.index(x, y);
            self.pixels[idx] = clr.r;
            self.pixels[idx + 1] = clr.g;
            self.pixels[idx + 2] = clr.b;
            assert(self@.bytes =~= old(self)@.put(x as nat, y as nat, clr).bytes);
        }
    }
}

} // verus!
