//! A raster of pixels, and the binary portable-pixmap encoding of a raster
//! of eight-bit RGB pixels.

use vstd::prelude::*;

verus! {

/// One pixel: red, green and blue, eight bits each.
#[derive(Clone, Copy, Debug, PartialEq, Eq, Structural)]
pub struct RGB {
    pub r: u8,
    pub g: u8,
    pub b: u8,
}

/// A channel level brought into the eight bits of a channel: levels below
/// zero become 0, levels above 255 become 255.
pub open spec fn clamp_level(level: int) -> u8 {
    if level < 0 {
        0u8
    } else if level > 255 {
        255u8
    } else {
        level as u8
    }
}

/// Brings one channel level into eight bits.
fn channel(level: i64) -> (c: u8)
    ensures
        c == clamp_level(level as int),
{
    if level < 0 {
        0
    } else if level > 255 {
        255
    } else {
        level as u8
    }
}

impl RGB {
    /// The pixel with the given channel levels, each clamped to what eight
    /// bits hold.
    pub fn from_levels(r: i64, g: i64, b: i64) -> (pixel: RGB)
        ensures
            pixel.r == clamp_level(r as int),
            pixel.g == clamp_level(g as int),
            pixel.b == clamp_level(b as int),
    {
        RGB { r: channel(r), g: channel(g), b: channel(b) }
    }
}

/// A raster of `width * height` pixels of any kind, stored row by row from
/// the top.
pub struct ImagePPM<P> {
    pub width: u32,
    pub height: u32,
    pub pixels: Vec<P>,
}

/// The three channel bytes of every pixel, in pixel order.
pub open spec fn raster(pixels: Seq<RGB>) -> Seq<u8>
    decreases pixels.len(),
{
    if pixels.len() == 0 {
        Seq::empty()
    } else {
        raster(pixels.drop_last()).push(pixels.last().r).push(pixels.last().g).push(
            pixels.last().b,
        )
    }
}

/// The decimal digits of `n` in ASCII, most significant first, without
/// leading zeros (`0` itself is the single digit `0`).
pub open spec fn decimal(n: nat) -> Seq<u8>
    decreases n,
{
    if n < 10 {
        seq![(48 + n) as u8]
    } else {
        decimal(n / 10).push((48 + n % 10) as u8)
    }
}

/// The number that a string of ASCII digits denotes.
pub open spec fn decimal_value(digits: Seq<u8>) -> nat
    decreases digits.len(),
{
    if digits.len() == 0 {
        0
    } else {
        (decimal_value(digits.drop_last()) * 10 + (digits.last() - 48)) as nat
    }
}

/// The header of a binary pixmap: the magic of the full-colour binary
/// format, the width, the height and the channel maximum 255, separated by
/// single spaces and closed by a newline.
pub open spec fn header_bytes(width: u32, height: u32) -> Seq<u8> {
    seq![0x50u8, 0x36u8, 0x20u8] + decimal(width as nat) + seq![0x20u8] + decimal(height as nat)
        + seq![0x20u8, 0x32u8, 0x35u8, 0x35u8, 0x0au8]
}

/// The raster has one byte triple per pixel.
pub proof fn lemma_raster_len(pixels: Seq<RGB>)
    ensures
        raster(pixels).len() == 3 * pixels.len(),
    decreases pixels.len(),
{
    if pixels.len() > 0 {
        lemma_raster_len(pixels.drop_last());
    }
}

/// Byte `3 * i + c` of the raster is channel `c` of pixel `i`.
pub proof fn lemma_raster_index(pixels: Seq<RGB>, i: int)
    requires
        0 <= i < pixels.len(),
    ensures
        raster(pixels).len() == 3 * pixels.len(),
        raster(pixels)[3 * i] == pixels[i].r,
        raster(pixels)[3 * i + 1] == pixels[i].g,
        raster(pixels)[3 * i + 2] == pixels[i].b,
    decreases pixels.len(),
{
    lemma_raster_len(pixels);
    lemma_raster_len(pixels.drop_last());
    if i < pixels.len() - 1 {
        lemma_raster_index(pixels.drop_last(), i);
    }
}

/// Every pixel of a well-formed raster has a slot of its own in the store:
/// a position inside the frame lies inside the store, and two positions that
/// share a slot are the same position.
pub proof fn lemma_offset_in_store<P: Copy>(image: &ImagePPM<P>, x: u32, y: u32, x2: u32, y2: u32)
    requires
        image.wf(),
        x < image.width,
        y < image.height,
        x2 < image.width,
        y2 < image.height,
    ensures
        0 <= image.offset(x, y) < image.pixels@.len(),
        image.offset(x, y) <= u32::MAX,
        image.offset(x, y) == image.offset(x2, y2) ==> x == x2 && y == y2,
{
    let w = image.width as int;
    let h = image.height as int;
    let xa = x as int;
    let ya = y as int;
    let xb = x2 as int;
    let yb = y2 as int;
    assert(0 <= ya * w + xa < w * h) by (nonlinear_arith)
        requires
            0 <= xa < w,
            0 <= ya < h,
    ;
    if ya * w + xa == yb * w + xb {
        assert(ya == yb) by (nonlinear_arith)
            requires
                ya * w + xa == yb * w + xb,
                0 <= xa < w,
                0 <= xb < w,
        ;
    }
}

/// Every byte of a decimal string is an ASCII digit, and there is at least
/// one.
pub proof fn lemma_decimal_digits(n: nat)
    ensures
        decimal(n).len() >= 1,
        forall|i: int| 0 <= i < decimal(n).len() ==> 48 <= #[trigger] decimal(n)[i] <= 57,
    decreases n,
{
    if n >= 10 {
        lemma_decimal_digits(n / 10);
    }
}

/// Reading a decimal string back gives the number it was written from.
pub proof fn lemma_decimal_round_trip(n: nat)
    ensures
        decimal_value(decimal(n)) == n,
    decreases n,
{
    if n < 10 {
        let d = decimal(n);
        assert(d.drop_last().len() == 0);
        assert(decimal_value(d.drop_last()) == 0);
    } else {
        lemma_decimal_round_trip(n / 10);
        let d = decimal(n);
        assert(d.drop_last() =~= decimal(n / 10));
    }
}

/// Appends the decimal digits of `n` to `out`.
fn push_decimal(out: &mut Vec<u8>, n: u32)
    ensures
        final(out)@ == old(out)@ + decimal(n as nat),
    decreases n,
{
    if n >= 10 {
        push_decimal(out, n / 10);
    }
    let digit: u8 = (n % 10) as u8;
    out.push(48u8 + digit);
    assert(final(out)@ =~= old(out)@ + decimal(n as nat));
}

impl<P: Copy> ImagePPM<P> {
    /// The position of pixel `(x, y)` in the row-major store.
    pub open spec fn offset(&self, x: u32, y: u32) -> int {
        y * self.width + x
    }

    /// The store holds exactly `width * height` pixels, and no more than
    /// 32 bits can count.
    pub open spec fn wf(&self) -> bool {
        &&& self.pixels@.len() == self.width * self.height
        &&& self.width * self.height <= u32::MAX
    }

    /// A `w` by `h` raster with every pixel set to `p`.
    pub fn new_filled(w: u32, h: u32, p: P) -> (image: Self)
        requires
            w * h <= u32::MAX,
        ensures
            image.width == w,
            image.height == h,
            image.pixels@ == Seq::new((w * h) as nat, |i: int| p),
            image.wf(),
    {
        let count: u32 = w * h;
        let mut pixels: Vec<P> = Vec::new();
        let mut i: u32 = 0;
        while i < count
            invariant
                i <= count,
                pixels@ == Seq::new(i as nat, |k: int| p),
            decreases count - i,
        {
            pixels.push(p);
            i = i + 1;
            assert(pixels@ =~= Seq::new(i as nat, |k: int| p));
        }
        Self { width: w, height: h, pixels }
    }

    /// The number of pixels in the store.
    pub fn size(&self) -> (n: usize)
        ensures
            n == self.pixels@.len(),
    {
        self.pixels.len()
    }

    /// Whether the store has a slot for position `(x, y)`: the condition
    /// under which the pixel there can be read and written.
    pub fn contains(&self, x: u32, y: u32) -> (held: bool)
        ensures
            held == (self.offset(x, y) <= u32::MAX && self.offset(x, y) < self.pixels@.len()),
    {
        assert(0 <= y * self.width <= 0xffff_ffff * 0xffff_ffff) by (nonlinear_arith)
            requires
                0 <= y <= 0xffff_ffff,
                0 <= self.width <= 0xffff_ffff,
        ;
        let slot: u64 = (y as u64) * (self.width as u64) + (x as u64);
        slot <= 0xffff_ffff && slot < self.pixels.len() as u64
    }

    /// Overwrites pixel `(x, y)` and leaves every other pixel as it was.
    pub fn set_pixel(&mut self, x: u32, y: u32, i_val: P)
        requires
            old(self).offset(x, y) <= u32::MAX,
            old(self).offset(x, y) < old(self).pixels@.len(),
        ensures
            final(self).width == old(self).width,
            final(self).height == old(self).height,
            final(self).pixels@ == old(self).pixels@.update(old(self).offset(x, y), i_val),
            old(self).wf() ==> final(self).wf(),
    {
        assert(0 <= y * self.width) by (nonlinear_arith);
        let idx: usize = (y * self.width + x) as usize;
        self.pixels.set(idx, i_val);
    }

    /// The pixel at `(x, y)`.
    pub fn get_pixel(&self, x: u32, y: u32) -> (p: P)
        requires
            self.offset(x, y) <= u32::MAX,
            self.offset(x, y) < self.pixels@.len(),
        ensures
            p == self.pixels@[self.offset(x, y)],
    {
        assert(0 <= y * self.width) by (nonlinear_arith);
        let idx: usize = (y * self.width + x) as usize;
        self.pixels[idx]
    }

    /// A raster of the same shape in which every pixel is what `f` makes of
    /// the pixel at its place.
    pub fn map_pixels<Q: Copy, F: Fn(P) -> Q>(&self, f: F) -> (image: ImagePPM<Q>)
        requires
            forall|i: int| 0 <= i < self.pixels@.len() ==> call_requires(f, (self.pixels@[i],)),
        ensures
            image.width == self.width,
            image.height == self.height,
            image.pixels@.len() == self.pixels@.len(),
            forall|i: int|
                0 <= i < self.pixels@.len() ==> call_ensures(
                    f,
                    (self.pixels@[i],),
                    #[trigger] image.pixels@[i],
                ),
            self.wf() ==> image.wf(),
    {
        let mut pixels: Vec<Q> = Vec::new();
        let mut i: usize = 0;
        while i < self.pixels.len()
            invariant
                i <= self.pixels@.len(),
                pixels@.len() == i,
                forall|k: int| 0 <= k < self.pixels@.len() ==> call_requires(f, (self.pixels@[k],)),
                forall|k: int|
                    0 <= k < i ==> call_ensures(f, (self.pixels@[k],), #[trigger] pixels@[k]),
            decreases self.pixels@.len() - i,
        {
            let q = f(self.pixels[i]);
            pixels.push(q);
            i = i + 1;
        }
        ImagePPM { width: self.width, height: self.height, pixels }
    }
}

impl ImagePPM<RGB> {
    /// The channel bytes of all pixels, three per pixel, in store order.
    pub fn get_data(&self) -> (data: Vec<u8>)
        ensures
            data@ == raster(self.pixels@),
    {
        let mut data: Vec<u8> = Vec::new();
        let mut i: usize = 0;
        while i < self.pixels.len()
            invariant
                i <= self.pixels@.len(),
                data@ == raster(self.pixels@.take(i as int)),
            decreases self.pixels@.len() - i,
        {
            let pixel = self.pixels[i];
            data.push(pixel.r);
            data.push(pixel.g);
            data.push(pixel.b);
            proof {
                let next = self.pixels@.take(i + 1);
                assert(next.drop_last() =~= self.pixels@.take(i as int));
                assert(next.last() == pixel);
            }
            i = i + 1;
        }
        assert(self.pixels@.take(i as int) =~= self.pixels@);
        data
    }

    /// The pixmap header for this raster's dimensions.
    pub fn header(&self) -> (bytes: Vec<u8>)
        ensures
            bytes@ == header_bytes(self.width, self.height),
    {
        let mut bytes: Vec<u8> = Vec::new();
        bytes.push(0x50u8);
        bytes.push(0x36u8);
        bytes.push(0x20u8);
        assert(bytes@ =~= seq![0x50u8, 0x36u8, 0x20u8]);
        push_decimal(&mut bytes, self.width);
        bytes.push(0x20u8);
        push_decimal(&mut bytes, self.height);
        bytes.push(0x20u8);
        bytes.push(0x32u8);
        bytes.push(0x35u8);
        bytes.push(0x35u8);
        bytes.push(0x0au8);
        assert(bytes@ =~= header_bytes(self.width, self.height));
        bytes
    }

    /// The whole pixmap file: the header, then the raster.
    pub fn encode(&self) -> (bytes: Vec<u8>)
        ensures
            bytes@ == header_bytes(self.width, self.height) + raster(self.pixels@),
    {
        let mut bytes = self.header();
        let mut data = self.get_data();
        bytes.append(&mut data);
        bytes
    }
}

} // verus!
