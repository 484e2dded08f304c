//! An in-memory pixel buffer and its colors.
use vstd::prelude::*;
use vstd::arithmetic::div_mod::{lemma_fundamental_div_mod, lemma_fundamental_div_mod_converse};

pub mod tga_format;
pub mod codec;

pub use codec::{load_rle_data, unload_rle_data};

verus! {

/// Failures of pixel access and of the image codec.
#[derive(Clone, Copy, Debug, PartialEq, Eq)]
pub enum TGAError {
    /// The image has no pixel data.
    EmptyImage,
    /// The coordinates lie outside the image.
    InvalidCoords(i32, i32),
    /// The file could not be created or opened.
    FileOpenError,
    /// A write to an opened file failed.
    WriteError,
    /// Encoded bytes do not describe an image of this format.
    CorruptData,
}

pub type TGAResult<T> = Result<T, TGAError>;

/// Up to four color components in blue, green, red, alpha order, of which the
/// first `bytespp` are meaningful.
#[derive(Clone, Copy, Debug, PartialEq, Eq)]
pub struct TGAColor {
    pub val: [u8; 4],
    pub bytespp: i32,
}

/// The components `p` followed by zeros up to four.
pub open spec fn padded(p: Seq<u8>) -> Seq<u8> {
    p + Seq::new((4 - p.len()) as nat, |i: int| 0u8)
}

impl TGAColor {
    /// A color of three components, without alpha.
    pub fn from_rgb(r: u8, g: u8, b: u8) -> (c: TGAColor)
        ensures
            c.val@ == seq![b, g, r, 0u8],
            c.bytespp == 3,
    {
        let c = TGAColor { val: [b, g, r, 0], bytespp: 3 };
        assert(c.val@ =~= seq![b, g, r, 0u8]);
        c
    }

    /// A color of four components, alpha included.
    pub fn from_rgba(r: u8, g: u8, b: u8, a: u8) -> (c: TGAColor)
        ensures
            c.val@ == seq![b, g, r, a],
            c.bytespp == 4,
    {
        let c = TGAColor { val: [b, g, r, a], bytespp: 4 };
        assert(c.val@ =~= seq![b, g, r, a]);
        c
    }

    /// Unpacks `v`, read as an unsigned 32-bit word, into blue (the highest
    /// byte), green, red and alpha (the lowest byte).
    pub fn from_packed_components(v: i32) -> (c: TGAColor)
        ensures
            ({
                let u = if v >= 0 {
                    v as int
                } else {
                    v + 0x1_0000_0000
                };
                c.val@ == seq![
                    (u / 0x100_0000) as u8,
                    (u / 0x1_0000 % 0x100) as u8,
                    (u / 0x100 % 0x100) as u8,
                    (u % 0x100) as u8,
                ]
            }),
            c.bytespp == 4,
    {
        let uv: u32 = if v >= 0 {
            v as u32
        } else {
            (v as i64 + 0x1_0000_0000i64) as u32
        };
        let b = (uv / 0x100_0000) as u8;
        let g = (uv / 0x1_0000 % 0x100) as u8;
        let r = (uv / 0x100 % 0x100) as u8;
        let a = (uv % 0x100) as u8;
        let c = TGAColor { val: [b, g, r, a], bytespp: 4 };
        assert(c.val@ =~= seq![b, g, r, a]);
        c
    }

    /// The color whose first `bpp` components are the first `bpp` bytes of `s`.
    pub fn from_component_slice(s: &[u8], bpp: i32) -> (c: TGAColor)
        requires
            0 <= bpp <= 4,
            bpp <= s@.len(),
        ensures
            c.val@ == padded(s@.subrange(0, bpp as int)),
            c.bytespp == bpp,
    {
        let mut values: [u8; 4] = [0; 4];
        let n = bpp as usize;
        for i in 0..n
            invariant
                n == bpp,
                n <= s@.len(),
                n <= 4,
                values@.len() == 4,
                forall|k: int| 0 <= k < i ==> values@[k] == s@[k],
                forall|k: int| i <= k < 4 ==> values@[k] == 0,
        {
            values[i] = s[i];
        }
        assert(values@ =~= padded(s@.subrange(0, bpp as int)));
        TGAColor { val: values, bytespp: bpp }
    }

    /// The red component.
    pub fn r(&self) -> (c: u8)
        ensures
            c == self.val@[2],
    {
        self.val[2]
    }

    /// The green component.
    pub fn g(&self) -> (c: u8)
        ensures
            c == self.val@[1],
    {
        self.val[1]
    }

    /// The blue component.
    pub fn b(&self) -> (c: u8)
        ensures
            c == self.val@[0],
    {
        self.val[0]
    }

    /// The alpha component.
    pub fn a(&self) -> (c: u8)
        ensures
            c == self.val@[3],
    {
        self.val[3]
    }
}

/// A pixel buffer: `width * height` pixels of `bytespp` bytes each, stored
/// row by row.
#[derive(Clone, Debug, PartialEq)]
pub struct TGAImage {
    pub data: Vec<u8>,
    pub width: i32,
    pub height: i32,
    pub bytespp: i32,
}

/// The mathematical content of an image.
pub struct ImageModel {
    pub width: int,
    pub height: int,
    pub bytespp: int,
    pub data: Seq<u8>,
}

impl View for TGAImage {
    type V = ImageModel;

    open spec fn view(&self) -> ImageModel {
        ImageModel {
            width: self.width as int,
            height: self.height as int,
            bytespp: self.bytespp as int,
            data: self.data@,
        }
    }
}

/// `d` with the bytes from `off` on replaced by `p`.
pub open spec fn with_bytes(d: Seq<u8>, off: int, p: Seq<u8>) -> Seq<u8> {
    Seq::new(d.len(), |i: int| if off <= i < off + p.len() { p[i - off] } else { d[i] })
}

/// The row-by-row mirror of `d`, a buffer of `h` rows of `l` bytes.
pub open spec fn flipped(d: Seq<u8>, h: int, l: int) -> Seq<u8> {
    Seq::new(d.len(), |k: int| d[(h - 1 - k / l) * l + k % l])
}

impl ImageModel {
    /// The buffer holds exactly `width * height` pixels, and its size fits an `i32`.
    pub open spec fn wf(self) -> bool {
        &&& 0 <= self.width
        &&& 0 <= self.height
        &&& 0 <= self.bytespp <= 4
        &&& self.data.len() == self.width * self.height * self.bytespp
        &&& self.width * self.height * self.bytespp <= i32::MAX
        &&& self.width * self.height <= i32::MAX
    }

    pub open spec fn in_bounds(self, x: int, y: int) -> bool {
        0 <= x < self.width && 0 <= y < self.height
    }

    /// Index of the first byte of pixel `(x, y)`.
    pub open spec fn offset(self, x: int, y: int) -> int {
        (x + y * self.width) * self.bytespp
    }

    /// The bytes of pixel `(x, y)`.
    pub open spec fn pixel(self, x: int, y: int) -> Seq<u8> {
        self.data.subrange(self.offset(x, y), self.offset(x, y) + self.bytespp)
    }

    /// What reading pixel `(x, y)` gives: its bytes, or the error.
    pub open spec fn get(self, x: int, y: int) -> Result<Seq<u8>, TGAError> {
        if self.data.len() == 0 {
            Err(TGAError::EmptyImage)
        } else if !self.in_bounds(x, y) {
            Err(TGAError::InvalidCoords(x as i32, y as i32))
        } else {
            Ok(self.pixel(x, y))
        }
    }

    /// What writing the first `bytespp` components of `c` to pixel `(x, y)`
    /// gives: the new image, or the error.
    pub open spec fn set(self, x: int, y: int, c: Seq<u8>) -> Result<ImageModel, TGAError> {
        if self.data.len() == 0 {
            Err(TGAError::EmptyImage)
        } else if !self.in_bounds(x, y) {
            Err(TGAError::InvalidCoords(x as i32, y as i32))
        } else {
            Ok(
                ImageModel {
                    data: with_bytes(self.data, self.offset(x, y), c.subrange(0, self.bytespp)),
                    ..self
                },
            )
        }
    }

    /// `self` is `before` with the pixels for which `covered` holds set to
    /// `p`, and all others kept.
    pub open spec fn repainted(
        self,
        before: ImageModel,
        covered: spec_fn(int, int) -> bool,
        p: Seq<u8>,
    ) -> bool {
        &&& self.width == before.width
        &&& self.height == before.height
        &&& self.bytespp == before.bytespp
        &&& self.data.len() == before.data.len()
        &&& forall|x: int, y: int|
            #![trigger self.pixel(x, y)]
            before.in_bounds(x, y) ==> self.pixel(x, y) == if covered(x, y) {
                p
            } else {
                before.pixel(x, y)
            }
    }
}

/// Pixel `(x, y)` of a well-formed image lies inside its buffer.
pub proof fn lemma_offset_in_range(m: ImageModel, x: int, y: int)
    requires
        m.wf(),
        m.in_bounds(x, y),
    ensures
        0 <= m.offset(x, y),
        m.offset(x, y) + m.bytespp <= m.data.len(),
        x + y * m.width < m.width * m.height,
{
    let w = m.width;
    let h = m.height;
    let b = m.bytespp;
    assert(0 <= x + y * w < w * h) by (nonlinear_arith)
        requires
            0 <= x < w,
            0 <= y < h,
    ;
    assert(0 <= (x + y * w) * b && (x + y * w) * b + b <= w * h * b) by (nonlinear_arith)
        requires
            0 <= x + y * w < w * h,
            0 <= b,
    ;
}

/// A non-empty well-formed image has fewer pixels than `i32::MAX`.
proof fn lemma_pixel_count_bound(m: ImageModel)
    requires
        m.wf(),
        m.data.len() > 0,
    ensures
        1 <= m.bytespp,
        m.width * m.height <= m.width * m.height * m.bytespp,
        0 <= m.width * m.height,
{
    let w = m.width;
    let h = m.height;
    let b = m.bytespp;
    if b == 0 {
        assert(w * h * b == 0) by (nonlinear_arith)
            requires
                b == 0,
        ;
    }
    assert(w * h <= w * h * b && 0 <= w * h) by (nonlinear_arith)
        requires
            0 <= w,
            0 <= h,
            1 <= b,
    ;
}

/// Distinct pixels occupy disjoint byte ranges.
proof fn lemma_offsets_disjoint(m: ImageModel, x: int, y: int, x2: int, y2: int)
    requires
        m.wf(),
        m.in_bounds(x, y),
        m.in_bounds(x2, y2),
        x != x2 || y != y2,
    ensures
        m.offset(x, y) + m.bytespp <= m.offset(x2, y2) || m.offset(x2, y2) + m.bytespp <= m.offset(
            x,
            y,
        ),
{
    let w = m.width;
    let b = m.bytespp;
    let k = x + y * w;
    let k2 = x2 + y2 * w;
    if k == k2 {
        assert(x == x2 && y == y2) by (nonlinear_arith)
            requires
                k == x + y * w,
                k2 == x2 + y2 * w,
                k == k2,
                0 <= x < w,
                0 <= x2 < w,
        ;
    }
    assert(k * b + b <= k2 * b || k2 * b + b <= k * b) by (nonlinear_arith)
        requires
            k != k2,
            0 <= b,
    ;
}

/// Writing one pixel leaves every other pixel as it was.
proof fn lemma_set_frame(m: ImageModel, x: int, y: int, p: Seq<u8>)
    requires
        m.wf(),
        m.in_bounds(x, y),
        p.len() == m.bytespp,
    ensures
        ({
            let m2 = ImageModel { data: with_bytes(m.data, m.offset(x, y), p), ..m };
            m2.wf() && m2.repainted(m, |x2: int, y2: int| x2 == x && y2 == y, p)
        }),
{
    let m2 = ImageModel { data: with_bytes(m.data, m.offset(x, y), p), ..m };
    lemma_offset_in_range(m, x, y);
    assert forall|x2: int, y2: int| #[trigger] m.in_bounds(x2, y2) implies m2.pixel(x2, y2) == if x2
        == x && y2 == y {
        p
    } else {
        m.pixel(x2, y2)
    } by {
        lemma_offset_in_range(m, x2, y2);
        if x2 != x || y2 != y {
            lemma_offsets_disjoint(m, x, y, x2, y2);
        }
        assert(m2.pixel(x2, y2) =~= if x2 == x && y2 == y {
            p
        } else {
            m.pixel(x2, y2)
        });
    }
}

/// Writing a pixel and reading it back gives its first `bytespp` components;
/// both operations fail alike, and only, on an empty image or outside it.
pub proof fn lemma_set_then_get(m: ImageModel, x: int, y: int, c: Seq<u8>)
    requires
        m.wf(),
        c.len() == 4,
    ensures
        m.set(x, y, c) is Ok <==> (m.data.len() != 0 && m.in_bounds(x, y)),
        m.get(x, y) is Ok <==> (m.data.len() != 0 && m.in_bounds(x, y)),
        m.set(x, y, c) is Err ==> m.set(x, y, c)->Err_0 == m.get(x, y)->Err_0,
        m.set(x, y, c) is Ok ==> m.set(x, y, c)->Ok_0.get(x, y) == Ok::<Seq<u8>, TGAError>(
            c.subrange(0, m.bytespp),
        ),
{
    if m.data.len() != 0 && m.in_bounds(x, y) {
        let p = c.subrange(0, m.bytespp);
        lemma_set_frame(m, x, y, p);
        let m2 = m.set(x, y, c)->Ok_0;
        assert(m2.pixel(x, y) == p);
    }
}

impl TGAImage {
    pub open spec fn wf(&self) -> bool {
        self@.wf()
    }

    /// An image without pixels.
    pub fn new() -> (r: Self)
        ensures
            r.wf(),
            r.width == 0 && r.height == 0 && r.bytespp == 0,
            r.data@.len() == 0,
    {
        TGAImage { data: Vec::new(), width: 0, height: 0, bytespp: 0 }
    }

    /// A `w` by `h` image of `bpp` bytes per pixel, every byte zero.
    pub fn with_size(w: i32, h: i32, bpp: i32) -> (r: Self)
        requires
            0 <= w,
            0 <= h,
            bpp == tga_format::GRAYSCALE || bpp == tga_format::RGB || bpp == tga_format::RGBA,
            w * h * bpp <= i32::MAX,
        ensures
            r.wf(),
            r.width == w && r.height == h && r.bytespp == bpp,
            r.data@ == Seq::new((w * h * bpp) as nat, |i: int| 0u8),
    {
        assert(0 <= w * h * bpp) by (nonlinear_arith)
            requires
                0 <= w,
                0 <= h,
                0 <= bpp,
        ;
        assert(w * h <= w * h * bpp) by (nonlinear_arith)
            requires
                0 <= w,
                0 <= h,
                1 <= bpp,
        ;
        let size = (w as usize) * (h as usize) * (bpp as usize);
        let mut data: Vec<u8> = Vec::new();
        for i in 0..size
            invariant
                data@ == Seq::new(i as nat, |k: int| 0u8),
        {
            data.push(0);
            assert(data@ =~= Seq::new((i + 1) as nat, |k: int| 0u8));
        }
        TGAImage { data, width: w, height: h, bytespp: bpp }
    }

    /// Reads pixel `(x, y)`.
    pub fn get(&self, x: i32, y: i32) -> (r: TGAResult<TGAColor>)
        requires
            self.wf(),
        ensures
            r is Ok <==> self@.get(x as int, y as int) is Ok,
            r is Err ==> r->Err_0 == self@.get(x as int, y as int)->Err_0,
            r is Ok ==> r->Ok_0.val@ == padded(self@.get(x as int, y as int)->Ok_0)
                && r->Ok_0.bytespp == self.bytespp,
    {
        if self.data.len() == 0 {
            return Err(TGAError::EmptyImage);
        } else if x < 0 || y < 0 || x >= self.width || y >= self.height {
            return Err(TGAError::InvalidCoords(x, y));
        }
        proof {
            lemma_offset_in_range(self@, x as int, y as int);
            lemma_pixel_count_bound(self@);
        }
        let bpp = self.bytespp as usize;
        let offset = (x as usize + y as usize * self.width as usize) * bpp;
        let pixel = vstd::slice::slice_subrange(self.data.as_slice(), offset, offset + bpp);
        Ok(TGAColor::from_component_slice(pixel, self.bytespp))
    }

    /// Writes the first `bytespp` components of `c` to pixel `(x, y)`.
    pub fn set(&mut self, x: i32, y: i32, c: TGAColor) -> (r: TGAResult<()>)
        requires
            old(self).wf(),
        ensures
            final(self).wf(),
            r is Ok <==> old(self)@.set(x as int, y as int, c.val@) is Ok,
            r is Err ==> r->Err_0 == old(self)@.set(x as int, y as int, c.val@)->Err_0
                && final(self)@ == old(self)@,
            r is Ok ==> final(self)@ == old(self)@.set(x as int, y as int, c.val@)->Ok_0,
            final(self)@.repainted(
                old(self)@,
                |x2: int, y2: int| r is Ok && x2 == x && y2 == y,
                c.val@.subrange(0, old(self).bytespp as int),
            ),
    {
        if self.data.len() == 0 {
            return Err(TGAError::EmptyImage);
        } else if x < 0 || y < 0 || x >= self.width || y >= self.height {
            return Err(TGAError::InvalidCoords(x, y));
        }
        proof {
            lemma_offset_in_range(self@, x as int, y as int);
            lemma_pixel_count_bound(self@);
        }
        let bpp = self.bytespp as usize;
        let offset = (x as usize + y as usize * self.width as usize) * bpp;
        let ghost before = self@;
        let mut j: usize = 0;
        while j < bpp
            invariant
                j <= bpp,
                bpp == before.bytespp,
                bpp <= 4,
                offset == before.offset(x as int, y as int),
                offset + bpp <= before.data.len(),
                before.data.len() <= i32::MAX,
                self.width == before.width,
                self.height == before.height,
                self.bytespp == before.bytespp,
                self.data@ == with_bytes(before.data, offset as int, c.val@.subrange(0, j as int)),
            decreases bpp - j,
        {
            self.data.set(offset + j, c.val[j]);
            assert(self.data@ =~= with_bytes(
                before.data,
                offset as int,
                c.val@.subrange(0, j + 1),
            ));
            j += 1;
        }
        proof {
            lemma_set_frame(before, x as int, y as int, c.val@.subrange(0, bpp as int));
            assert(self@ =~= before.set(x as int, y as int, c.val@)->Ok_0);
        }
        Ok(())
    }

    /// Sets every byte of the image to zero.
    pub fn clear(&mut self)
        requires
            old(self).wf(),
        ensures
            final(self).wf(),
            final(self)@ == (ImageModel {
                data: Seq::new(old(self).data@.len(), |i: int| 0u8),
                ..old(self)@
            }),
    {
        let n = self.data.len();
        for i in 0..n
            invariant
                n == old(self).data@.len(),
                self.width == old(self).width,
                self.height == old(self).height,
                self.bytespp == old(self).bytespp,
                self.data@.len() == n,
                forall|k: int| 0 <= k < i ==> self.data@[k] == 0u8,
        {
            self.data.set(i, 0);
        }
        assert(self.data@ =~= Seq::new(n as nat, |i: int| 0u8));
    }

    /// Swaps row `i` with row `height - 1 - i` for every `i < height / 2`.
    pub fn flip_vertically(&mut self) -> (r: TGAResult<()>)
        requires
            old(self).wf(),
        ensures
            final(self).wf(),
            old(self).data@.len() == 0 ==> r == Err::<(), TGAError>(TGAError::EmptyImage)
                && final(self)@ == old(self)@,
            old(self).data@.len() != 0 ==> r == Ok::<(), TGAError>(()) && final(self)@ == (
            ImageModel {
                data: flipped(
                    old(self).data@,
                    old(self).height as int,
                    old(self).width * old(self).bytespp,
                ),
                ..old(self)@
            }),
    {
        if self.data.len() == 0 {
            return Err(TGAError::EmptyImage);
        }
        let ghost before = self@;
        proof {
            lemma_pixel_count_bound(before);
            lemma_row_major_size(before);
        }
        let l = (self.width as usize) * (self.bytespp as usize);
        let h = self.height as usize;
        let half = h / 2;
        let ghost len = before.data.len() as int;
        let ghost li = l as int;
        assert forall|k: int| 0 <= k < len implies #[trigger] self.data@[k] == if k / li < 0 || k
            / li >= h - 0 {
            before.data[(h - 1 - k / li) * li + k % li]
        } else {
            before.data[k]
        } by {
            lemma_row_of(k, li, h as int);
        }
        let mut i: usize = 0;
        while i < half
            invariant
                i <= half,
                len == before.data.len(),
                len == h * l,
                len <= i32::MAX,
                0 < l,
                li == l,
                half == h / 2,
                h == before.height,
                self.width == before.width,
                self.height == before.height,
                self.bytespp == before.bytespp,
                self.data@.len() == len,
                forall|k: int|
                    0 <= k < len ==> #[trigger] self.data@[k] == if k / li < i || k / li >= h - i {
                        before.data[(h - 1 - k / li) * li + k % li]
                    } else {
                        before.data[k]
                    },
            decreases half - i,
        {
            proof {
                lemma_row_index(i as int, 0, li, h as int);
                lemma_row_index((h - 1 - i) as int, 0, li, h as int);
            }
            let l1 = i * l;
            let l2 = (h - 1 - i) * l;
            let mut j: usize = 0;
            while j < l
                invariant
                    j <= l,
                    len == before.data.len(),
                    len == h * l,
                    len <= i32::MAX,
                    0 < l,
                    li == l,
                    i < half,
                    half == h / 2,
                    h == before.height,
                    l1 == i * l,
                    l2 == (h - 1 - i) * l,
                    self.width == before.width,
                    self.height == before.height,
                    self.bytespp == before.bytespp,
                    self.data@.len() == len,
                    forall|k: int|
                        0 <= k < len ==> #[trigger] self.data@[k] == if k / li < i || k / li >= h
                            - i || ((k / li == i || k / li == h - 1 - i) && k % li < j) {
                            before.data[(h - 1 - k / li) * li + k % li]
                        } else {
                            before.data[k]
                        },
                decreases l - j,
            {
                proof {
                    lemma_row_index(i as int, j as int, li, h as int);
                    lemma_row_index((h - 1 - i) as int, j as int, li, h as int);
                }
                let t = self.data[l1 + j];
                let u = self.data[l2 + j];
                self.data.set(l1 + j, u);
                self.data.set(l2 + j, t);
                assert forall|k: int| 0 <= k < len implies #[trigger] self.data@[k] == if k / li
                    < i || k / li >= h - i || ((k / li == i || k / li == h - 1 - i) && k % li < j
                    + 1) {
                    before.data[(h - 1 - k / li) * li + k % li]
                } else {
                    before.data[k]
                } by {
                    lemma_row_of(k, li, h as int);
                    if k != l1 + j && k != l2 + j {
                        if k / li == i && k % li == j {
                            assert(k == l1 + j);
                        }
                        if k / li == h - 1 - i && k % li == j {
                            assert(k == l2 + j);
                        }
                    }
                }
                j += 1;
            }
            i += 1;
        }
        assert forall|k: int| 0 <= k < len implies #[trigger] self.data@[k] == flipped(
            before.data,
            h as int,
            l as int,
        )[k] by {
            lemma_row_of(k, li, h as int);
            if !(k / li < half || k / li >= h - half) {
                assert(k / li * 2 == h - 1);
            }
        }
        assert(self.data@ =~= flipped(before.data, h as int, l as int));
        Ok(())
    }
}

/// Position `r * l + c` of a buffer of `h` rows of `l` bytes is byte `c` of row `r`.
pub proof fn lemma_row_index(r: int, c: int, l: int, h: int)
    requires
        0 <= r < h,
        0 <= c < l,
    ensures
        0 <= r * l + c < h * l,
        (r * l + c) / l == r,
        (r * l + c) % l == c,
{
    assert(0 <= r * l + c < h * l) by (nonlinear_arith)
        requires
            0 <= r < h,
            0 <= c < l,
    ;
    lemma_fundamental_div_mod_converse(r * l + c, l, r, c);
}

/// Byte `k` of a buffer of `h` rows of `l` bytes lies in row `k / l`, column
/// `k % l`, and its mirror position lies in the buffer too.
pub proof fn lemma_row_of(k: int, l: int, h: int)
    requires
        0 < l,
        0 <= k < h * l,
    ensures
        0 <= k / l < h,
        0 <= k % l < l,
        k == (k / l) * l + k % l,
        0 <= (h - 1 - k / l) * l + k % l < h * l,
{
    lemma_fundamental_div_mod(k, l);
    let r = k / l;
    let c = k % l;
    assert(0 <= r < h && k == r * l + c) by (nonlinear_arith)
        requires
            k == l * r + c,
            0 <= c < l,
            0 <= k < h * l,
    ;
    lemma_row_index(h - 1 - r, c, l, h);
}

/// The buffer of a well-formed image is `height` rows of `width * bytespp` bytes.
proof fn lemma_row_major_size(m: ImageModel)
    requires
        m.wf(),
    ensures
        m.data.len() == m.height * (m.width * m.bytespp),
        0 <= m.width * m.bytespp,
        m.data.len() > 0 ==> 0 < m.width * m.bytespp <= m.data.len(),
{
    let w = m.width;
    let h = m.height;
    let b = m.bytespp;
    assert(w * h * b == h * (w * b) && 0 <= w * b) by (nonlinear_arith)
        requires
            0 <= w,
            0 <= b,
    ;
    if m.data.len() > 0 {
        assert(0 < w * b) by (nonlinear_arith)
            requires
                0 <= w * b,
                h * (w * b) > 0,
        ;
        assert(w * b <= h * (w * b)) by (nonlinear_arith)
            requires
                0 <= w * b,
                h * (w * b) > 0,
                0 <= h,
        ;
    }
}

/// Mirroring the rows twice gives the buffer back.
pub proof fn lemma_flip_involution(d: Seq<u8>, h: int, l: int)
    requires
        0 < l,
        0 <= h,
        d.len() == h * l,
    ensures
        flipped(flipped(d, h, l), h, l) == d,
{
    let f = flipped(d, h, l);
    assert forall|k: int| 0 <= k < d.len() implies #[trigger] flipped(f, h, l)[k] == d[k] by {
        lemma_fundamental_div_mod(k, l);
        let r = k / l;
        let c = k % l;
        assert(0 <= r < h) by (nonlinear_arith)
            requires
                k == l * r + c,
                0 <= c < l,
                0 <= k < h * l,
        ;
        lemma_row_index(h - 1 - r, c, l, h);
        lemma_row_index(r, c, l, h);
        assert(l * r == r * l) by (nonlinear_arith);
    }
    assert(flipped(f, h, l) =~= d);
}

/// Two well-formed images of the same shape whose pixels all agree are equal.
pub proof fn lemma_pixels_determine_image(a: ImageModel, b: ImageModel)
    requires
        a.wf(),
        b.wf(),
        a.width == b.width,
        a.height == b.height,
        a.bytespp == b.bytespp,
        forall|x: int, y: int| #[trigger] a.in_bounds(x, y) ==> a.pixel(x, y) == b.pixel(x, y),
    ensures
        a == b,
{
    let w = a.width;
    let h = a.height;
    let bpp = a.bytespp;
    assert forall|k: int| 0 <= k < a.data.len() implies a.data[k] == b.data[k] by {
        assert(bpp > 0) by (nonlinear_arith)
            requires
                0 <= k < w * h * bpp,
                0 <= bpp,
                0 <= w,
                0 <= h,
        ;
        lemma_fundamental_div_mod(k, bpp);
        let q = k / bpp;
        let j = k % bpp;
        assert(0 <= q < w * h) by (nonlinear_arith)
            requires
                k == bpp * q + j,
                0 <= j < bpp,
                0 <= k < w * h * bpp,
                0 <= w * h,
        ;
        assert(w > 0) by (nonlinear_arith)
            requires
                0 <= q < w * h,
                0 <= h,
                0 <= w,
        ;
        lemma_fundamental_div_mod(q, w);
        let x = q % w;
        let y = q / w;
        assert(0 <= y < h) by (nonlinear_arith)
            requires
                q == w * y + x,
                0 <= x < w,
                0 <= q < w * h,
        ;
        assert(a.in_bounds(x, y));
        assert(a.offset(x, y) + j == k) by (nonlinear_arith)
            requires
                a.offset(x, y) == (x + y * w) * bpp,
                q == w * y + x,
                k == bpp * q + j,
        ;
        lemma_offset_in_range(a, x, y);
        assert(a.pixel(x, y)[j] == a.data[k]);
        assert(b.pixel(x, y)[j] == b.data[k]);
    }
    assert(a.data =~= b.data);
}

/// Two images repainted from one image with the same pixels covered are equal.
pub proof fn lemma_repainted_unique(
    before: ImageModel,
    first: ImageModel,
    second: ImageModel,
    covered1: spec_fn(int, int) -> bool,
    covered2: spec_fn(int, int) -> bool,
    p: Seq<u8>,
)
    requires
        before.wf(),
        first.wf(),
        second.wf(),
        first.repainted(before, covered1, p),
        second.repainted(before, covered2, p),
        forall|x: int, y: int| #[trigger] before.in_bounds(x, y) ==> covered1(x, y) == covered2(x, y),
    ensures
        first == second,
{
    assert forall|x: int, y: int| #[trigger] first.in_bounds(x, y) implies first.pixel(x, y)
        == second.pixel(x, y) by {
        assert(before.in_bounds(x, y));
    }
    lemma_pixels_determine_image(first, second);
}

} // verus!
