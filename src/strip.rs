//! An RGB pixel buffer, stored row by row, three bytes per pixel.
use image::Pixel;
use vstd::prelude::*;

verus! {

/// The mathematical content of a [`Strip`].
pub ghost struct StripView {
    pub width: nat,
    pub height: nat,
    pub pixels: Seq<u8>,
}

/// Bytes per row of an image `width` pixels wide.
pub open spec fn stride(width: nat) -> nat {
    width * 3
}

/// An RGB image held as `height` rows of `width` pixels.
pub struct Strip {
    width: u32,
    height: u32,
    pixels: Vec<u8>,
}

impl Strip {
    /// The buffer always holds exactly `height` rows.
    #[verifier::type_invariant]
    pub open spec fn inv(self) -> bool {
        well_formed(self@)
    }
}

impl View for Strip {
    type V = StripView;

    closed spec fn view(&self) -> StripView {
        StripView { width: self.width as nat, height: self.height as nat, pixels: self.pixels@ }
    }
}

/// The buffer holds exactly `height` rows.
pub open spec fn well_formed(s: StripView) -> bool {
    &&& s.width <= u32::MAX
    &&& s.height <= u32::MAX
    &&& s.pixels.len() == s.height * stride(s.width)
}

/// Bytes of rows `a` (inclusive) to `b` (exclusive).
pub open spec fn rows_of(s: StripView, a: int, b: int) -> Seq<u8> {
    s.pixels.subrange(a * stride(s.width), b * stride(s.width))
}

/// The strip after row `y` is drawn over in `color`.
pub open spec fn painted(v: StripView, y: int, color: (u8, u8, u8)) -> StripView {
    let lo = y * stride(v.width);
    let hi = lo + stride(v.width);
    StripView {
        width: v.width,
        height: v.height,
        pixels: Seq::new(
            v.pixels.len(),
            |i: int|
                if lo <= i < hi {
                    let c = (i - lo) % 3;
                    if c == 0 {
                        color.0
                    } else if c == 1 {
                        color.1
                    } else {
                        color.2
                    }
                } else {
                    v.pixels[i]
                },
        ),
    }
}

/// The bytes of `parts` one after the other.
pub open spec fn stack_pixels(parts: Seq<StripView>) -> Seq<u8>
    decreases parts.len(),
{
    if parts.len() == 0 {
        Seq::empty()
    } else {
        stack_pixels(parts.drop_last()) + parts.last().pixels
    }
}

/// The sum of the heights of `parts`.
pub open spec fn total_height(parts: Seq<StripView>) -> nat
    decreases parts.len(),
{
    if parts.len() == 0 {
        0
    } else {
        total_height(parts.drop_last()) + parts.last().height
    }
}

/// Every part is well formed and `width` pixels wide.
pub open spec fn all_of_width(parts: Seq<StripView>, width: nat) -> bool {
    forall|i: int| 0 <= i < parts.len() ==> well_formed(#[trigger] parts[i]) && parts[i].width == width
}

/// Parts of one width, stacked, take as many bytes as their total height of rows.
pub proof fn lemma_stack_len(parts: Seq<StripView>, width: nat)
    requires
        all_of_width(parts, width),
    ensures
        stack_pixels(parts).len() == total_height(parts) * stride(width),
    decreases parts.len(),
{
    if parts.len() == 0 {
        assert(total_height(parts) == 0);
        assert(stack_pixels(parts).len() == 0);
    } else {
        assert(all_of_width(parts.drop_last(), width)) by {
            assert forall|i: int| 0 <= i < parts.len() - 1 implies well_formed(
                #[trigger] parts.drop_last()[i],
            ) && parts.drop_last()[i].width == width by {
                assert(parts.drop_last()[i] == parts[i]);
            }
        }
        assert(well_formed(parts[parts.len() - 1]));
        lemma_stack_len(parts.drop_last(), width);
        let h1 = total_height(parts.drop_last()) as int;
        let h2 = parts.last().height as int;
        let w3 = stride(width) as int;
        assert(parts.last() == parts[parts.len() - 1]);
        assert(parts.last().pixels.len() == h2 * w3);
        assert(stack_pixels(parts).len() == h1 * w3 + h2 * w3);
        assert(total_height(parts) == h1 + h2);
        assert(h1 * w3 + h2 * w3 == (h1 + h2) * w3) by (nonlinear_arith);
    }
}

/// The views of a vector of strips.
pub open spec fn views(parts: Seq<Strip>) -> Seq<StripView> {
    parts.map_values(|p: Strip| p@)
}

pub proof fn lemma_rows_bounds(s: StripView, a: int, b: int)
    requires
        well_formed(s),
        0 <= a <= b <= s.height,
    ensures
        0 <= a * stride(s.width) <= b * stride(s.width) <= s.pixels.len(),
        (b - a) * stride(s.width) == b * stride(s.width) - a * stride(s.width),
{
    let w3 = stride(s.width) as int;
    let h = s.height as int;
    assert(0 <= a * w3 <= b * w3 <= h * w3) by (nonlinear_arith)
        requires
            0 <= a <= b <= h,
            0 <= w3,
    ;
    assert((b - a) * w3 == b * w3 - a * w3) by (nonlinear_arith);
}

/// Brightness of an RGB pixel, on the sRGB weights of the `image` crate.
pub open spec fn luma(r: u8, g: u8, b: u8) -> int {
    (2126 * r + 7152 * g + 722 * b) / 10000
}

pub open spec fn pixel_luma(s: StripView, row: int, col: int) -> int {
    let i = row * stride(s.width) + col * 3;
    luma(s.pixels[i], s.pixels[i + 1], s.pixels[i + 2])
}

pub open spec fn abs_diff(a: int, b: int) -> int {
    if a >= b {
        a - b
    } else {
        b - a
    }
}

/// Largest brightness step among the first `n` pairs of neighbouring pixels of a row.
pub open spec fn roughness_upto(s: StripView, row: int, n: nat) -> int
    decreases n,
{
    if n == 0 {
        0
    } else {
        let prev = roughness_upto(s, row, (n - 1) as nat);
        let d = abs_diff(pixel_luma(s, row, n - 1), pixel_luma(s, row, n as int));
        if d > prev {
            d
        } else {
            prev
        }
    }
}

/// Largest brightness step between horizontally adjacent pixels of a row.
pub open spec fn row_roughness(s: StripView, row: int) -> int {
    if s.width <= 1 {
        0
    } else {
        roughness_upto(s, row, (s.width - 1) as nat)
    }
}

/// The roughness of every row, top to bottom.
pub open spec fn roughness(s: StripView) -> Seq<u8> {
    Seq::new(s.height, |r: int| row_roughness(s, r) as u8)
}

pub proof fn lemma_luma_bounds(r: u8, g: u8, b: u8)
    ensures
        0 <= luma(r, g, b) <= 255,
{
    assert(0 <= 2126 * r + 7152 * g + 722 * b <= 2550000) by (nonlinear_arith);
}

proof fn lemma_roughness_upto_bounds(s: StripView, row: int, n: nat)
    requires
        well_formed(s),
        0 <= row < s.height,
        n < s.width,
    ensures
        0 <= roughness_upto(s, row, n) <= 255,
    decreases n,
{
    if n > 0 {
        lemma_roughness_upto_bounds(s, row, (n - 1) as nat);
        lemma_pixel_in_bounds(s, row, n - 1);
        lemma_pixel_in_bounds(s, row, n as int);
        let i = row * stride(s.width) + (n - 1) * 3;
        let j = row * stride(s.width) + n * 3;
        lemma_luma_bounds(s.pixels[i], s.pixels[i + 1], s.pixels[i + 2]);
        lemma_luma_bounds(s.pixels[j], s.pixels[j + 1], s.pixels[j + 2]);
    }
}

/// The three bytes of a pixel lie inside the buffer.
pub proof fn lemma_pixel_in_bounds(s: StripView, row: int, col: int)
    requires
        well_formed(s),
        0 <= row < s.height,
        0 <= col < s.width,
    ensures
        0 <= row * stride(s.width) + col * 3,
        row * stride(s.width) + col * 3 + 2 < s.pixels.len(),
{
    let w = s.width as int;
    let h = s.height as int;
    assert(row * (w * 3) + col * 3 + 2 < h * (w * 3)) by (nonlinear_arith)
        requires
            0 <= row < h,
            0 <= col < w,
    ;
    assert(0 <= row * (w * 3)) by (nonlinear_arith)
        requires
            0 <= row,
            0 <= w,
    ;
}

/// Every row's roughness fits in a byte.
pub proof fn lemma_row_roughness_bounds(s: StripView, row: int)
    requires
        well_formed(s),
        0 <= row < s.height,
    ensures
        0 <= row_roughness(s, row) <= 255,
{
    if s.width > 1 {
        lemma_roughness_upto_bounds(s, row, (s.width - 1) as nat);
    }
}

proof fn lemma_row_start(w3: int, row: int, h: int)
    requires
        0 <= w3,
        0 <= row <= h,
    ensures
        0 <= row * w3 <= h * w3,
        row * w3 + w3 == (row + 1) * w3,
{
    assert(0 <= row * w3 <= h * w3) by (nonlinear_arith)
        requires
            0 <= w3,
            0 <= row <= h,
    ;
    assert(row * w3 + w3 == (row + 1) * w3) by (nonlinear_arith);
}

proof fn lemma_total_height_prefix(parts: Seq<StripView>, k: int)
    requires
        0 <= k <= parts.len(),
    ensures
        total_height(parts.subrange(0, k)) <= total_height(parts),
    decreases parts.len() - k,
{
    if k < parts.len() {
        lemma_total_height_prefix(parts, k + 1);
        assert(parts.subrange(0, k + 1).drop_last() =~= parts.subrange(0, k));
    } else {
        assert(parts.subrange(0, k) =~= parts);
    }
}

/// Relies on `image::Pixel::to_luma` for `Rgb<u8>`: it computes
/// (2126 r + 7152 g + 722 b) / 10000 in `u32` arithmetic.
#[verifier::external_body]
fn luma_of(r: u8, g: u8, b: u8) -> (l: u8)
    ensures
        l == luma(r, g, b),
{
    image::Rgb([r, g, b]).to_luma().0[0]
}

impl Strip {
    /// Wraps a row-major RGB buffer; `None` when its length is not
    /// `width * height * 3`.
    pub fn from_raw(width: u32, height: u32, pixels: Vec<u8>) -> (r: Option<Strip>)
        ensures
            r is Some <==> pixels@.len() == height * stride(width as nat),
            r matches Some(s) ==> s@ == (StripView {
                width: width as nat,
                height: height as nat,
                pixels: pixels@,
            }) && well_formed(s@),
    {
        let ghost want: int = height * stride(width as nat);
        let w3: u64 = width as u64 * 3;
        let n: u64 = pixels.len() as u64;
        if w3 == 0 {
            assert(want == 0) by (nonlinear_arith)
                requires
                    want == height * (width * 3),
                    width * 3 == 0,
            ;
            if n == 0 {
                return Some(Strip { width, height, pixels });
            } else {
                return None;
            }
        }
        // n == height * w3 exactly when dividing leaves no remainder and gives height
        if n % w3 == 0 && n / w3 == height as u64 {
            assert(n == height * w3) by (nonlinear_arith)
                requires
                    w3 > 0,
                    n % w3 == 0,
                    n / w3 == height,
            ;
            Some(Strip { width, height, pixels })
        } else {
            assert(n != height * w3) by (nonlinear_arith)
                requires
                    w3 > 0,
                    !(n % w3 == 0 && n / w3 == height),
            ;
            None
        }
    }

    pub fn width(&self) -> (r: u32)
        ensures
            r == self@.width,
    {
        self.width
    }

    pub fn height(&self) -> (r: u32)
        ensures
            r == self@.height,
    {
        self.height
    }

    pub fn pixels(&self) -> (r: &Vec<u8>)
        ensures
            r@ == self@.pixels,
    {
        &self.pixels
    }

    /// A copy of rows `start` (inclusive) to `end` (exclusive).
    pub fn crop_rows(&self, start: usize, end: usize) -> (r: Strip)
        requires
            start <= end <= self@.height,
        ensures
            well_formed(r@),
            r@ == (StripView {
                width: self@.width,
                height: (end - start) as nat,
                pixels: rows_of(self@, start as int, end as int),
            }),
    {
        let ghost s = self@;
        let n = self.pixels.len();
        proof {
            use_type_invariant(self);
            lemma_rows_bounds(s, start as int, end as int);
        }
        let mut out: Vec<u8> = Vec::new();
        if start == end {
            let ghost empty = rows_of(s, start as int, end as int);
            assert(empty =~= out@);
            return Strip { width: self.width, height: 0, pixels: out };
        }
        proof {
            lemma_rows_bounds(s, 0, 1);
        }
        let w3: usize = self.width as usize * 3;
        let a: usize = start * w3;
        let b: usize = end * w3;
        let mut p: usize = a;
        while p < b
            invariant
                s == self@,
                n == s.pixels.len(),
                a <= p <= b <= n,
                out@ == s.pixels.subrange(a as int, p as int),
            decreases b - p,
        {
            out.push(self.pixels[p]);
            assert(out@ =~= s.pixels.subrange(a as int, p + 1));
            p = p + 1;
        }
        Strip { width: self.width, height: (end - start) as u32, pixels: out }
    }

    /// Draws row `y` over in `color`.
    pub fn paint_row(&mut self, y: usize, color: (u8, u8, u8))
        requires
            y < old(self)@.height,
        ensures
            final(self)@ == painted(old(self)@, y as int, color),
            well_formed(final(self)@),
    {
        let ghost s = self@;
        let n = self.pixels.len();
        proof {
            use_type_invariant(&*self);
            lemma_rows_bounds(s, y as int, y as int + 1);
            assert((y + 1) * stride(s.width) == y * stride(s.width) + stride(s.width))
                by (nonlinear_arith);
        }
        let w3: usize = self.width as usize * 3;
        let lo: usize = y * w3;
        let hi: usize = lo + w3;
        let mut p: usize = lo;
        let mut ch: usize = 0;
        let mut px = self.pixels.clone();
        assert(px@ =~= s.pixels);
        while p < hi
            invariant
                n == s.pixels.len(),
                lo == y * stride(s.width),
                hi == lo + stride(s.width),
                lo <= p <= hi <= n,
                ch == (p - lo) % 3,
                px@.len() == n,
                forall|i: int|
                    0 <= i < n ==> #[trigger] px@[i] == (if lo <= i < p {
                        painted(s, y as int, color).pixels[i]
                    } else {
                        s.pixels[i]
                    }),
            decreases hi - p,
        {
            let v = if ch == 0 {
                color.0
            } else if ch == 1 {
                color.1
            } else {
                color.2
            };
            px.set(p, v);
            p = p + 1;
            ch = if ch == 2 {
                0
            } else {
                ch + 1
            };
        }
        assert(px@ =~= painted(s, y as int, color).pixels);
        *self = Strip { width: self.width, height: self.height, pixels: px };
    }

    /// Stacks strips of one width top to bottom; `None` when the result would
    /// be taller than `u32::MAX` rows or larger than memory can index.
    pub fn stack(width: u32, parts: &Vec<Strip>) -> (r: Option<Strip>)
        requires
            forall|i: int| 0 <= i < parts@.len() ==> (#[trigger] parts@[i])@.width == width,
        ensures
            r is Some <==> total_height(views(parts@)) <= u32::MAX && total_height(views(parts@))
                * stride(width as nat) <= usize::MAX,
            r matches Some(s) ==> well_formed(s@) && s@ == (StripView {
                width: width as nat,
                height: total_height(views(parts@)),
                pixels: stack_pixels(views(parts@)),
            }),
    {
        let ghost v = views(parts@);
        let mut h: u32 = 0;
        let mut i: usize = 0;
        let mut fits: bool = true;
        while i < parts.len()
            invariant
                v == views(parts@),
                i <= parts@.len(),
                fits ==> h == total_height(v.subrange(0, i as int)),
                !fits ==> total_height(v) > u32::MAX,
                forall|j: int| 0 <= j < parts@.len() ==> (#[trigger] parts@[j])@.width == width,
                forall|j: int| 0 <= j < i ==> well_formed(#[trigger] v[j]) && v[j].width == width,
            decreases parts@.len() - i,
        {
            assert(v.subrange(0, i + 1).drop_last() =~= v.subrange(0, i as int));
            let part = &parts[i];
            proof {
                use_type_invariant(part);
            }
            if fits {
                match h.checked_add(parts[i].height) {
                    Some(x) => {
                        h = x;
                    },
                    None => {
                        fits = false;
                        proof {
                            lemma_total_height_prefix(v, i + 1);
                        }
                    },
                }
            }
            i = i + 1;
        }
        assert(v.subrange(0, i as int) =~= v);
        proof {
            lemma_stack_len(v, width as nat);
        }
        if !fits {
            return None;
        }
        let bytes: Option<usize> = if h == 0 {
            assert(h * stride(width as nat) == 0) by (nonlinear_arith)
                requires
                    h == 0,
            ;
            Some(0)
        } else {
            match (width as usize).checked_mul(3) {
                Some(w3) => {
                    assert(w3 == stride(width as nat));
                    let b = (h as usize).checked_mul(w3);
                    assert(b matches Some(x) ==> x == h * stride(width as nat));
                    assert(b is None ==> h * stride(width as nat) > usize::MAX);
                    b
                },
                None => None,
            }
        };
        match bytes {
            None => {
                proof {
                    let t = total_height(v) as int;
                    let w = width as int;
                    if t > 0 {
                        assert(t * (w * 3) >= w * 3) by (nonlinear_arith)
                            requires
                                t >= 1,
                                w >= 0,
                        ;
                    }
                }
                return None;
            },
            Some(_) => {},
        }
        let mut out: Vec<u8> = Vec::new();
        let mut k: usize = 0;
        while k < parts.len()
            invariant
                v == views(parts@),
                k <= parts@.len(),
                out@ == stack_pixels(v.subrange(0, k as int)),
            decreases parts@.len() - k,
        {
            assert(v.subrange(0, k + 1).drop_last() =~= v.subrange(0, k as int));
            let src = &parts[k].pixels;
            let mut q: usize = 0;
            let ghost before = out@;
            while q < src.len()
                invariant
                    q <= src@.len(),
                    out@ == before + src@.subrange(0, q as int),
                decreases src@.len() - q,
            {
                out.push(src[q]);
                assert(out@ =~= before + src@.subrange(0, q + 1));
                q = q + 1;
            }
            assert(src@.subrange(0, q as int) =~= src@);
            assert(src@ == v[k as int].pixels);
            k = k + 1;
        }
        assert(v.subrange(0, k as int) =~= v);
        Some(Strip { width, height: h, pixels: out })
    }

    /// Largest brightness step in one row, whose first byte is at `base`.
    fn row_max_diff(&self, row: usize, base: usize) -> (r: u8)
        requires
            row < self@.height,
            base == row * stride(self@.width),
        ensures
            r == row_roughness(self@, row as int),
    {
        let ghost s = self@;
        proof {
            use_type_invariant(self);
        }
        let w = self.width as usize;
        let n = self.pixels.len();
        if w <= 1 {
            return 0;
        }
        proof {
            lemma_pixel_in_bounds(s, row as int, 0);
            lemma_luma_bounds(s.pixels[base as int], s.pixels[base + 1], s.pixels[base + 2]);
        }
        let mut prev: u8 = luma_of(self.pixels[base], self.pixels[base + 1], self.pixels[base + 2]);
        let mut m: u8 = 0;
        let mut col: usize = 1;
        let mut p: usize = base + 3;
        while col < w
            invariant
                n == s.pixels.len(),
                well_formed(s),
                s == self@,
                w == s.width,
                row < s.height,
                base == row * stride(s.width),
                1 <= col <= w,
                p == base + col * 3,
                prev == pixel_luma(s, row as int, col - 1),
                m == roughness_upto(s, row as int, (col - 1) as nat),
            decreases w - col,
        {
            proof {
                lemma_pixel_in_bounds(s, row as int, col as int);
                lemma_roughness_upto_bounds(s, row as int, col as nat);
            }
            let cur = luma_of(self.pixels[p], self.pixels[p + 1], self.pixels[p + 2]);
            let d: u8 = if cur >= prev {
                cur - prev
            } else {
                prev - cur
            };
            if d > m {
                m = d;
            }
            prev = cur;
            col = col + 1;
            p = p + 3;
        }
        m
    }

    /// The roughness of every row.
    pub fn row_roughness(&self) -> (r: Vec<u8>)
        ensures
            r@ == roughness(self@),
    {
        let ghost s = self@;
        proof {
            use_type_invariant(self);
        }
        let h = self.height as usize;
        let n = self.pixels.len();
        let mut out: Vec<u8> = Vec::new();
        if h == 0 {
            assert(out@ =~= roughness(s));
            return out;
        }
        proof {
            lemma_row_start(stride(s.width) as int, 1, h as int);
        }
        let w3: usize = self.width as usize * 3;
        let mut row: usize = 0;
        let mut base: usize = 0;
        while row < h
            invariant
                n == s.pixels.len(),
                well_formed(s),
                s == self@,
                h == s.height,
                w3 == stride(s.width),
                row <= h,
                base == row * w3,
                out@.len() == row,
                forall|r: int| 0 <= r < row ==> out@[r] == roughness(s)[r],
            decreases h - row,
        {
            proof {
                lemma_row_start(w3 as int, row as int, h as int);
                lemma_row_start(w3 as int, row as int + 1, h as int);
                lemma_row_roughness_bounds(s, row as int);
            }
            let v = self.row_max_diff(row, base);
            out.push(v);
            base = base + w3;
            row = row + 1;
        }
        assert(out@ =~= roughness(s));
        out
    }
}

} // verus!
