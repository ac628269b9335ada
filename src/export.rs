//! Turning a strip and its markers into numbered, encoded page files.
use crate::error::ImageSplitterError;
use crate::splitpoint::{cut_rows, cut_rows_of, Splitpoint};
use crate::splitter::{lemma_splitpoints_shape, scan_ok, splitpoints_of};
use crate::strip::{
    lemma_rows_bounds, painted, roughness, rows_of, stack_pixels, stride, total_height,
    well_formed, Strip, StripView,
};
use vstd::prelude::*;

verus! {

/// The encoder, and the file extension, of exported pages.
#[derive(Debug, Clone, Copy, PartialEq, Eq, Structural)]
pub enum ImageOutputFormat {
    Png,
    Webp,
    /// Lossy, at a quality from 1 to 100.
    Jpeg(u8),
    /// The same as `Jpeg`, under the shorter extension.
    Jpg(u8),
}

pub open spec fn extension_of(format: ImageOutputFormat) -> Seq<char> {
    match format {
        ImageOutputFormat::Png => "png"@,
        ImageOutputFormat::Webp => "webp"@,
        ImageOutputFormat::Jpeg(_) => "jpeg"@,
        ImageOutputFormat::Jpg(_) => "jpg"@,
    }
}

impl ImageOutputFormat {
    /// The file extension, without the dot.
    pub fn extension(&self) -> (r: &'static str)
        ensures
            r@ == extension_of(*self),
    {
        match self {
            ImageOutputFormat::Png => "png",
            ImageOutputFormat::Webp => "webp",
            ImageOutputFormat::Jpeg(_) => "jpeg",
            ImageOutputFormat::Jpg(_) => "jpg",
        }
    }
}

/// The decimal digit for `d` (0 to 9).
pub open spec fn digit_char(d: nat) -> char {
    if d == 0 {
        '0'
    } else if d == 1 {
        '1'
    } else if d == 2 {
        '2'
    } else if d == 3 {
        '3'
    } else if d == 4 {
        '4'
    } else if d == 5 {
        '5'
    } else if d == 6 {
        '6'
    } else if d == 7 {
        '7'
    } else if d == 8 {
        '8'
    } else {
        '9'
    }
}

/// `n` written in decimal, without leading zeros.
pub open spec fn decimal(n: nat) -> Seq<char>
    decreases n,
{
    if n < 10 {
        seq![digit_char(n)]
    } else {
        decimal(n / 10).push(digit_char(n % 10))
    }
}

/// How many decimal digits `n` has.
pub open spec fn num_digits(n: nat) -> nat
    decreases n,
{
    if n < 10 {
        1
    } else {
        1 + num_digits(n / 10)
    }
}

pub proof fn lemma_decimal_len(n: nat)
    ensures
        decimal(n).len() == num_digits(n),
        1 <= num_digits(n) <= n + 1,
    decreases n,
{
    if n >= 10 {
        lemma_decimal_len(n / 10);
    }
}

/// The number of decimal digits of `num`.
pub fn get_num_digits(num: usize) -> (r: usize)
    ensures
        r == num_digits(num as nat),
    decreases num,
{
    proof {
        lemma_decimal_len(num as nat);
        lemma_decimal_len((num / 10) as nat);
    }
    if num < 10 {
        1
    } else {
        1 + get_num_digits(num / 10)
    }
}

fn digit_str(d: usize) -> (r: &'static str)
    requires
        d < 10,
    ensures
        r@ == seq![digit_char(d as nat)],
{
    proof {
        reveal_strlit("0");
        reveal_strlit("1");
        reveal_strlit("2");
        reveal_strlit("3");
        reveal_strlit("4");
        reveal_strlit("5");
        reveal_strlit("6");
        reveal_strlit("7");
        reveal_strlit("8");
        reveal_strlit("9");
    }
    let r = if d == 0 {
        "0"
    } else if d == 1 {
        "1"
    } else if d == 2 {
        "2"
    } else if d == 3 {
        "3"
    } else if d == 4 {
        "4"
    } else if d == 5 {
        "5"
    } else if d == 6 {
        "6"
    } else if d == 7 {
        "7"
    } else if d == 8 {
        "8"
    } else {
        "9"
    };
    assert(r@ =~= seq![digit_char(d as nat)]);
    r
}

/// Appends `n` in decimal to `s`.
fn push_decimal(s: &mut String, n: usize)
    ensures
        final(s)@ == old(s)@ + decimal(n as nat),
    decreases n,
{
    if n < 10 {
        s.append(digit_str(n));
    } else {
        push_decimal(s, n / 10);
        s.append(digit_str(n % 10));
        assert(final(s)@ =~= old(s)@ + decimal(n as nat));
    }
}

/// The name of page `index` (counted from 0) among `page_count` pages: its
/// number counted from 1, padded with zeros to the width of `page_count`,
/// then the format's extension.
pub open spec fn page_file_name(index: nat, page_count: nat, format: ImageOutputFormat) -> Seq<
    char,
> {
    let number = decimal(index + 1);
    let pad = num_digits(page_count) - number.len();
    Seq::new(if pad > 0 { pad as nat } else { 0 }, |i: int| '0') + number + "."@ + extension_of(
        format,
    )
}

/// The file name of page `index` (counted from 0) among `page_count` pages.
pub fn file_name(index: usize, page_count: usize, format: ImageOutputFormat) -> (r: String)
    requires
        index < page_count,
    ensures
        r@ == page_file_name(index as nat, page_count as nat, format),
{
    let number = index + 1;
    let width = get_num_digits(page_count);
    let own = get_num_digits(number);
    let mut name = String::new();
    let mut k: usize = own;
    while k < width
        invariant
            own <= k,
            k <= width || k == own,
            name@ == Seq::new((k - own) as nat, |i: int| '0'),
        decreases width - k,
    {
        proof {
            reveal_strlit("0");
        }
        assert("0"@ =~= seq!['0']);
        name.append("0");
        assert(name@ =~= Seq::new((k + 1 - own) as nat, |i: int| '0'));
        k = k + 1;
    }
    let ghost pad = name@;
    push_decimal(&mut name, number);
    name.append(".");
    name.append(format.extension());
    proof {
        lemma_decimal_len(number as nat);
        let p = num_digits(page_count as nat) - decimal(number as nat).len();
        assert(pad =~= Seq::new(if p > 0 { p as nat } else { 0 }, |i: int| '0'));
    }
    name
}

/// The row ranges of the pages: each pair of neighbouring cut rows.
pub open spec fn page_ranges(cuts: Seq<usize>) -> Seq<(usize, usize)> {
    Seq::new(
        if cuts.len() > 0 {
            (cuts.len() - 1) as nat
        } else {
            0
        },
        |i: int| (cuts[i], cuts[i + 1]),
    )
}

/// Pairs each cut row with the next one.
pub fn page_ranges_of(cuts: &Vec<usize>) -> (r: Vec<(usize, usize)>)
    ensures
        r@ == page_ranges(cuts@),
{
    let mut r: Vec<(usize, usize)> = Vec::new();
    if cuts.len() == 0 {
        assert(r@ =~= page_ranges(cuts@));
        return r;
    }
    let mut i: usize = 0;
    while i < cuts.len() - 1
        invariant
            cuts@.len() > 0,
            i + 1 <= cuts@.len(),
            r@ =~= page_ranges(cuts@).subrange(0, i as int),
        decreases cuts@.len() - i,
    {
        r.push((cuts[i], cuts[i + 1]));
        i = i + 1;
    }
    assert(r@ =~= page_ranges(cuts@));
    r
}

/// Cut rows that can bound pages of a strip `height` rows tall: they start at
/// 0, end at `height` and never go back up.
pub open spec fn valid_cuts(cuts: Seq<usize>, height: nat) -> bool {
    &&& cuts.len() >= 1
    &&& cuts[0] == 0
    &&& cuts.last() == height
    &&& forall|i: int| 0 <= i < cuts.len() - 1 ==> #[trigger] cuts[i] <= cuts[i + 1]
}

/// The pages of a strip cut at `cuts`.
pub open spec fn page_views(s: StripView, cuts: Seq<usize>) -> Seq<StripView> {
    Seq::new(
        page_ranges(cuts).len(),
        |i: int|
            StripView {
                width: s.width,
                height: (cuts[i + 1] - cuts[i]) as nat,
                pixels: rows_of(s, cuts[i] as int, cuts[i + 1] as int),
            },
    )
}

/// Cut rows that never go back up stay at or below the last one.
pub proof fn lemma_cuts_bounded(cuts: Seq<usize>)
    requires
        cuts.len() >= 1,
        forall|i: int| 0 <= i < cuts.len() - 1 ==> #[trigger] cuts[i] <= cuts[i + 1],
    ensures
        forall|i: int| 0 <= i < cuts.len() ==> #[trigger] cuts[i] <= cuts.last(),
    decreases cuts.len(),
{
    if cuts.len() > 1 {
        let d = cuts.drop_last();
        assert forall|i: int| 0 <= i < d.len() - 1 implies #[trigger] d[i] <= d[i + 1] by {
            assert(d[i] == cuts[i] && d[i + 1] == cuts[i + 1]);
        }
        lemma_cuts_bounded(d);
        assert forall|i: int| 0 <= i < cuts.len() implies #[trigger] cuts[i] <= cuts.last() by {
            if i < cuts.len() - 1 {
                assert(cuts[i] == d[i]);
                assert(d[d.len() - 1] == cuts[cuts.len() - 2]);
            }
        }
    }
}

proof fn lemma_restack_prefix(s: StripView, cuts: Seq<usize>)
    requires
        well_formed(s),
        cuts.len() >= 1,
        cuts[0] == 0,
        cuts.last() <= s.height,
        forall|i: int| 0 <= i < cuts.len() - 1 ==> #[trigger] cuts[i] <= cuts[i + 1],
    ensures
        stack_pixels(page_views(s, cuts)) == s.pixels.subrange(
            0,
            (cuts.last() * stride(s.width)) as int,
        ),
        total_height(page_views(s, cuts)) == cuts.last(),
    decreases cuts.len(),
{
    let pv = page_views(s, cuts);
    if cuts.len() == 1 {
        assert(pv.len() == 0);
        assert(0 * stride(s.width) == 0);
        assert(s.pixels.subrange(0, 0) =~= Seq::<u8>::empty());
    } else {
        let d = cuts.drop_last();
        assert forall|i: int| 0 <= i < d.len() - 1 implies #[trigger] d[i] <= d[i + 1] by {
            assert(d[i] == cuts[i] && d[i + 1] == cuts[i + 1]);
        }
        lemma_cuts_bounded(cuts);
        lemma_restack_prefix(s, d);
        assert(pv.drop_last() =~= page_views(s, d));
        let a = cuts[cuts.len() - 2] as int;
        let b = cuts.last() as int;
        assert(a <= b);
        lemma_rows_bounds(s, 0, a);
        lemma_rows_bounds(s, a, b);
        assert(pv.last() == pv[pv.len() - 1]);
        assert(s.pixels.subrange(0, a * stride(s.width)) + rows_of(s, a, b) =~= s.pixels.subrange(
            0,
            b * stride(s.width),
        ));
    }
}

/// Cutting a strip into pages and stacking the pages again gives back the
/// strip, byte for byte and row for row.
pub proof fn lemma_pages_restack(s: StripView, cuts: Seq<usize>)
    requires
        well_formed(s),
        valid_cuts(cuts, s.height),
    ensures
        stack_pixels(page_views(s, cuts)) == s.pixels,
        total_height(page_views(s, cuts)) == s.height,
{
    lemma_restack_prefix(s, cuts);
    assert(s.pixels.subrange(0, (s.height * stride(s.width)) as int) =~= s.pixels);
}

/// Slicing a strip at the cuts the scan finds and stacking the pages again
/// reproduces the strip exactly.
pub proof fn lemma_splitpoints_restack(
    s: StripView,
    max_height: int,
    min_height: int,
    scan_interval: int,
    sensitivity: u8,
)
    requires
        well_formed(s),
        scan_ok(max_height, min_height, scan_interval),
    ensures
        ({
            let cuts = cut_rows(
                splitpoints_of(roughness(s), max_height, min_height, scan_interval, sensitivity),
            );
            &&& valid_cuts(cuts, s.height)
            &&& stack_pixels(page_views(s, cuts)) == s.pixels
            &&& total_height(page_views(s, cuts)) == s.height
        }),
{
    lemma_splitpoints_shape(roughness(s), max_height, min_height, scan_interval, sensitivity);
    let cuts = cut_rows(
        splitpoints_of(roughness(s), max_height, min_height, scan_interval, sensitivity),
    );
    assert(valid_cuts(cuts, s.height));
    lemma_pages_restack(s, cuts);
}

/// The colour of a marker's line in debug output.
pub open spec fn marker_color(m: Splitpoint) -> (u8, u8, u8) {
    if m is Cut {
        (255u8, 0u8, 0u8)
    } else {
        (53u8, 81u8, 92u8)
    }
}

/// A page that starts at strip row `start`, with a line drawn on every
/// marker that falls inside it, in marker order.
pub open spec fn overlay(v: StripView, markers: Seq<Splitpoint>, start: int) -> StripView
    decreases markers.len(),
{
    if markers.len() == 0 {
        v
    } else {
        let prev = overlay(v, markers.drop_last(), start);
        let m = markers.last();
        if start <= m.row() < start + v.height {
            painted(prev, m.row() - start, marker_color(m))
        } else {
            prev
        }
    }
}

/// The page of rows `start` to `end`, with marker lines when `debug` is set.
pub open spec fn rendered(
    s: StripView,
    markers: Seq<Splitpoint>,
    start: int,
    end: int,
    debug: bool,
) -> StripView {
    let page = StripView {
        width: s.width,
        height: (end - start) as nat,
        pixels: rows_of(s, start, end),
    };
    if debug {
        overlay(page, markers, start)
    } else {
        page
    }
}

/// Copies rows `start` to `end` of the strip; with `debug`, draws a line on
/// each marker row inside them, red for cuts and grey-blue for skipped rows.
pub fn render_page(
    strip: &Strip,
    markers: &Vec<Splitpoint>,
    start: usize,
    end: usize,
    debug: bool,
) -> (r: Strip)
    requires
        start <= end <= strip@.height,
    ensures
        r@ == rendered(strip@, markers@, start as int, end as int, debug),
{
    let mut page = strip.crop_rows(start, end);
    if debug {
        let ghost base = page@;
        let mut i: usize = 0;
        while i < markers.len()
            invariant
                i <= markers@.len(),
                base.height == end - start,
                page@ == overlay(base, markers@.subrange(0, i as int), start as int),
                page@.height == base.height,
                page@.width == base.width,
            decreases markers@.len() - i,
        {
            assert(markers@.subrange(0, i + 1).drop_last() =~= markers@.subrange(0, i as int));
            let m = markers[i];
            let row = m.get();
            if start <= row && row < end {
                let color = if m.is_cut() {
                    (255u8, 0u8, 0u8)
                } else {
                    (53u8, 81u8, 92u8)
                };
                page.paint_row(row - start, color);
            }
            i = i + 1;
        }
        assert(markers@.subrange(0, i as int) =~= markers@);
    }
    page
}

/// What the PNG encoder of the `image` crate makes of an RGB image
/// (`None`: it refuses the image).
pub uninterp spec fn png_encoding(width: nat, height: nat, pixels: Seq<u8>) -> Option<Seq<u8>>;

/// What the lossless WebP encoder of the `image` crate makes of an RGB image.
pub uninterp spec fn webp_encoding(width: nat, height: nat, pixels: Seq<u8>) -> Option<Seq<u8>>;

/// What the JPEG encoder of the `image` crate makes of an RGB image at a quality.
pub uninterp spec fn jpeg_encoding(width: nat, height: nat, pixels: Seq<u8>, quality: u8) -> Option<
    Seq<u8>,
>;

/// The file contents of a page in a format.
pub open spec fn encoding(format: ImageOutputFormat, v: StripView) -> Option<Seq<u8>> {
    match format {
        ImageOutputFormat::Png => png_encoding(v.width, v.height, v.pixels),
        ImageOutputFormat::Webp => webp_encoding(v.width, v.height, v.pixels),
        ImageOutputFormat::Jpeg(q) => jpeg_encoding(v.width, v.height, v.pixels, q),
        ImageOutputFormat::Jpg(q) => jpeg_encoding(v.width, v.height, v.pixels, q),
    }
}

/// Relies on `image::codecs::png::PngEncoder::new` with
/// `ImageBuffer::write_with_encoder`: the bytes depend on the image alone.
/// `from_raw` accepts the buffer, whose length is exactly `width * height * 3`.
#[verifier::external_body]
fn encode_png(width: u32, height: u32, pixels: &Vec<u8>) -> (r: Result<Vec<u8>, image::ImageError>)
    requires
        pixels@.len() == height * stride(width as nat),
    ensures
        r is Ok <==> png_encoding(width as nat, height as nat, pixels@) is Some,
        r matches Ok(b) ==> png_encoding(width as nat, height as nat, pixels@) == Some(b@),
{
    let img = image::RgbImage::from_raw(width, height, pixels.clone()).unwrap();
    let mut out: Vec<u8> = Vec::new();
    img.write_with_encoder(image::codecs::png::PngEncoder::new(&mut out)).map(|_| out)
}

/// Relies on `image::codecs::webp::WebPEncoder::new_lossless` with
/// `ImageBuffer::write_with_encoder`: the bytes depend on the image alone.
#[verifier::external_body]
fn encode_webp(width: u32, height: u32, pixels: &Vec<u8>) -> (r: Result<Vec<u8>, image::ImageError>)
    requires
        pixels@.len() == height * stride(width as nat),
    ensures
        r is Ok <==> webp_encoding(width as nat, height as nat, pixels@) is Some,
        r matches Ok(b) ==> webp_encoding(width as nat, height as nat, pixels@) == Some(b@),
{
    let img = image::RgbImage::from_raw(width, height, pixels.clone()).unwrap();
    let mut out: Vec<u8> = Vec::new();
    img.write_with_encoder(image::codecs::webp::WebPEncoder::new_lossless(&mut out)).map(|_| out)
}

/// Relies on `image::codecs::jpeg::JpegEncoder::new_with_quality` (which
/// clamps the quality to 1..=100) with `ImageBuffer::write_with_encoder`: the
/// bytes depend on the image and the quality alone.
#[verifier::external_body]
fn encode_jpeg(width: u32, height: u32, pixels: &Vec<u8>, quality: u8) -> (r: Result<
    Vec<u8>,
    image::ImageError,
>)
    requires
        pixels@.len() == height * stride(width as nat),
    ensures
        r is Ok <==> jpeg_encoding(width as nat, height as nat, pixels@, quality) is Some,
        r matches Ok(b) ==> jpeg_encoding(width as nat, height as nat, pixels@, quality) == Some(b@),
{
    let img = image::RgbImage::from_raw(width, height, pixels.clone()).unwrap();
    let mut out: Vec<u8> = Vec::new();
    let encoder = image::codecs::jpeg::JpegEncoder::new_with_quality(&mut out, quality);
    img.write_with_encoder(encoder).map(|_| out)
}

/// Encodes a page in the given format.
pub fn encode_page(page: &Strip, format: ImageOutputFormat) -> (r: Result<
    Vec<u8>,
    ImageSplitterError,
>)
    ensures
        r is Ok <==> encoding(format, page@) is Some,
        r matches Ok(b) ==> encoding(format, page@) == Some(b@),
        r matches Err(e) ==> e is ImageError,
{
    proof {
        use_type_invariant(page);
    }
    let (w, h, px) = (page.width(), page.height(), page.pixels());
    let res = match format {
        ImageOutputFormat::Png => encode_png(w, h, px),
        ImageOutputFormat::Webp => encode_webp(w, h, px),
        ImageOutputFormat::Jpeg(q) => encode_jpeg(w, h, px, q),
        ImageOutputFormat::Jpg(q) => encode_jpeg(w, h, px, q),
    };
    match res {
        Ok(b) => Ok(b),
        Err(e) => Err(ImageSplitterError::ImageError(e)),
    }
}

/// One exported page: its file name and its encoded contents.
pub struct PageFile {
    pub name: String,
    pub bytes: Vec<u8>,
}

/// What exporting page `i` of the strip gives: its name and bytes, or the
/// encoder's refusal.
pub open spec fn page_outcome(
    s: StripView,
    markers: Seq<Splitpoint>,
    format: ImageOutputFormat,
    debug: bool,
    i: int,
    r: Result<PageFile, ImageSplitterError>,
) -> bool {
    let cuts = cut_rows(markers);
    let count = (cuts.len() - 1) as nat;
    let page = rendered(s, markers, cuts[i] as int, cuts[i + 1] as int, debug);
    match r {
        Ok(f) => encoding(format, page) == Some(f.bytes@) && f.name@ == page_file_name(
            i as nat,
            count,
            format,
        ),
        Err(e) => encoding(format, page) is None && e is ImageError,
    }
}

/// Renders and encodes every page between neighbouring cuts, in order.
pub fn split_image(
    strip: &Strip,
    markers: &Vec<Splitpoint>,
    format: ImageOutputFormat,
    debug: bool,
) -> (r: Vec<Result<PageFile, ImageSplitterError>>)
    requires
        valid_cuts(cut_rows(markers@), strip@.height),
    ensures
        r@.len() == cut_rows(markers@).len() - 1,
        forall|i: int|
            0 <= i < r@.len() ==> page_outcome(strip@, markers@, format, debug, i, #[trigger] r@[i]),
{
    let cuts = cut_rows_of(markers);
    proof {
        lemma_cuts_bounded(cuts@);
    }
    let count = cuts.len() - 1;
    let mut out: Vec<Result<PageFile, ImageSplitterError>> = Vec::new();
    let mut i: usize = 0;
    while i < count
        invariant
            cuts@ == cut_rows(markers@),
            valid_cuts(cuts@, strip@.height),
            forall|k: int| 0 <= k < cuts@.len() ==> #[trigger] cuts@[k] <= strip@.height,
            count == cuts@.len() - 1,
            i <= count,
            out@.len() == i,
            forall|k: int|
                0 <= k < i ==> page_outcome(strip@, markers@, format, debug, k, #[trigger] out@[k]),
        decreases count - i,
    {
        let start = cuts[i];
        let end = cuts[i + 1];
        let page = render_page(strip, markers, start, end, debug);
        let res = match encode_page(&page, format) {
            Ok(bytes) => Ok(PageFile { name: file_name(i, count, format), bytes }),
            Err(e) => Err(e),
        };
        out.push(res);
        i = i + 1;
    }
    out
}

/// The errors among `results`, in order.
pub open spec fn errors_of<E>(results: Seq<Result<(), E>>) -> Seq<E>
    decreases results.len(),
{
    if results.len() == 0 {
        Seq::empty()
    } else {
        let rest = errors_of(results.drop_first());
        match results[0] {
            Ok(_) => rest,
            Err(e) => seq![e] + rest,
        }
    }
}

proof fn lemma_errors_empty<E>(results: Seq<Result<(), E>>)
    ensures
        errors_of(results).len() == 0 <==> forall|i: int|
            0 <= i < results.len() ==> #[trigger] results[i] is Ok,
    decreases results.len(),
{
    if results.len() > 0 {
        lemma_errors_empty(results.drop_first());
        if results[0] is Ok {
            assert forall|i: int| 0 <= i < results.len() && results.drop_first().len() >= 0 && (
            forall|j: int|
                0 <= j < results.drop_first().len() ==> #[trigger] results.drop_first()[j] is Ok)
                implies #[trigger] results[i] is Ok by {
                if i > 0 {
                    assert(results[i] == results.drop_first()[i - 1]);
                }
            }
            assert((forall|i: int| 0 <= i < results.len() ==> #[trigger] results[i] is Ok) ==> (
            forall|j: int|
                0 <= j < results.drop_first().len() ==> #[trigger] results.drop_first()[j] is Ok))
                by {
                assert forall|j: int|
                    0 <= j < results.drop_first().len() && (forall|i: int|
                        0 <= i < results.len() ==> #[trigger] results[i] is Ok) implies #[trigger] results.drop_first()[j] is Ok by {
                    assert(results.drop_first()[j] == results[j + 1]);
                }
            }
        }
    }
}

/// Succeeds when every page was written; otherwise fails with every error, in page order.
pub fn collect_errors(results: Vec<Result<(), ImageSplitterError>>) -> (r: Result<
    (),
    Vec<ImageSplitterError>,
>)
    ensures
        r is Ok <==> forall|i: int| 0 <= i < results@.len() ==> #[trigger] results@[i] is Ok,
        r matches Err(es) ==> es@ == errors_of(results@) && es@.len() > 0,
{
    let ghost all = results@;
    let mut rest = results;
    let mut errors: Vec<ImageSplitterError> = Vec::new();
    while rest.len() > 0
        invariant
            errors@ + errors_of(rest@) == errors_of(all),
        decreases rest@.len(),
    {
        let ghost before = rest@;
        let first = rest.remove(0);
        assert(before.drop_first() =~= rest@);
        match first {
            Ok(()) => {},
            Err(e) => {
                errors.push(e);
                assert(errors@ + errors_of(rest@) =~= errors_of(all));
            },
        }
    }
    assert(errors_of(rest@) =~= Seq::<ImageSplitterError>::empty());
    assert(errors@ + errors_of(rest@) =~= errors@);
    proof {
        lemma_errors_empty(all);
    }
    if errors.len() == 0 {
        Ok(())
    } else {
        Err(errors)
    }
}

} // verus!
