//! Choosing, ordering and combining the source pages.
use crate::error::ImageLoaderError;
use crate::strip::{stack_pixels, stride, total_height, views, Strip, StripView};
use std::cmp::Ordering;
use vstd::prelude::*;
use vstd::seq_lib::{to_multiset_build, to_multiset_insert};

verus! {

/// How the files of a directory are put in order.
#[derive(Debug, Clone, Copy, PartialEq, Eq, Structural)]
pub enum Sort {
    /// By code point, character after character.
    Logical,
    /// Runs of digits compare by their numeric value, so `9` comes before `10`.
    Natural,
}

/// The index of the last `.` before position `i`, or -1.
pub open spec fn last_dot(name: Seq<char>, i: int) -> int
    decreases i,
{
    if i <= 0 {
        -1
    } else if name[i - 1] == '.' {
        i - 1
    } else {
        last_dot(name, i - 1)
    }
}

/// What follows the last `.` of a file name, unless that dot opens the name.
pub open spec fn extension(name: Seq<char>) -> Option<Seq<char>> {
    let k = last_dot(name, name.len() as int);
    if k <= 0 {
        None
    } else {
        Some(name.subrange(k + 1, name.len() as int))
    }
}

/// A file name with one of the accepted image extensions (case counts).
pub open spec fn is_image_name(name: Seq<char>) -> bool {
    match extension(name) {
        Some(e) => e == "jpg"@ || e == "jpeg"@ || e == "png"@ || e == "webp"@,
        None => false,
    }
}

/// The image file names among `names`, in their order.
pub open spec fn image_names(names: Seq<String>) -> Seq<String>
    decreases names.len(),
{
    if names.len() == 0 {
        Seq::empty()
    } else {
        let rest = image_names(names.drop_last());
        if is_image_name(names.last()@) {
            rest.push(names.last())
        } else {
            rest
        }
    }
}

/// Code point by code point comparison; a proper prefix comes first.
pub open spec fn lex_order(a: Seq<char>, b: Seq<char>) -> Ordering
    decreases a.len(),
{
    if a.len() == 0 && b.len() == 0 {
        Ordering::Equal
    } else if a.len() == 0 {
        Ordering::Less
    } else if b.len() == 0 {
        Ordering::Greater
    } else if (a[0] as u32) < (b[0] as u32) {
        Ordering::Less
    } else if (a[0] as u32) > (b[0] as u32) {
        Ordering::Greater
    } else {
        lex_order(a.drop_first(), b.drop_first())
    }
}

/// How `natord::compare` orders two strings.
pub uninterp spec fn natural_order(a: Seq<char>, b: Seq<char>) -> Ordering;

/// Relies on `natord::compare`: it compares two strings case-sensitively,
/// skipping whitespace and comparing runs of decimal digits by value; the
/// answer depends on the characters alone.
#[verifier::external_body]
fn natural_compare(a: &str, b: &str) -> (r: Ordering)
    ensures
        r == natural_order(a@, b@),
{
    natord::compare(a, b)
}

pub open spec fn name_order(sort: Sort, a: Seq<char>, b: Seq<char>) -> Ordering {
    match sort {
        Sort::Logical => lex_order(a, b),
        Sort::Natural => natural_order(a, b),
    }
}

/// Where `x` goes when inserted into the first `j` names of `sorted`: after
/// every name it does not strictly precede.
pub open spec fn insert_pos(sorted: Seq<String>, x: String, sort: Sort, j: int) -> int
    decreases j,
{
    if j > 0 && name_order(sort, x@, sorted[j - 1]@) == Ordering::Less {
        insert_pos(sorted, x, sort, j - 1)
    } else {
        j
    }
}

/// `names` put in order by stable insertion.
pub open spec fn sorted_names(names: Seq<String>, sort: Sort) -> Seq<String>
    decreases names.len(),
{
    if names.len() == 0 {
        Seq::empty()
    } else {
        let s = sorted_names(names.drop_last(), sort);
        s.insert(insert_pos(s, names.last(), sort, s.len() as int), names.last())
    }
}

proof fn lemma_sorted_len(names: Seq<String>, sort: Sort)
    ensures
        sorted_names(names, sort).len() == names.len(),
    decreases names.len(),
{
    if names.len() > 0 {
        lemma_sorted_len(names.drop_last(), sort);
        lemma_insert_pos_range(
            sorted_names(names.drop_last(), sort),
            names.last(),
            sort,
            names.len() - 1,
        );
    }
}

proof fn lemma_insert_pos_range(sorted: Seq<String>, x: String, sort: Sort, j: int)
    requires
        0 <= j <= sorted.len(),
    ensures
        0 <= insert_pos(sorted, x, sort, j) <= j,
    decreases j,
{
    if j > 0 {
        lemma_insert_pos_range(sorted, x, sort, j - 1);
    }
}

/// Where insertion stops: `x` does not strictly precede the name before it,
/// and strictly precedes the name after it (when those exist below `j`).
proof fn lemma_insert_pos_stops(sorted: Seq<String>, x: String, sort: Sort, j: int)
    requires
        0 <= j <= sorted.len(),
    ensures
        ({
            let p = insert_pos(sorted, x, sort, j);
            &&& 0 <= p <= j
            &&& p > 0 ==> name_order(sort, x@, sorted[p - 1]@) != Ordering::Less
            &&& p < j ==> name_order(sort, x@, sorted[p]@) == Ordering::Less
        }),
    decreases j,
{
    if j > 0 && name_order(sort, x@, sorted[j - 1]@) == Ordering::Less {
        lemma_insert_pos_stops(sorted, x, sort, j - 1);
    }
}

/// Sorting keeps every name, as often as it came.
pub proof fn lemma_sorted_permutation(names: Seq<String>, sort: Sort)
    ensures
        sorted_names(names, sort).to_multiset() == names.to_multiset(),
    decreases names.len(),
{
    if names.len() == 0 {
        assert(sorted_names(names, sort) =~= names);
    } else {
        let d = names.drop_last();
        let x = names.last();
        lemma_sorted_permutation(d, sort);
        let s = sorted_names(d, sort);
        lemma_sorted_len(d, sort);
        lemma_insert_pos_range(s, x, sort, s.len() as int);
        to_multiset_insert(s, insert_pos(s, x, sort, s.len() as int), x);
        to_multiset_build(d, x);
        assert(d.push(x) =~= names);
    }
}

proof fn lemma_lex_flip(a: Seq<char>, b: Seq<char>)
    ensures
        (lex_order(a, b) == Ordering::Less) == (lex_order(b, a) == Ordering::Greater),
    decreases a.len(),
{
    if a.len() > 0 && b.len() > 0 && (a[0] as u32) == (b[0] as u32) {
        lemma_lex_flip(a.drop_first(), b.drop_first());
    }
}

/// Every name is at most the one after it, code point by code point.
pub open spec fn logically_sorted(s: Seq<String>) -> bool {
    forall|i: int|
        #![trigger lex_order(s[i]@, s[i + 1]@)]
        0 <= i < s.len() - 1 ==> lex_order(s[i]@, s[i + 1]@) != Ordering::Greater
}

proof fn lemma_insert_keeps_sorted(s: Seq<String>, x: String, p: int)
    requires
        logically_sorted(s),
        0 <= p <= s.len(),
        p > 0 ==> lex_order(x@, s[p - 1]@) != Ordering::Less,
        p < s.len() ==> lex_order(x@, s[p]@) == Ordering::Less,
    ensures
        logically_sorted(s.insert(p, x)),
{
    let t = s.insert(p, x);
    assert forall|i: int| 0 <= i < t.len() - 1 implies #[trigger] lex_order(t[i]@, t[i + 1]@)
        != Ordering::Greater by {
        if i < p - 1 {
            assert(t[i] == s[i] && t[i + 1] == s[i + 1]);
            assert(lex_order(s[i]@, s[i + 1]@) != Ordering::Greater);
        } else if i == p - 1 {
            assert(t[i] == s[p - 1] && t[i + 1] == x);
            lemma_lex_flip(x@, s[p - 1]@);
        } else if i == p {
            assert(t[i] == x && t[i + 1] == s[p]);
        } else {
            let j = i - 1;
            assert(t[i] == s[j] && t[i + 1] == s[j + 1]);
            assert(lex_order(s[j]@, s[j + 1]@) != Ordering::Greater);
        }
    }
}

/// In logical order, every name is at most the one after it.
pub proof fn lemma_logical_sorted(names: Seq<String>)
    ensures
        logically_sorted(sorted_names(names, Sort::Logical)),
    decreases names.len(),
{
    if names.len() > 0 {
        let d = names.drop_last();
        let x = names.last();
        lemma_logical_sorted(d);
        let s = sorted_names(d, Sort::Logical);
        let p = insert_pos(s, x, Sort::Logical, s.len() as int);
        lemma_insert_pos_stops(s, x, Sort::Logical, s.len() as int);
        lemma_insert_keeps_sorted(s, x, p);
    }
}

/// Compares two strings code point by code point.
pub fn lex_compare(a: &str, b: &str) -> (r: Ordering)
    ensures
        r == lex_order(a@, b@),
{
    let la = a.unicode_len();
    let lb = b.unicode_len();
    let mut i: usize = 0;
    assert(a@.subrange(0, la as int) =~= a@);
    assert(b@.subrange(0, lb as int) =~= b@);
    while i < la && i < lb
        invariant
            la == a@.len(),
            lb == b@.len(),
            i <= la,
            i <= lb,
            lex_order(a@, b@) == lex_order(a@.subrange(i as int, la as int), b@.subrange(
                i as int,
                lb as int,
            )),
        decreases la - i,
    {
        let ca = a.get_char(i);
        let cb = b.get_char(i);
        let ghost sa = a@.subrange(i as int, la as int);
        let ghost sb = b@.subrange(i as int, lb as int);
        assert(sa[0] == ca && sb[0] == cb);
        if (ca as u32) < (cb as u32) {
            return Ordering::Less;
        }
        if (ca as u32) > (cb as u32) {
            return Ordering::Greater;
        }
        assert(sa.drop_first() =~= a@.subrange(i + 1, la as int));
        assert(sb.drop_first() =~= b@.subrange(i + 1, lb as int));
        i = i + 1;
    }
    if i == la && i == lb {
        Ordering::Equal
    } else if i == la {
        Ordering::Less
    } else {
        Ordering::Greater
    }
}

/// Orders two file names by the chosen rule.
pub fn compare_names(sort: Sort, a: &String, b: &String) -> (r: Ordering)
    ensures
        r == name_order(sort, a@, b@),
{
    match sort {
        Sort::Logical => lex_compare(a.as_str(), b.as_str()),
        Sort::Natural => natural_compare(a.as_str(), b.as_str()),
    }
}

/// Whether `name` from position `start` on is exactly `ext`.
fn tail_is(name: &str, start: usize, ext: &str) -> (r: bool)
    requires
        start <= name@.len(),
    ensures
        r == (name@.subrange(start as int, name@.len() as int) == ext@),
{
    let n = name.unicode_len();
    let m = ext.unicode_len();
    if n - start != m {
        proof {
            let t = name@.subrange(start as int, n as int);
            assert(t.len() != ext@.len());
        }
        return false;
    }
    let mut k: usize = 0;
    while k < m
        invariant
            n == name@.len(),
            m == ext@.len(),
            n - start == m,
            k <= m,
            forall|t: int| 0 <= t < k ==> name@[start + t] == ext@[t],
        decreases m - k,
    {
        if name.get_char(start + k) != ext.get_char(k) {
            proof {
                let t = name@.subrange(start as int, n as int);
                assert(t[k as int] != ext@[k as int]);
            }
            return false;
        }
        k = k + 1;
    }
    assert(name@.subrange(start as int, n as int) =~= ext@);
    true
}

/// Whether a file name ends in `.jpg`, `.jpeg`, `.png` or `.webp` after a
/// non-empty stem.
pub fn has_image_extension(name: &str) -> (r: bool)
    ensures
        r == is_image_name(name@),
{
    let n = name.unicode_len();
    let mut i: usize = n;
    while i > 0
        invariant
            n == name@.len(),
            i <= n,
            last_dot(name@, n as int) == last_dot(name@, i as int),
        ensures
            last_dot(name@, n as int) == i - 1,
        decreases i,
    {
        if name.get_char(i - 1) == '.' {
            break ;
        }
        i = i - 1;
    }
    if i <= 1 {
        return false;
    }
    let k = i - 1;
    assert(last_dot(name@, n as int) == k);
    tail_is(name, i, "jpg") || tail_is(name, i, "jpeg") || tail_is(name, i, "png") || tail_is(
        name,
        i,
        "webp",
    )
}

/// Keeps the names with an image extension and puts them in order; fails
/// with `NoImagesInDirectory` when none is left.
pub fn find_images(names: Vec<String>, sort: Sort) -> (r: Result<Vec<String>, ImageLoaderError>)
    ensures
        r is Err <==> image_names(names@).len() == 0,
        r matches Err(e) ==> e is NoImagesInDirectory,
        r matches Ok(v) ==> v@ == sorted_names(image_names(names@), sort),
        r matches Ok(v) ==> v@.to_multiset() == image_names(names@).to_multiset(),
        r matches Ok(v) ==> (sort == Sort::Logical ==> logically_sorted(v@)),
{
    let ghost all = names@;
    let mut rest = names;
    let mut kept: Vec<String> = Vec::new();
    let mut taken: usize = 0;
    let total = rest.len();
    while taken < total
        invariant
            total == all.len(),
            taken <= total,
            rest@ == all.subrange(taken as int, total as int),
            kept@ == image_names(all.subrange(0, taken as int)),
        decreases total - taken,
    {
        let name = rest.remove(0);
        assert(name == all[taken as int]);
        assert(rest@ =~= all.subrange(taken + 1, total as int));
        assert(all.subrange(0, taken + 1).drop_last() =~= all.subrange(0, taken as int));
        if has_image_extension(name.as_str()) {
            kept.push(name);
        }
        taken = taken + 1;
    }
    assert(all.subrange(0, total as int) =~= all);
    if kept.len() == 0 {
        return Err(ImageLoaderError::NoImagesInDirectory);
    }
    let ghost input = kept@;
    let mut sorted: Vec<String> = Vec::new();
    let mut done: usize = 0;
    let count = kept.len();
    while done < count
        invariant
            count == input.len(),
            done <= count,
            kept@ == input.subrange(done as int, count as int),
            sorted@ == sorted_names(input.subrange(0, done as int), sort),
            sorted@.len() == done,
        decreases count - done,
    {
        let x = kept.remove(0);
        assert(x == input[done as int]);
        assert(kept@ =~= input.subrange(done + 1, count as int));
        let ghost prefix = input.subrange(0, done + 1);
        assert(prefix.drop_last() =~= input.subrange(0, done as int));
        let mut j: usize = sorted.len();
        while j > 0
            invariant
                j <= sorted@.len(),
                insert_pos(sorted@, x, sort, sorted@.len() as int) == insert_pos(
                    sorted@,
                    x,
                    sort,
                    j as int,
                ),
            ensures
                insert_pos(sorted@, x, sort, sorted@.len() as int) == j,
            decreases j,
        {
            match compare_names(sort, &x, &sorted[j - 1]) {
                Ordering::Less => {},
                _ => {
                    break ;
                },
            }
            j = j - 1;
        }
        sorted.insert(j, x);
        proof {
            lemma_sorted_len(input.subrange(0, done + 1), sort);
        }
        done = done + 1;
    }
    assert(input.subrange(0, count as int) =~= input);
    proof {
        lemma_sorted_permutation(input, sort);
        lemma_logical_sorted(input);
    }
    Ok(sorted)
}

/// What the `image` crate decodes from a file's bytes: width, height and RGB
/// bytes (`None`: it cannot decode them).
pub uninterp spec fn decoded(bytes: Seq<u8>) -> Option<(nat, nat, Seq<u8>)>;

/// What the `image` crate's Lanczos resampling makes of an RGB image asked to
/// become `target` pixels wide with its aspect ratio kept.
pub uninterp spec fn resized(width: nat, height: nat, pixels: Seq<u8>, target: nat) -> (
    nat,
    nat,
    Seq<u8>,
);

/// Relies on `image::load_from_memory` (the format is guessed from the bytes)
/// and `DynamicImage::into_rgb8`: the result depends on the bytes alone.
#[verifier::external_body]
fn decode_rgb(bytes: &Vec<u8>) -> (r: Result<(u32, u32, Vec<u8>), image::ImageError>)
    ensures
        r is Ok <==> decoded(bytes@) is Some,
        r matches Ok(d) ==> decoded(bytes@) == Some((d.0 as nat, d.1 as nat, d.2@)),
{
    match image::load_from_memory(bytes) {
        Ok(img) => {
            let rgb = img.into_rgb8();
            Ok((rgb.width(), rgb.height(), rgb.into_raw()))
        },
        Err(e) => Err(e),
    }
}

/// Relies on `DynamicImage::resize(target, u32::MAX, FilterType::Lanczos3)`,
/// which keeps the aspect ratio, and `into_rgb8`: the result depends on the
/// image and the target width alone. `from_raw` accepts a buffer of exactly
/// `width * height * 3` bytes.
#[verifier::external_body]
fn resize_rgb(width: u32, height: u32, pixels: &Vec<u8>, target: u32) -> (r: (u32, u32, Vec<u8>))
    requires
        pixels@.len() == height * stride(width as nat),
        width >= 1,
        height >= 1,
    ensures
        resized(width as nat, height as nat, pixels@, target as nat) == (
            r.0 as nat,
            r.1 as nat,
            r.2@,
        ),
{
    let img = image::RgbImage::from_raw(width, height, pixels.clone()).unwrap();
    let filter = image::imageops::FilterType::Lanczos3;
    let out = image::DynamicImage::ImageRgb8(img).resize(target, u32::MAX, filter).into_rgb8();
    (out.width(), out.height(), out.into_raw())
}

/// Relies on `image::error::LimitError::from_kind`: builds the `image` crate's
/// error for dimensions out of range.
#[verifier::external_body]
fn dimension_error() -> (e: image::ImageError) {
    image::ImageError::Limits(
        image::error::LimitError::from_kind(image::error::LimitErrorKind::DimensionError),
    )
}

/// A decoded image as (width, height, bytes).
pub open spec fn dview(d: (u32, u32, Vec<u8>)) -> (nat, nat, Seq<u8>) {
    (d.0 as nat, d.1 as nat, d.2@)
}

/// What reading and decoding a source gives, if anything.
pub open spec fn source_image(src: Result<Vec<u8>, ImageLoaderError>) -> Option<(nat, nat, Seq<u8>)> {
    match src {
        Ok(b) => decoded(b@),
        Err(_) => None,
    }
}

/// The images of the sources that could be read and decoded, in order.
pub open spec fn decoded_all(srcs: Seq<Result<Vec<u8>, ImageLoaderError>>) -> Seq<
    (nat, nat, Seq<u8>),
>
    decreases srcs.len(),
{
    if srcs.len() == 0 {
        Seq::empty()
    } else {
        let rest = decoded_all(srcs.drop_last());
        match source_image(srcs.last()) {
            Some(d) => rest.push(d),
            None => rest,
        }
    }
}

/// The smallest width among the images.
pub open spec fn min_width(ds: Seq<(nat, nat, Seq<u8>)>) -> Option<nat>
    decreases ds.len(),
{
    if ds.len() == 0 {
        None
    } else {
        match min_width(ds.drop_last()) {
            Some(m) => Some(
                if ds.last().0 < m {
                    ds.last().0
                } else {
                    m
                },
            ),
            None => Some(ds.last().0),
        }
    }
}

/// The width of the strip: the one asked for, or else the smallest source width.
pub open spec fn target_width(width: Option<u32>, ds: Seq<(nat, nat, Seq<u8>)>) -> Option<nat> {
    match width {
        Some(w) => Some(w as nat),
        None => min_width(ds),
    }
}

/// An image brought to `target` width: as it is when it already has that
/// width, else resampled (`None` when that cannot be done or gives another width).
pub open spec fn prepared(d: (nat, nat, Seq<u8>), target: nat) -> Option<StripView> {
    let (w, h, px) = d;
    if px.len() != h * stride(w) {
        None
    } else if w == target {
        Some(StripView { width: w, height: h, pixels: px })
    } else if w == 0 || h == 0 {
        None
    } else {
        let (rw, rh, rpx) = resized(w, h, px, target);
        if rw == target && rpx.len() == rh * stride(rw) {
            Some(StripView { width: rw, height: rh, pixels: rpx })
        } else {
            None
        }
    }
}

/// The images that could be brought to `target` width, in order.
pub open spec fn prepared_all(ds: Seq<(nat, nat, Seq<u8>)>, target: nat) -> Seq<StripView>
    decreases ds.len(),
{
    if ds.len() == 0 {
        Seq::empty()
    } else {
        let rest = prepared_all(ds.drop_last(), target);
        match prepared(ds.last(), target) {
            Some(v) => rest.push(v),
            None => rest,
        }
    }
}

/// Whether loading succeeds once every source needed was decoded.
pub open spec fn load_fits(ds: Seq<(nat, nat, Seq<u8>)>, t: nat, ignore_unloadable: bool) -> bool {
    let ps = prepared_all(ds, t);
    &&& ignore_unloadable || forall|i: int| 0 <= i < ds.len() ==> (#[trigger] prepared(ds[i], t)) is Some
    &&& t <= u32::MAX
    &&& total_height(ps) <= u32::MAX
    &&& total_height(ps) * stride(t) <= usize::MAX
}

/// A load's result, with the strip as its view.
pub open spec fn strip_result(r: Result<Strip, ImageLoaderError>) -> Result<StripView, ImageLoaderError> {
    match r {
        Ok(s) => Ok(s@),
        Err(e) => Err(e),
    }
}

/// What loading `sources` gives. Without `ignore_unloadable`, the first source
/// that cannot be read or decoded decides the error: its read error, or the
/// decoder's. Once every needed source is decoded: no width and no image is
/// `NoImagesInDirectory`; otherwise the strip, of the target width and stacked
/// from the prepared images in order, exactly when `load_fits` holds, and an
/// image error when it does not.
pub open spec fn load_spec(
    sources: Seq<Result<Vec<u8>, ImageLoaderError>>,
    width: Option<u32>,
    ignore_unloadable: bool,
    r: Result<StripView, ImageLoaderError>,
) -> bool {
    let ds = decoded_all(sources);
    let t = target_width(width, ds);
    &&& forall|i: int|
        #![trigger sources[i]]
        0 <= i < sources.len() && !ignore_unloadable && source_image(sources[i]) is None && (
        forall|j: int| 0 <= j < i ==> (#[trigger] source_image(sources[j])) is Some) ==> (
        sources[i] matches Err(e0) ==> r == Err::<StripView, ImageLoaderError>(e0)) && (
        sources[i] is Ok ==> r matches Err(ImageLoaderError::ImageError(_)))
    &&& (ignore_unloadable || forall|i: int|
        0 <= i < sources.len() ==> (#[trigger] source_image(sources[i])) is Some) ==> {
        &&& (t is None ==> r matches Err(ImageLoaderError::NoImagesInDirectory))
        &&& (t is Some ==> (r is Ok <==> load_fits(ds, t->0, ignore_unloadable)))
        &&& (t is Some ==> (r matches Ok(s) ==> s == (StripView {
            width: t->0,
            height: total_height(prepared_all(ds, t->0)),
            pixels: stack_pixels(prepared_all(ds, t->0)),
        })))
        &&& (t is Some ==> (r matches Err(e) ==> e is ImageError))
    }
}

/// Decodes the sources (each either the bytes of a file or the error that
/// reading it gave), brings them to one width and stacks them in order.
///
/// The width is `width` when given, else the smallest width of the decoded
/// sources. With `ignore_unloadable`, sources that cannot be read, decoded or
/// resampled are left out; without it, the first such source ends the load
/// with its error.
pub fn load_images(
    sources: Vec<Result<Vec<u8>, ImageLoaderError>>,
    width: Option<u32>,
    ignore_unloadable: bool,
) -> (r: Result<Strip, ImageLoaderError>)
    ensures
        load_spec(sources@, width, ignore_unloadable, strip_result(r)),
{
    let ghost all = sources@;
    let mut rest = sources;
    let total = rest.len();
    let mut ds: Vec<(u32, u32, Vec<u8>)> = Vec::new();
    let mut k: usize = 0;
    while k < total
        invariant
            all == sources@,
            total == all.len(),
            k <= total,
            rest@ == all.subrange(k as int, total as int),
            ds@.map_values(|d: (u32, u32, Vec<u8>)| dview(d)) == decoded_all(all.subrange(0, k as int)),
            !ignore_unloadable ==> forall|j: int| 0 <= j < k ==> (#[trigger] source_image(all[j])) is Some,
        decreases total - k,
    {
        let src = rest.remove(0);
        assert(src == all[k as int]);
        assert(rest@ =~= all.subrange(k + 1, total as int));
        assert(all.subrange(0, k + 1).drop_last() =~= all.subrange(0, k as int));
        assert(all.subrange(0, k + 1).last() == all[k as int]);
        let ghost before = ds@;
        match src {
            Ok(bytes) => match decode_rgb(&bytes) {
                Ok(d) => {
                    ds.push(d);
                    assert(ds@.map_values(|d: (u32, u32, Vec<u8>)| dview(d)) =~= before.map_values(
                        |d: (u32, u32, Vec<u8>)| dview(d),
                    ).push(dview(d)));
                },
                Err(e) => {
                    assert(source_image(all[k as int]) is None);
                    if !ignore_unloadable {
                        return Err(ImageLoaderError::ImageError(e));
                    }
                },
            },
            Err(e) => {
                assert(source_image(all[k as int]) is None);
                if !ignore_unloadable {
                    return Err(e);
                }
            },
        }
        k = k + 1;
    }
    assert(all.subrange(0, total as int) =~= all);
    let ghost dsv = ds@.map_values(|d: (u32, u32, Vec<u8>)| dview(d));
    let target: u32 = match width {
        Some(w) => w,
        None => {
            if ds.len() == 0 {
                return Err(ImageLoaderError::NoImagesInDirectory);
            }
            let mut m: u32 = ds[0].0;
            let mut i: usize = 1;
            assert(dsv.subrange(0, 1).drop_last() =~= Seq::<(nat, nat, Seq<u8>)>::empty());
            assert(dsv[0] == dview(ds@[0]));
            assert(dsv.subrange(0, 1).last() == dsv[0]);
            assert(min_width(Seq::<(nat, nat, Seq<u8>)>::empty()) is None);
            assert(min_width(dsv.subrange(0, 1)) == Some(dsv[0].0));
            while i < ds.len()
                invariant
                    1 <= i <= ds@.len(),
                    dsv == ds@.map_values(|d: (u32, u32, Vec<u8>)| dview(d)),
                    min_width(dsv.subrange(0, i as int)) == Some(m as nat),
                decreases ds@.len() - i,
            {
                assert(dsv.subrange(0, i + 1).drop_last() =~= dsv.subrange(0, i as int));
                assert(dsv[i as int] == dview(ds@[i as int]));
                assert(dsv.subrange(0, i + 1).last() == dsv[i as int]);
                if ds[i].0 < m {
                    m = ds[i].0;
                }
                i = i + 1;
            }
            assert(dsv.subrange(0, i as int) =~= dsv);
            m
        },
    };
    let ghost t = target as nat;
    let mut parts: Vec<Strip> = Vec::new();
    let count = ds.len();
    let mut q: usize = 0;
    assert(rest_ds_matches(ds@, dsv, 0));
    while q < count
        invariant
            all == sources@,
            dsv == decoded_all(all),
            target_width(width, dsv) == Some(t),
            t == target,
            !ignore_unloadable ==> forall|j: int|
                0 <= j < all.len() ==> (#[trigger] source_image(all[j])) is Some,
            q <= count,
            dsv.len() == count,
            rest_ds_matches(ds@, dsv, q as int),
            views(parts@) == prepared_all(dsv.subrange(0, q as int), t),
            forall|j: int| 0 <= j < parts@.len() ==> (#[trigger] parts@[j])@.width == target,
            !ignore_unloadable ==> forall|j: int| 0 <= j < q ==> (#[trigger] prepared(dsv[j], t)) is Some,
        decreases count - q,
    {
        let ghost old_ds = ds@;
        let d = ds.remove(0);
        assert(old_ds[0] == d);
        assert(dview(d) == dsv[q as int]);
        assert(rest_ds_matches(ds@, dsv, q + 1)) by {
            assert forall|j: int| 0 <= j < ds@.len() implies dview(#[trigger] ds@[j]) == dsv[q + 1
                + j] by {
                assert(ds@[j] == old_ds[j + 1]);
            }
        }
        assert(dsv.subrange(0, q + 1).drop_last() =~= dsv.subrange(0, q as int));
        assert(dsv.subrange(0, q + 1).last() == dsv[q as int]);
        let (w, h, px) = d;
        let made: Option<Strip> = if w == target {
            Strip::from_raw(w, h, px)
        } else {
            match Strip::from_raw(w, h, px) {
                Some(orig) => {
                    if w == 0 || h == 0 {
                        None
                    } else {
                        let (rw, rh, rpx) = resize_rgb(w, h, orig.pixels(), target);
                        if rw == target {
                            Strip::from_raw(rw, rh, rpx)
                        } else {
                            None
                        }
                    }
                },
                None => None,
            }
        };
        assert(made matches Some(s) ==> prepared(dsv[q as int], t) == Some(s@));
        assert(made is None <==> prepared(dsv[q as int], t) is None);
        let ghost before = parts@;
        match made {
            Some(s) => {
                parts.push(s);
                assert(views(parts@) =~= views(before).push(s@));
            },
            None => {
                if !ignore_unloadable {
                    assert(!load_fits(dsv, t, ignore_unloadable)) by {
                        assert(dsv[q as int] == dsv[q as int]);
                        assert(prepared(dsv[q as int], t) is None);
                    }
                    return Err(ImageLoaderError::ImageError(dimension_error()));
                }
            },
        }
        q = q + 1;
    }
    assert(dsv.subrange(0, count as int) =~= dsv);
    match Strip::stack(target, &parts) {
        Some(s) => Ok(s),
        None => Err(ImageLoaderError::ImageError(dimension_error())),
    }
}

/// The images still to be prepared are the tail of the decoded ones.
pub open spec fn rest_ds_matches(
    rest: Seq<(u32, u32, Vec<u8>)>,
    dsv: Seq<(nat, nat, Seq<u8>)>,
    q: int,
) -> bool {
    &&& rest.len() == dsv.len() - q
    &&& forall|j: int| 0 <= j < rest.len() ==> dview(#[trigger] rest[j]) == dsv[q + j]
}

} // verus!
