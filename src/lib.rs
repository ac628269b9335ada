//! Stitches a chapter of page images into one tall strip and cuts it again
//! into pages at visually quiet rows.
//!
//! The work runs in three steps, each a state of [`Stitcher`]: load the
//! sources into a strip, find where to cut it, then render the pages.

pub mod error;
pub mod export;
pub mod loader;
mod seal;
pub mod splitpoint;
pub mod splitter;
pub mod strip;

pub use error::{ImageLoaderError, ImageSplitterError};
pub use export::{ImageOutputFormat, PageFile};
pub use loader::Sort;
pub use splitpoint::Splitpoint;
pub use strip::Strip;

use export::{page_outcome, split_image, valid_cuts};
use loader::{load_images, load_spec};
use splitpoint::cut_rows;
use splitter::{find_splitpoints, lemma_splitpoints_shape, scan_ok, splitpoints_of};
use strip::{roughness, StripView};
use vstd::prelude::*;

verus! {

/// A step of the work a [`Stitcher`] has reached.
pub trait StitcherState: seal::Seal {}

/// Nothing is loaded yet.
pub struct Empty;

/// The sources are loaded and stacked into one strip.
pub struct Loaded {
    strip: Strip,
}

/// The strip is scanned and its splitpoints are known.
pub struct Stitched {
    strip: Strip,
    splitpoints: Vec<Splitpoint>,
}

impl Stitched {
    /// The cuts bound pages of the strip.
    #[verifier::type_invariant]
    closed spec fn inv(self) -> bool {
        valid_cuts(cut_rows(self.splitpoints@), self.strip@.height)
    }
}

impl seal::Seal for Empty {}

impl seal::Seal for Loaded {}

impl seal::Seal for Stitched {}

impl StitcherState for Empty {}

impl StitcherState for Loaded {}

impl StitcherState for Stitched {}

/// Loads, scans and exports, one step after the other: each step is a
/// method of the state it needs.
pub struct Stitcher<S: StitcherState> {
    data: S,
}

/// A load's result, with the strip as its view.
pub open spec fn loaded_result(r: Result<Stitcher<Loaded>, ImageLoaderError>) -> Result<
    StripView,
    ImageLoaderError,
> {
    match r {
        Ok(st) => Ok(st.image()),
        Err(e) => Err(e),
    }
}

impl Stitcher<Empty> {
    /// Creates an empty stitcher.
    pub fn new() -> Stitcher<Empty> {
        Stitcher { data: Empty }
    }

    /// Loads the sources, in the order given, into one strip.
    ///
    /// Each source is the content of an image file, or the error that reading
    /// it gave. `width` fixes the strip's width; without it the narrowest
    /// source sets it. With `ignore_unloadable`, sources that cannot be read or
    /// decoded are skipped.
    pub fn load(
        self,
        sources: Vec<Result<Vec<u8>, ImageLoaderError>>,
        width: Option<u32>,
        ignore_unloadable: bool,
    ) -> (r: Result<Stitcher<Loaded>, ImageLoaderError>)
        ensures
            load_spec(sources@, width, ignore_unloadable, loaded_result(r)),
    {
        match load_images(sources, width, ignore_unloadable) {
            Ok(strip) => Ok(Stitcher { data: Loaded { strip } }),
            Err(e) => Err(e),
        }
    }
}

impl Stitcher<Loaded> {
    pub closed spec fn image(&self) -> StripView {
        self.data.strip@
    }

    /// Finds the splitpoints of the loaded strip.
    pub fn stitch(
        self,
        max_height: usize,
        min_height: usize,
        scan_interval: usize,
        sensitivity: u8,
    ) -> (r: Stitcher<Stitched>)
        requires
            scan_ok(max_height as int, min_height as int, scan_interval as int),
        ensures
            r.image() == self.image(),
            r.splitpoints() == splitpoints_of(
                roughness(self.image()),
                max_height as int,
                min_height as int,
                scan_interval as int,
                sensitivity,
            ),
    {
        let splitpoints = find_splitpoints(
            &self.data.strip,
            max_height,
            min_height,
            scan_interval,
            sensitivity,
        );
        proof {
            use_type_invariant(&self.data.strip);
            lemma_splitpoints_shape(
                roughness(self.data.strip@),
                max_height as int,
                min_height as int,
                scan_interval as int,
                sensitivity,
            );
        }
        Stitcher { data: Stitched { strip: self.data.strip, splitpoints } }
    }

    /// The loaded strip.
    pub fn view_image(&self) -> (r: &Strip)
        ensures
            r@ == self.image(),
    {
        &self.data.strip
    }
}

impl Stitcher<Stitched> {
    pub closed spec fn image(&self) -> StripView {
        self.data.strip@
    }

    pub closed spec fn splitpoints(&self) -> Seq<Splitpoint> {
        self.data.splitpoints@
    }

    /// The strip.
    pub fn view_image(&self) -> (r: &Strip)
        ensures
            r@ == self.image(),
    {
        &self.data.strip
    }

    /// The splitpoints found.
    pub fn splitpoits(&self) -> (r: &Vec<Splitpoint>)
        ensures
            r@ == self.splitpoints(),
    {
        &self.data.splitpoints
    }

    /// Renders and encodes every page, for writing into an output directory.
    ///
    /// Fails with `DirectoryNotFound` alone, and renders nothing, when the
    /// directory does not exist. Otherwise gives one outcome per page, in
    /// order: its file name and bytes, or the encoder's error. With `debug`,
    /// each page shows a red line on its cut rows and a grey-blue one on the
    /// rows that were considered and passed over.
    pub fn export(
        &self,
        directory_exists: bool,
        output_filetype: ImageOutputFormat,
        debug: bool,
    ) -> (r: Result<Vec<Result<PageFile, ImageSplitterError>>, Vec<ImageSplitterError>>)
        ensures
            !directory_exists ==> (r matches Err(es) && es@.len() == 1
                && es@[0] is DirectoryNotFound),
            directory_exists ==> (r matches Ok(pages) && pages@.len() == cut_rows(
                self.splitpoints(),
            ).len() - 1 && forall|i: int|
                0 <= i < pages@.len() ==> page_outcome(
                    self.image(),
                    self.splitpoints(),
                    output_filetype,
                    debug,
                    i,
                    #[trigger] pages@[i],
                )),
    {
        if !directory_exists {
            return Err(vec![ImageSplitterError::DirectoryNotFound]);
        }
        proof {
            use_type_invariant(&self.data);
        }
        Ok(split_image(&self.data.strip, &self.data.splitpoints, output_filetype, debug))
    }
}

} // verus!
