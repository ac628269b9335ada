//! Errors of loading and of exporting.
use vstd::prelude::*;

verus! {

/// The `image` crate's error for a failed decode or encode, carried as is.
#[verifier::external_type_specification]
#[verifier::external_body]
pub struct ExImageError(image::ImageError);

/// An I/O failure reported by the caller that did the I/O, carried as is.
#[verifier::external_type_specification]
#[verifier::external_body]
pub struct ExIoError(std::io::Error);

/// Errors related to loading images.
#[derive(Debug)]
pub enum ImageLoaderError {
    /// The file or directory does not exist.
    NotFound,
    /// The file or directory may not be read.
    PermissionDenied,
    /// No file of a known image type is in the directory (or nothing was left to load).
    NoImagesInDirectory,
    /// The path given as a directory is not one.
    ExpectedDirectory,
    /// A source image could not be decoded, or its size is out of range.
    ImageError(image::ImageError),
    /// Any other I/O failure.
    IoError(std::io::Error),
}

/// Errors related to exporting pages.
#[derive(Debug)]
pub enum ImageSplitterError {
    /// The output directory does not exist.
    DirectoryNotFound,
    /// A page file could not be created for lack of permission.
    PermissionDenied,
    /// A page could not be encoded.
    ImageError(image::ImageError),
    /// Any other I/O failure while writing a page.
    IoError(std::io::Error),
}

} // verus!
