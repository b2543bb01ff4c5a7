//! Errors of the image processor.

use vstd::prelude::*;

verus! {

/// Declares `std::io::Error` to the verifier so that `AppError` can carry
/// it; nothing is assumed about its contents.
#[verifier::external_type_specification]
#[verifier::external_body]
pub struct ExIoError(std::io::Error);

/// Declares `image::ImageError` to the verifier so that `AppError` can carry
/// it; nothing is assumed about its contents.
#[verifier::external_type_specification]
#[verifier::external_body]
pub struct ExImageError(image::ImageError);

/// Declares `libloading::Error` to the verifier so that `AppError` can carry
/// it; nothing is assumed about its contents.
#[verifier::external_type_specification]
#[verifier::external_body]
pub struct ExLibloadingError(libloading::Error);

/// Everything that can go wrong while processing an image.
#[derive(Debug)]
pub enum AppError {
    /// Reading or writing a file failed.
    Io(std::io::Error),
    /// The input image could not be decoded, or the output not encoded.
    Image(image::ImageError),
    /// The plugin could not be loaded or reported a failure.
    PluginLoad(String),
    /// The plugin library could not be opened or lacks `process_image`.
    PluginSymbol(libloading::Error),
    /// The parameters could not be handed to the plugin.
    ParamParse(String),
    /// An argument was unusable.
    InvalidArgument(String),
}

/// Result of the image processor's operations.
pub type Result<T> = core::result::Result<T, AppError>;

} // verus!
