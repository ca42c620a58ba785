//! Error taxonomy of the decoding pipeline. Every stage fails fast with one
//! of these kinds; none is tied to a particular stage.

use vstd::prelude::*;
use vstd::string::StringExecFns;

verus! {

/// An error of the decoding pipeline.
#[derive(Debug)]
pub enum PngError {
    /// The file-reading collaborator failed.
    CouldNotReadFile,
    /// A chunk's stored CRC does not match the checksum of its tag and payload.
    ChecksumFailure,
    /// The buffer does not begin with the fixed PNG signature.
    NotAPng,
    /// A structural violation of the container format.
    WrongFormat(String),
    /// A scanline filter-type byte outside 0..=4.
    FilterNotSupported(u8),
    /// The inflate service rejected the aggregated image data.
    DecompressionFailed,
    /// A recognized but unimplemented format feature.
    NotSupported(String),
}

/// The mathematical shape of a `PngError`, with detail strings as
/// character sequences.
pub enum ErrorModel {
    CouldNotReadFile,
    ChecksumFailure,
    NotAPng,
    WrongFormat(Seq<char>),
    FilterNotSupported(u8),
    DecompressionFailed,
    NotSupported(Seq<char>),
}

impl View for PngError {
    type V = ErrorModel;

    open spec fn view(&self) -> ErrorModel {
        match self {
            PngError::CouldNotReadFile => ErrorModel::CouldNotReadFile,
            PngError::ChecksumFailure => ErrorModel::ChecksumFailure,
            PngError::NotAPng => ErrorModel::NotAPng,
            PngError::WrongFormat(t) => ErrorModel::WrongFormat(t@),
            PngError::FilterNotSupported(t) => ErrorModel::FilterNotSupported(*t),
            PngError::DecompressionFailed => ErrorModel::DecompressionFailed,
            PngError::NotSupported(t) => ErrorModel::NotSupported(t@),
        }
    }
}

impl PngError {
    /// A human-readable description of the error.
    pub fn message(&self) -> (r: String)
        ensures
            self matches PngError::CouldNotReadFile ==> r@ == "Could not read the file"@,
            self matches PngError::ChecksumFailure ==> r@ == "Checksum incorrect"@,
            self matches PngError::NotAPng ==> r@ == "File is not png format"@,
            self matches PngError::WrongFormat(t) ==> r@ == "Incorrect png format: "@ + t@,
            self matches PngError::FilterNotSupported(_) ==> r@ == "Filter type not supported"@,
            self matches PngError::DecompressionFailed ==> r@ == "Decompression failed!"@,
            self matches PngError::NotSupported(t) ==> r@ == "Not supported: "@ + t@,
    {
        match self {
            PngError::CouldNotReadFile => "Could not read the file".to_owned(),
            PngError::ChecksumFailure => "Checksum incorrect".to_owned(),
            PngError::NotAPng => "File is not png format".to_owned(),
            PngError::WrongFormat(t) => {
                let mut s = "Incorrect png format: ".to_owned();
                s.append(t.as_str());
                s
            },
            PngError::FilterNotSupported(_) => "Filter type not supported".to_owned(),
            PngError::DecompressionFailed => "Decompression failed!".to_owned(),
            PngError::NotSupported(t) => {
                let mut s = "Not supported: ".to_owned();
                s.append(t.as_str());
                s
            },
        }
    }
}

} // verus!
