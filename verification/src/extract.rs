//! The bounded path from the bytes of a binary to its audit data: the
//! compressed segment is found, held against the ceiling, and inflated under
//! the same ceiling.

use crate::error::{Error, InflateError, SegmentError};
use crate::limits::Limits;
use vstd::prelude::*;
use vstd::slice::slice_to_vec;

verus! {

/// The compressed segment embedded in a binary image, as the segment finder
/// reports it: the bytes of the section that carries the audit data, or the
/// reason why there are none.
pub uninterp spec fn embedded_segment(image: Seq<u8>) -> Result<Seq<u8>, SegmentError>;

/// What inflating a zlib stream gives when at most `max_size` bytes may come
/// out: the inflated bytes, or the reason why there are none.
pub uninterp spec fn zlib_inflated(compressed: Seq<u8>, max_size: usize) -> Result<
    Seq<u8>,
    InflateError,
>;

/// The bytes of a result, where it holds any.
pub open spec fn view_bytes<E>(r: Result<Vec<u8>, E>) -> Result<Seq<u8>, E> {
    match r {
        Ok(data) => Ok(data@),
        Err(e) => Err(e),
    }
}

/// The bytes of a borrowed result, where it holds any.
pub open spec fn view_slice<E>(r: Result<&[u8], E>) -> Result<Seq<u8>, E> {
    match r {
        Ok(data) => Ok(data@),
        Err(e) => Err(e),
    }
}

/// Calls `auditable_extract::raw_auditable_data`. Trusted: the outcome is a
/// function of the image alone, named `embedded_segment`; each error of the
/// finder is handed on under the same name.
#[verifier::external_body]
fn find_segment(image: &[u8]) -> (found: Result<&[u8], SegmentError>)
    ensures
        view_slice(found) == embedded_segment(image@),
{
    match auditable_extract::raw_auditable_data(image) {
        Ok(segment) => Ok(segment),
        Err(auditable_extract::Error::NoAuditData) => Err(SegmentError::NoAuditData),
        Err(auditable_extract::Error::NotAnExecutable) => Err(SegmentError::NotAnExecutable),
        Err(auditable_extract::Error::UnexpectedEof) => Err(SegmentError::UnexpectedEof),
        Err(auditable_extract::Error::MalformedFile) => Err(SegmentError::MalformedFile),
        Err(auditable_extract::Error::SymbolsSectionIsMissing) => {
            Err(SegmentError::SymbolsSectionIsMissing)
        },
        Err(auditable_extract::Error::SectionIsMissing) => Err(SegmentError::SectionIsMissing),
        Err(auditable_extract::Error::UnexpectedSectionType) => {
            Err(SegmentError::UnexpectedSectionType)
        },
    }
}

/// Calls `miniz_oxide::inflate::decompress_to_vec_zlib_with_limit`. Trusted:
/// the outcome is a function of the stream and the ceiling, named
/// `zlib_inflated`; what comes out on success is never longer than the
/// ceiling; the status by which the inflater says that the data does not fit
/// is handed on as `LimitExceeded`, every other failure as `CorruptStream`.
#[verifier::external_body]
fn inflate_zlib(compressed: &[u8], max_size: usize) -> (outcome: Result<Vec<u8>, InflateError>)
    ensures
        view_bytes(outcome) == zlib_inflated(compressed@, max_size),
        outcome matches Ok(data) ==> data@.len() <= max_size,
{
    match miniz_oxide::inflate::decompress_to_vec_zlib_with_limit(compressed, max_size) {
        Ok(data) => Ok(data),
        Err(failure) => match failure.status {
            miniz_oxide::inflate::TINFLStatus::HasMoreOutput => Err(InflateError::LimitExceeded),
            _ => Err(InflateError::CorruptStream),
        },
    }
}

/// What becomes of the finder's outcome under a ceiling on decompressed
/// data: a failure of the finder is an extraction failure; a segment that is
/// itself longer than the ceiling is turned away before any inflation.
pub open spec fn segment_under_limit(
    found: Result<Seq<u8>, SegmentError>,
    max_size: usize,
) -> Result<Seq<u8>, Error> {
    match found {
        Err(cause) => Err(Error::ExtractionFailed(cause)),
        Ok(segment) => if segment.len() > max_size {
            Err(Error::OutputLimitExceeded)
        } else {
            Ok(segment)
        },
    }
}

/// What becomes of the inflater's outcome.
pub open spec fn inflated_or_error(outcome: Result<Seq<u8>, InflateError>) -> Result<
    Seq<u8>,
    Error,
> {
    match outcome {
        Ok(data) => Ok(data),
        Err(InflateError::LimitExceeded) => Err(Error::OutputLimitExceeded),
        Err(InflateError::CorruptStream) => Err(Error::DecompressionFailed),
    }
}

/// The compressed segment of an image that was read under `limits`.
pub open spec fn compressed_audit_data(image: Seq<u8>, limits: Limits) -> Result<Seq<u8>, Error> {
    if image.len() > limits.input_file_size {
        Err(Error::InputLimitExceeded)
    } else {
        segment_under_limit(embedded_segment(image), limits.decompressed_json_size)
    }
}

/// The audit data that a compressed segment inflates to under a ceiling.
pub open spec fn inflated_audit_data(compressed: Seq<u8>, max_size: usize) -> Result<
    Seq<u8>,
    Error,
> {
    inflated_or_error(zlib_inflated(compressed, max_size))
}

/// The audit data of an image that is in memory as a whole.
pub open spec fn audit_data_of_slice(image: Seq<u8>, max_size: usize) -> Result<Seq<u8>, Error> {
    match segment_under_limit(embedded_segment(image), max_size) {
        Err(e) => Err(e),
        Ok(segment) => inflated_audit_data(segment, max_size),
    }
}

/// The audit data of an image that was read under `limits`.
pub open spec fn audit_data_of_input(image: Seq<u8>, limits: Limits) -> Result<Seq<u8>, Error> {
    match compressed_audit_data(image, limits) {
        Err(e) => Err(e),
        Ok(segment) => inflated_audit_data(segment, limits.decompressed_json_size),
    }
}

/// Holds the outcome of the segment finder against the ceiling on
/// decompressed data. A segment longer than the ceiling cannot inflate to
/// anything under it, so it is turned away here, before inflation.
pub fn check_segment<'a>(found: Result<&'a [u8], SegmentError>, max_size: usize) -> (r: Result<
    &'a [u8],
    Error,
>)
    ensures
        r == (match found {
            Err(cause) => Err(Error::ExtractionFailed(cause)),
            Ok(segment) => if segment@.len() > max_size {
                Err(Error::OutputLimitExceeded)
            } else {
                Ok(segment)
            },
        }),
        view_slice(r) == segment_under_limit(view_slice(found), max_size),
{
    match found {
        Err(cause) => Err(Error::ExtractionFailed(cause)),
        Ok(segment) => {
            if segment.len() > max_size {
                Err(Error::OutputLimitExceeded)
            } else {
                Ok(segment)
            }
        },
    }
}

/// Names the failure of an inflation: data that does not fit under the
/// ceiling is an exceeded output limit, anything else a corrupt stream.
pub fn check_inflated(outcome: Result<Vec<u8>, InflateError>) -> (r: Result<Vec<u8>, Error>)
    ensures
        r == (match outcome {
            Ok(data) => Ok(data),
            Err(InflateError::LimitExceeded) => Err(Error::OutputLimitExceeded),
            Err(InflateError::CorruptStream) => Err(Error::DecompressionFailed),
        }),
        view_bytes(r) == inflated_or_error(view_bytes(outcome)),
{
    match outcome {
        Ok(data) => Ok(data),
        Err(InflateError::LimitExceeded) => Err(Error::OutputLimitExceeded),
        Err(InflateError::CorruptStream) => Err(Error::DecompressionFailed),
    }
}

/// Takes the compressed audit data out of the bytes of a binary.
///
/// `input_binary` is what was read from the source, of which the caller
/// requests `limits.read_budget()` bytes and no more. An input longer than
/// `limits.input_file_size` is over the limit whatever it holds; one at or
/// under the limit is never refused for its size.
pub fn get_compressed_audit_data(input_binary: &[u8], limits: Limits) -> (r: Result<Vec<u8>, Error>)
    ensures
        view_bytes(r) == compressed_audit_data(input_binary@, limits),
        input_binary@.len() > limits.input_file_size ==> r == Err::<Vec<u8>, Error>(
            Error::InputLimitExceeded,
        ),
        input_binary@.len() <= limits.input_file_size ==> r != Err::<Vec<u8>, Error>(
            Error::InputLimitExceeded,
        ),
        r matches Ok(segment) ==> segment@.len() <= limits.decompressed_json_size,
{
    if input_binary.len() > limits.input_file_size {
        return Err(Error::InputLimitExceeded);
    }
    match check_segment(find_segment(input_binary), limits.decompressed_json_size) {
        Ok(segment) => Ok(slice_to_vec(segment)),
        Err(e) => Err(e),
    }
}

/// Inflates compressed audit data under a ceiling. The result is raw bytes:
/// whether they are text is for the decoder to say.
pub fn decompress_audit_data(compressed: &[u8], max_size: usize) -> (r: Result<Vec<u8>, Error>)
    ensures
        view_bytes(r) == inflated_audit_data(compressed@, max_size),
        r matches Ok(data) ==> data@.len() <= max_size,
{
    check_inflated(inflate_zlib(compressed, max_size))
}

/// The decompressed audit data of a binary that is in memory as a whole.
pub fn raw_audit_info_from_slice(input_binary: &[u8], decompressed_json_size_limit: usize) -> (r:
    Result<Vec<u8>, Error>)
    ensures
        view_bytes(r) == audit_data_of_slice(input_binary@, decompressed_json_size_limit),
        r matches Ok(data) ==> data@.len() <= decompressed_json_size_limit,
{
    match check_segment(find_segment(input_binary), decompressed_json_size_limit) {
        Ok(segment) => decompress_audit_data(segment, decompressed_json_size_limit),
        Err(e) => Err(e),
    }
}

/// The decompressed audit data of a binary that was read under `limits`.
/// The input is given up before inflation starts, so that the input and the
/// inflated data are never held at once.
pub fn raw_audit_info_from_input(input_binary: Vec<u8>, limits: Limits) -> (r: Result<
    Vec<u8>,
    Error,
>)
    ensures
        view_bytes(r) == audit_data_of_input(input_binary@, limits),
        input_binary@.len() > limits.input_file_size ==> r == Err::<Vec<u8>, Error>(
            Error::InputLimitExceeded,
        ),
        input_binary@.len() <= limits.input_file_size ==> r != Err::<Vec<u8>, Error>(
            Error::InputLimitExceeded,
        ),
        r matches Ok(data) ==> data@.len() <= limits.decompressed_json_size,
{
    let compressed = {
        let input = input_binary;
        get_compressed_audit_data(input.as_slice(), limits)
    };
    match compressed {
        Ok(segment) => decompress_audit_data(segment.as_slice(), limits.decompressed_json_size),
        Err(e) => Err(e),
    }
}

} // verus!
