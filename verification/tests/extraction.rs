use audit_info::{
    check_inflated, check_segment, decompress_audit_data, get_compressed_audit_data,
    raw_audit_info_from_input, raw_audit_info_from_slice, Error, InflateError, Limits,
    SegmentError,
};
use std::io::{Cursor, Read};

/// A WebAssembly module whose only section is a custom section of the given
/// name with the given contents.
fn wasm_with_section(name: &str, contents: &[u8]) -> Vec<u8> {
    let mut body = Vec::new();
    body.push(name.len() as u8);
    body.extend_from_slice(name.as_bytes());
    body.extend_from_slice(contents);
    let mut module = vec![0x00, 0x61, 0x73, 0x6d, 0x01, 0x00, 0x00, 0x00, 0x00];
    let mut size = body.len();
    loop {
        let low = (size & 0x7f) as u8;
        size >>= 7;
        if size == 0 {
            module.push(low);
            break;
        }
        module.push(low | 0x80);
    }
    module.extend_from_slice(&body);
    module
}

/// "Hello, zlib!" as a zlib stream.
fn hello_zlib() -> Vec<u8> {
    vec![120, 156, 243, 72, 205, 201, 201, 215, 81, 168, 202, 201, 76, 82, 4, 0, 27, 101, 4, 19]
}

fn read_under(limits: Limits, data: Vec<u8>) -> Vec<u8> {
    let mut reader = Cursor::new(data);
    let mut input = Vec::new();
    (&mut reader).take(limits.read_budget()).read_to_end(&mut input).unwrap();
    input
}

#[test]
fn input_file_limits() {
    let limits = Limits { input_file_size: 128, decompressed_json_size: 99999 };
    let fake_data = vec![0; 1024];
    let input = read_under(limits, fake_data);
    let result = get_compressed_audit_data(&input, limits);
    assert!(result.is_err());
    assert!(result.unwrap_err().message().contains("The input file is too large"));
}

#[test]
fn input_over_limit_is_refused_whatever_it_holds() {
    let limits = Limits { input_file_size: 128, decompressed_json_size: 99999 };
    let mut module = wasm_with_section(".dep-v0", &hello_zlib());
    module.resize(1024, 0);
    assert_eq!(get_compressed_audit_data(&module, limits), Err(Error::InputLimitExceeded));
    let one_over = vec![7u8; 129];
    assert_eq!(get_compressed_audit_data(&one_over, limits), Err(Error::InputLimitExceeded));
    assert_eq!(raw_audit_info_from_input(one_over, limits), Err(Error::InputLimitExceeded));
}

#[test]
fn input_at_limit_is_not_refused_for_its_size() {
    let limits = Limits { input_file_size: 128, decompressed_json_size: 99999 };
    let input = read_under(limits, vec![0; 128]);
    assert_eq!(input.len(), 128);
    let result = get_compressed_audit_data(&input, limits);
    assert_eq!(result, Err(Error::ExtractionFailed(SegmentError::NotAnExecutable)));
    let shorter = read_under(limits, vec![0; 5]);
    assert_ne!(get_compressed_audit_data(&shorter, limits), Err(Error::InputLimitExceeded));
}

#[test]
fn read_budget_is_one_over_the_limit() {
    let limits = Limits { input_file_size: 128, decompressed_json_size: 1 };
    assert_eq!(limits.read_budget(), 129);
    let none = Limits { input_file_size: 0, decompressed_json_size: 1 };
    assert_eq!(none.read_budget(), 1);
    let all = Limits { input_file_size: usize::MAX, decompressed_json_size: 1 };
    assert_eq!(all.read_budget(), (usize::MAX as u64).saturating_add(1));
    assert_eq!(read_under(limits, vec![1; 1024]).len(), 129);
}

#[test]
fn default_limits() {
    let limits = Limits::default();
    assert_eq!(limits.input_file_size, 1024 * 1024 * 1024);
    assert_eq!(limits.decompressed_json_size, 1024 * 1024 * 8);
}

#[test]
fn segment_is_found_in_a_module() {
    let limits = Limits { input_file_size: 4096, decompressed_json_size: 4096 };
    let module = wasm_with_section(".dep-v0", &hello_zlib());
    assert_ne!(module, hello_zlib());
    assert_eq!(get_compressed_audit_data(&module, limits), Ok(hello_zlib()));
}

#[test]
fn audit_data_of_a_module() {
    let module = wasm_with_section(".dep-v0", &hello_zlib());
    assert_eq!(raw_audit_info_from_slice(&module, 4096), Ok(b"Hello, zlib!".to_vec()));
    let limits = Limits { input_file_size: 4096, decompressed_json_size: 4096 };
    assert_eq!(raw_audit_info_from_input(module, limits), Ok(b"Hello, zlib!".to_vec()));
}

#[test]
fn module_without_audit_data() {
    let module = wasm_with_section(".other", &hello_zlib());
    assert_eq!(
        raw_audit_info_from_slice(&module, 4096),
        Err(Error::ExtractionFailed(SegmentError::NoAuditData))
    );
}

#[test]
fn truncated_module_is_malformed() {
    let mut module = wasm_with_section(".dep-v0", &hello_zlib());
    module.truncate(module.len() - 4);
    assert_eq!(
        raw_audit_info_from_slice(&module, 4096),
        Err(Error::ExtractionFailed(SegmentError::MalformedFile))
    );
}

#[test]
fn not_an_executable() {
    assert_eq!(
        raw_audit_info_from_slice(b"plain text", 4096),
        Err(Error::ExtractionFailed(SegmentError::NotAnExecutable))
    );
    assert_eq!(
        raw_audit_info_from_slice(&[], 4096),
        Err(Error::ExtractionFailed(SegmentError::NotAnExecutable))
    );
}

#[test]
fn segment_longer_than_output_limit_is_refused_before_inflation() {
    let module = wasm_with_section(".dep-v0", &hello_zlib());
    assert_eq!(raw_audit_info_from_slice(&module, 19), Err(Error::OutputLimitExceeded));
    let limits = Limits { input_file_size: 4096, decompressed_json_size: 19 };
    assert_eq!(get_compressed_audit_data(&module, limits), Err(Error::OutputLimitExceeded));
    let exact = Limits { input_file_size: 4096, decompressed_json_size: 20 };
    assert_eq!(get_compressed_audit_data(&module, exact), Ok(hello_zlib()));
}

#[test]
fn inflation_over_the_limit_is_refused() {
    let plain = vec![0u8; 100_000];
    let compressed = miniz_oxide::deflate::compress_to_vec_zlib(&plain, 6);
    assert!(compressed.len() < 1000);
    assert_eq!(decompress_audit_data(&compressed, 1000), Err(Error::OutputLimitExceeded));
    assert_eq!(decompress_audit_data(&compressed, 99_999), Err(Error::OutputLimitExceeded));
    assert_eq!(decompress_audit_data(&compressed, 100_000), Ok(plain));
    let module = wasm_with_section(".dep-v0", &compressed);
    assert_eq!(raw_audit_info_from_slice(&module, 50_000), Err(Error::OutputLimitExceeded));
}

#[test]
fn inflated_data_is_never_longer_than_the_limit() {
    let limit = 12;
    let data = decompress_audit_data(&hello_zlib(), limit).unwrap();
    assert_eq!(data, b"Hello, zlib!".to_vec());
    assert!(data.len() <= limit);
    assert_eq!(decompress_audit_data(&hello_zlib(), 11), Err(Error::OutputLimitExceeded));
}

#[test]
fn corrupt_stream_fails_to_decompress() {
    assert_eq!(decompress_audit_data(b"not a zlib stream", 4096), Err(Error::DecompressionFailed));
    let mut cut = hello_zlib();
    cut.truncate(10);
    assert_eq!(decompress_audit_data(&cut, 4096), Err(Error::DecompressionFailed));
    let mut wrong_sum = hello_zlib();
    wrong_sum[19] ^= 1;
    assert_eq!(decompress_audit_data(&wrong_sum, 4096), Err(Error::DecompressionFailed));
    let module = wasm_with_section(".dep-v0", b"garbage");
    assert_eq!(raw_audit_info_from_slice(&module, 4096), Err(Error::DecompressionFailed));
}

#[test]
fn inflated_bytes_are_not_checked_for_text() {
    let plain = vec![0xff, 0xfe, 0x00, 0x80];
    let compressed = miniz_oxide::deflate::compress_to_vec_zlib(&plain, 6);
    assert_eq!(decompress_audit_data(&compressed, 4096), Ok(plain));
}

#[test]
fn check_segment_cases() {
    let segment = [1u8, 2, 3];
    assert_eq!(check_segment(Ok(&segment), 3), Ok(&segment[..]));
    assert_eq!(check_segment(Ok(&segment), 2), Err(Error::OutputLimitExceeded));
    assert_eq!(check_segment(Ok(&[]), 0), Ok(&[][..]));
    assert_eq!(
        check_segment(Err(SegmentError::UnexpectedEof), 10),
        Err(Error::ExtractionFailed(SegmentError::UnexpectedEof))
    );
}

#[test]
fn check_inflated_cases() {
    assert_eq!(check_inflated(Ok(vec![1, 2])), Ok(vec![1, 2]));
    assert_eq!(check_inflated(Err(InflateError::LimitExceeded)), Err(Error::OutputLimitExceeded));
    assert_eq!(check_inflated(Err(InflateError::CorruptStream)), Err(Error::DecompressionFailed));
}

#[test]
fn error_messages() {
    assert_eq!(
        Error::InputLimitExceeded.message(),
        "The input file is too large. Increase the input size limit to scan it."
    );
    assert_eq!(
        Error::OutputLimitExceeded.message(),
        "Audit data size is over the specified limit. Increase the output size limit to scan it."
    );
    assert_eq!(
        Error::ExtractionFailed(SegmentError::NoAuditData).message(),
        "Failed to parse the binary: No audit data found in the executable"
    );
    assert_eq!(Error::DecompressionFailed.message(), "Failed to decompress audit data");
    assert_eq!(Error::InconsistentGraph.message(), "The dependency graph is inconsistent");
    assert_eq!(SegmentError::NotAnExecutable.message(), "Not an executable file");
    assert_eq!(SegmentError::UnexpectedEof.message(), "Unexpected end of file");
    assert_eq!(SegmentError::MalformedFile.message(), "Malformed executable file");
    assert_eq!(
        SegmentError::SymbolsSectionIsMissing.message(),
        "Symbols section missing from executable"
    );
    assert_eq!(SegmentError::SectionIsMissing.message(), "Section is missing from executable");
    assert_eq!(
        SegmentError::UnexpectedSectionType.message(),
        "Unexpected executable section type"
    );
}
