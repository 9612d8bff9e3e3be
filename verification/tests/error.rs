use oldrar::Error;

#[test]
fn archive_offset_context_exposes_source_error() {
    let error = Error::InvalidHeader("bad block").at_archive_offset(0x1234);

    assert_eq!(
        error.to_string(),
        "at archive offset 0x1234: invalid header: bad block"
    );
    assert_eq!(
        error.source().map(|e| e.to_string()),
        Some("invalid header: bad block".to_string())
    );
}

#[test]
fn entry_context_exposes_source_error() {
    let error = Error::Crc32Mismatch {
        expected: 1,
        actual: 2,
    }
    .at_entry(b"hello.txt".to_vec(), "verifying");

    assert_eq!(
        error.to_string(),
        "while verifying entry 'hello.txt': checksum mismatch: expected 0x00000001, got 0x00000002"
    );
    assert_eq!(
        error.source().map(|e| e.to_string()),
        Some("checksum mismatch: expected 0x00000001, got 0x00000002".to_string())
    );
}
