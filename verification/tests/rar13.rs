use oldrar::codec::{find_long_lz, LongLz, Unpack15Encoder};
use oldrar::rar13::{
    extract_volumes, file_checksum, write_compressed_archive, write_compressed_volumes,
    write_stored_archive, write_stored_archive_with_comment, write_stored_volumes, ArchiveSource,
    FileEntry, MainHeader, StoredEntry, WriterOptions, DEFAULT_UNP_VER, FILE_HEAD_BASE_SIZE,
    LHD_SOLID, MAIN_HEAD_SIZE, METHOD_STORE, MHD_AV, MHD_COMMENT, MHD_PACK_COMMENT,
};
use oldrar::{Archive, ArchiveVersion, Error, FeatureSet};

#[test]
fn writes_and_reads_stored_archive() {
    let input = [
        StoredEntry {
            name: b"README.md",
            data: b"hello rar 1.3",
            file_time: 0,
            file_attr: 0x20,
            password: None,
            file_comment: None,
        },
        StoredEntry {
            name: b"docs",
            data: b"",
            file_time: 0,
            file_attr: 0x10,
            password: None,
            file_comment: None,
        },
    ];

    let bytes = write_stored_archive(&input, WriterOptions::default()).unwrap();
    let archive = Archive::parse(&bytes).unwrap();
    assert_eq!(archive.main.flags, 0x80);
    assert_eq!(archive.entries.len(), 2);
    assert_eq!(archive.entries[0].name_lossy(), "README.md");
    assert_eq!(
        archive.entries[0].stored_data(&archive, None).unwrap(),
        b"hello rar 1.3"
    );
    assert!(archive.entries[1].is_directory());

    let extracted = archive.extract_stored(None).unwrap();
    assert_eq!(extracted[0].data, b"hello rar 1.3");
    assert!(extracted[1].is_directory);
}

#[test]
fn rejects_malformed_main_header_boundaries() {
    assert_eq!(MainHeader::parse(b"RE~"), Err(Error::TooShort));

    let mut too_small = Vec::from(&b"RE~^"[..]);
    too_small.extend_from_slice(&6u16.to_le_bytes());
    too_small.push(0x80);
    assert_eq!(
        MainHeader::parse(&too_small),
        Err(Error::InvalidHeader(
            "RAR 1.3 main header is shorter than 7 bytes"
        ))
    );

    let mut truncated_extra = Vec::from(&b"RE~^"[..]);
    truncated_extra.extend_from_slice(&8u16.to_le_bytes());
    truncated_extra.push(0x80);
    assert_eq!(MainHeader::parse(&truncated_extra), Err(Error::TooShort));

    assert!(matches!(
        Archive::parse(b"Rar!\x1a\x07\x00"),
        Err(Error::UnsupportedSignature)
    ));
}

#[test]
fn rejects_file_header_shorter_than_its_name() {
    let mut bytes = Vec::from(&b"RE~^"[..]);
    bytes.extend_from_slice(&7u16.to_le_bytes());
    bytes.push(0x80);
    bytes.extend_from_slice(&0u32.to_le_bytes());
    bytes.extend_from_slice(&0u32.to_le_bytes());
    bytes.extend_from_slice(&0u16.to_le_bytes());
    bytes.extend_from_slice(&(FILE_HEAD_BASE_SIZE as u16).to_le_bytes());
    bytes.extend_from_slice(&0u32.to_le_bytes());
    bytes.push(0x20);
    bytes.push(0);
    bytes.push(DEFAULT_UNP_VER);
    bytes.push(10);
    bytes.push(METHOD_STORE);

    assert!(matches!(
        Archive::parse(&bytes),
        Err(Error::InvalidHeader(
            "RAR 1.3 file header is shorter than its name"
        ))
    ));
}

#[test]
fn rejects_truncated_file_payload_during_parse() {
    let input = [StoredEntry {
        name: b"hello.txt",
        data: b"hello",
        file_time: 0,
        file_attr: 0x20,
        password: None,
        file_comment: None,
    }];
    let mut bytes = write_stored_archive(&input, WriterOptions::default()).unwrap();
    bytes.pop();

    assert!(matches!(Archive::parse(&bytes), Err(Error::TooShort)));
}

#[test]
fn returns_none_for_absent_archive_comment() {
    let bytes = write_stored_archive(&[], WriterOptions::default()).unwrap();
    let archive = Archive::parse(&bytes).unwrap();

    assert_eq!(archive.archive_comment().unwrap(), None);
}

#[test]
fn rejects_normal_extract_on_split_entries() {
    let entry = StoredEntry {
        name: b"split.bin",
        data: b"abcdefghijklmnopqrstuvwxyz",
        file_time: 0,
        file_attr: 0x20,
        password: None,
        file_comment: None,
    };
    let volumes = write_stored_volumes(entry, WriterOptions::default(), 8).unwrap();
    let first = Archive::parse(&volumes[0]).unwrap();

    assert_eq!(
        first.extract(None),
        Err(Error::InvalidHeader(
            "RAR 1.3 split entry requires multivolume extraction"
        ))
    );
    assert_eq!(
        first.extract_stored(None),
        Err(Error::InvalidHeader(
            "RAR 1.3 split entry requires multivolume extraction"
        ))
    );
}

#[test]
fn rejects_malformed_comment_extensions() {
    let packed_too_short = Archive {
        sfx_offset: 0,
        main: MainHeader {
            flags: MHD_COMMENT | MHD_PACK_COMMENT,
            head_size: MAIN_HEAD_SIZE,
            extra: 1u16.to_le_bytes().to_vec(),
        },
        entries: Vec::new(),
        source: ArchiveSource::Memory(Vec::new()),
    };
    assert_eq!(
        packed_too_short.archive_comment(),
        Err(Error::InvalidHeader(
            "RAR 1.3 packed archive comment is shorter than size field"
        ))
    );

    let unpacked_too_short = Archive {
        sfx_offset: 0,
        main: MainHeader {
            flags: MHD_COMMENT,
            head_size: MAIN_HEAD_SIZE,
            extra: 4u16.to_le_bytes().to_vec(),
        },
        entries: Vec::new(),
        source: ArchiveSource::Memory(Vec::new()),
    };
    assert_eq!(unpacked_too_short.archive_comment(), Err(Error::TooShort));
}

#[test]
fn rejects_malformed_av_extensions() {
    let too_short = Archive {
        sfx_offset: 0,
        main: MainHeader {
            flags: MHD_AV,
            head_size: MAIN_HEAD_SIZE,
            extra: 5u16.to_le_bytes().to_vec(),
        },
        entries: Vec::new(),
        source: ArchiveSource::Memory(Vec::new()),
    };
    assert_eq!(
        too_short.authenticity_verification(),
        Err(Error::InvalidHeader("RAR 1.3 AV payload is too short"))
    );

    let bad_prefix = Archive {
        sfx_offset: 0,
        main: MainHeader {
            flags: MHD_AV,
            head_size: MAIN_HEAD_SIZE,
            extra: {
                let mut extra = 6u16.to_le_bytes().to_vec();
                extra.extend_from_slice(b"badbad");
                extra
            },
        },
        entries: Vec::new(),
        source: ArchiveSource::Memory(Vec::new()),
    };
    assert_eq!(
        bad_prefix.authenticity_verification(),
        Err(Error::InvalidHeader("RAR 1.3 AV prefix mismatch"))
    );
}

#[test]
fn writes_and_reads_encrypted_stored_archive() {
    let input = [StoredEntry {
        name: b"secret.txt",
        data: b"secret bytes",
        file_time: 0,
        file_attr: 0x20,
        password: Some(b"pass"),
        file_comment: None,
    }];

    let bytes = write_stored_archive(&input, WriterOptions::default()).unwrap();
    let archive = Archive::parse(&bytes).unwrap();
    assert!(archive.entries[0].is_encrypted());
    assert!(matches!(
        archive.entries[0].stored_data(&archive, None),
        Err(Error::NeedPassword)
    ));
    assert_eq!(
        archive.entries[0]
            .stored_data(&archive, Some(b"pass"))
            .unwrap(),
        b"secret bytes"
    );

    let extracted = archive.extract_stored(Some(b"pass")).unwrap();
    assert_eq!(extracted[0].data, b"secret bytes");
}

#[test]
fn writes_and_reads_archive_comment() {
    let input = [StoredEntry {
        name: b"README.md",
        data: b"hello rar 1.3",
        file_time: 0,
        file_attr: 0x20,
        password: None,
        file_comment: None,
    }];

    let bytes = write_stored_archive_with_comment(
        &input,
        WriterOptions::default(),
        Some(b"This is an archive comment."),
    )
    .unwrap();
    let archive = Archive::parse(&bytes).unwrap();
    assert!(archive.main.has_archive_comment());
    assert!(archive.main.has_packed_comment());
    assert_eq!(
        archive.archive_comment().unwrap().as_deref(),
        Some(&b"This is an archive comment."[..])
    );
    assert_eq!(archive.extract(None).unwrap()[0].data, b"hello rar 1.3");
}

#[test]
fn writes_and_reads_file_comment() {
    let input = [StoredEntry {
        name: b"README.md",
        data: b"hello rar 1.3",
        file_time: 0,
        file_attr: 0x20,
        password: None,
        file_comment: Some(b"file comment\r\n"),
    }];

    let bytes = write_stored_archive(&input, WriterOptions::default()).unwrap();
    let archive = Archive::parse(&bytes).unwrap();
    assert!(archive.entries[0].has_file_comment());
    assert_eq!(
        archive.entries[0].file_comment().unwrap().as_deref(),
        Some(&b"file comment\r\n"[..])
    );
    assert_eq!(archive.extract(None).unwrap()[0].data, b"hello rar 1.3");
}

#[test]
fn writes_and_reads_literal_only_compressed_archive() {
    let input = [FileEntry {
        name: b"tiny.txt",
        data: b"literal bytes over sixteen",
        file_time: 0,
        file_attr: 0x20,
        password: None,
        file_comment: None,
    }];

    let bytes = write_compressed_archive(&input, WriterOptions::default()).unwrap();
    let archive = Archive::parse(&bytes).unwrap();
    assert_eq!(archive.main.flags, 0x80);
    assert_eq!(archive.entries.len(), 1);
    assert_eq!(archive.entries[0].name, b"tiny.txt");
    assert!(!archive.entries[0].is_stored());
    assert_eq!(archive.entries[0].header.method, 3);
    assert!(archive.entries[0].header.pack_size > 0);

    let extracted = archive.extract(None).unwrap();
    assert_eq!(extracted[0].data, b"literal bytes over sixteen");
}

#[test]
fn writes_and_reads_literal_only_compressed_archive_with_repeated_stmode() {
    let data =
        b"this literal-only payload is long enough to enter and exit stmode more than once";
    let input = [FileEntry {
        name: b"long.txt",
        data,
        file_time: 0,
        file_attr: 0x20,
        password: None,
        file_comment: None,
    }];

    let bytes = write_compressed_archive(&input, WriterOptions::default()).unwrap();
    let archive = Archive::parse(&bytes).unwrap();
    assert_eq!(archive.entries[0].header.method, 3);

    let extracted = archive.extract(None).unwrap();
    assert_eq!(extracted[0].data, data);
}

#[test]
fn compressed_writer_emits_short_lz_matches() {
    let data = b"abcabcabcabcabcabcabcabcabcabcabcabc";
    let input = [FileEntry {
        name: b"repeat.txt",
        data,
        file_time: 0,
        file_attr: 0x20,
        password: None,
        file_comment: None,
    }];

    let bytes = write_compressed_archive(&input, WriterOptions::default()).unwrap();
    let archive = Archive::parse(&bytes).unwrap();
    assert_eq!(archive.entries[0].header.method, 3);
    assert!(
        archive.entries[0].header.pack_size < data.len() as u32,
        "ShortLZ should make the repeated payload smaller than stored data"
    );

    let extracted = archive.extract(None).unwrap();
    assert_eq!(extracted[0].data, data);
}

#[test]
fn compressed_writer_emits_long_lz_matches() {
    let mut data = short_lz_resistant_prefix(300);
    let repeated = data[..32].to_vec();
    data.extend_from_slice(&repeated);
    assert_eq!(
        find_long_lz(&data, 300),
        Some(LongLz {
            distance: 300,
            length: 18
        })
    );
    let input = [FileEntry {
        name: b"far.txt",
        data: &data,
        file_time: 0,
        file_attr: 0x20,
        password: None,
        file_comment: None,
    }];

    let literal_only = Unpack15Encoder::new()
        .encode_literals_only(&data)
        .unwrap()
        .len();
    let bytes = write_compressed_archive(&input, WriterOptions::default()).unwrap();
    let archive = Archive::parse(&bytes).unwrap();
    assert_eq!(archive.entries[0].header.method, 3);
    assert!(
        (archive.entries[0].header.pack_size as usize) < literal_only,
        "LongLZ should make a >256-byte-distance repeat smaller than literal-only output"
    );

    let extracted = archive.extract(None).unwrap();
    assert_eq!(extracted[0].data, data);
}

#[test]
fn writes_and_reads_solid_compressed_archive() {
    let input = [
        FileEntry {
            name: b"first.txt",
            data: b"first member primes the adaptive unpack15 state",
            file_time: 0,
            file_attr: 0x20,
            password: None,
            file_comment: None,
        },
        FileEntry {
            name: b"second.txt",
            data: b"second member is encoded without resetting that state",
            file_time: 0,
            file_attr: 0x20,
            password: None,
            file_comment: None,
        },
    ];
    let mut features = FeatureSet::store_only();
    features.solid = true;
    let options = WriterOptions {
        target: ArchiveVersion::Rar14,
        features,
    };

    let bytes = write_compressed_archive(&input, options).unwrap();
    let archive = Archive::parse(&bytes).unwrap();
    assert!(archive.main.is_solid());
    assert_eq!(archive.entries.len(), 2);
    assert!(archive
        .entries
        .iter()
        .all(|entry| entry.header.flags & LHD_SOLID != 0));

    let extracted = archive.extract(None).unwrap();
    assert_eq!(extracted[0].data, input[0].data);
    assert_eq!(extracted[1].data, input[1].data);
}

#[test]
fn writes_and_reads_encrypted_compressed_archive() {
    let input = [FileEntry {
        name: b"secret.txt",
        data: b"secret compressed bytes over sixteen",
        file_time: 0,
        file_attr: 0x20,
        password: Some(b"pass"),
        file_comment: None,
    }];

    let bytes = write_compressed_archive(&input, WriterOptions::default()).unwrap();
    let archive = Archive::parse(&bytes).unwrap();
    assert!(archive.entries[0].is_encrypted());
    assert_eq!(archive.entries[0].header.method, 3);
    assert!(matches!(archive.extract(None), Err(Error::NeedPassword)));

    let extracted = archive.extract(Some(b"pass")).unwrap();
    assert_eq!(extracted[0].data, input[0].data);
}

#[test]
fn writes_and_reads_compressed_file_comment() {
    let input = [FileEntry {
        name: b"commented.txt",
        data: b"compressed member with file comment",
        file_time: 0,
        file_attr: 0x20,
        password: None,
        file_comment: Some(b"compressed file comment"),
    }];

    let bytes = write_compressed_archive(&input, WriterOptions::default()).unwrap();
    let archive = Archive::parse(&bytes).unwrap();
    assert_eq!(
        archive.entries[0].file_comment().unwrap().as_deref(),
        Some(&b"compressed file comment"[..])
    );

    let extracted = archive.extract(None).unwrap();
    assert_eq!(extracted[0].data, input[0].data);
}

#[test]
fn writes_and_reads_stored_multivolume_archive() {
    let entry = StoredEntry {
        name: b"random.bin",
        data: b"abcdefghijklmnopqrstuvwxyz0123456789",
        file_time: 0,
        file_attr: 0x20,
        password: None,
        file_comment: None,
    };

    let bytes = write_stored_volumes(entry, WriterOptions::default(), 10).unwrap();
    assert_eq!(bytes.len(), 4);
    let volumes: Vec<_> = bytes
        .iter()
        .map(|bytes| Archive::parse(bytes).unwrap())
        .collect();
    assert!(volumes.iter().all(|archive| archive.main.is_volume()));
    assert!(!volumes[0].entries[0].is_split_before());
    assert!(volumes[0].entries[0].is_split_after());
    assert!(volumes[1].entries[0].is_split_before());
    assert!(volumes[1].entries[0].is_split_after());
    assert!(volumes[3].entries[0].is_split_before());
    assert!(!volumes[3].entries[0].is_split_after());
    assert!(volumes.iter().all(|archive| archive.entries[0].is_stored()));

    let extracted = extract_volumes(&volumes, None).unwrap();
    assert_eq!(extracted.len(), 1);
    assert_eq!(extracted[0].name, b"random.bin");
    assert_eq!(extracted[0].data, entry.data);
}

#[test]
fn writes_and_reads_compressed_multivolume_archive() {
    let data = b"abcabcabcabcabcabcabcabcabcabcabcabcabcabcabcabc";
    let entry = FileEntry {
        name: b"repeat.txt",
        data,
        file_time: 0,
        file_attr: 0x20,
        password: None,
        file_comment: None,
    };

    let bytes = write_compressed_volumes(entry, WriterOptions::default(), 8).unwrap();
    assert!(bytes.len() >= 2);
    let volumes: Vec<_> = bytes
        .iter()
        .map(|bytes| Archive::parse(bytes).unwrap())
        .collect();
    assert!(volumes.iter().all(|archive| archive.main.is_volume()));
    assert!(!volumes[0].entries[0].is_stored());
    assert!(volumes[0].entries[0].is_split_after());
    assert!(volumes.last().unwrap().entries[0].is_split_before());
    assert!(!volumes.last().unwrap().entries[0].is_split_after());

    let extracted = extract_volumes(&volumes, None).unwrap();
    assert_eq!(extracted.len(), 1);
    assert_eq!(extracted[0].name, b"repeat.txt");
    assert_eq!(extracted[0].data, data);
}

fn short_lz_resistant_prefix(len: usize) -> Vec<u8> {
    let mut data = Vec::with_capacity(len);
    while data.len() < len {
        let next = (0u8..=u8::MAX)
            .find(|&candidate| {
                if data.len() < 2 {
                    return true;
                }
                let start = data.len().saturating_sub(256);
                !data[start..].windows(3).any(|window| {
                    window == [data[data.len() - 2], data[data.len() - 1], candidate]
                })
            })
            .expect("byte alphabet can avoid local 3-byte repeats");
        data.push(next);
    }
    data
}

#[test]
fn writes_empty_compressed_archive_member() {
    let input = [FileEntry {
        name: b"empty.bin",
        data: b"",
        file_time: 0,
        file_attr: 0x20,
        password: None,
        file_comment: None,
    }];

    let bytes = write_compressed_archive(&input, WriterOptions::default()).unwrap();
    let archive = Archive::parse(&bytes).unwrap();
    assert_eq!(archive.entries[0].header.method, 3);
    assert_eq!(archive.entries[0].header.pack_size, 0);

    let extracted = archive.extract(None).unwrap();
    assert_eq!(extracted[0].data, b"");
}

#[test]
fn rejects_rar5_only_features_for_rar13() {
    let mut features = FeatureSet::store_only();
    features.quick_open = true;

    let options = WriterOptions {
        target: ArchiveVersion::Rar13,
        features,
    };
    let err = write_stored_archive(&[], options).unwrap_err();
    assert_eq!(
        err,
        Error::UnsupportedFeature {
            version: ArchiveVersion::Rar13,
            feature: "quick_open"
        }
    );
}

#[test]
fn rejects_unimplemented_rar13_writer_features() {
    let mut features = FeatureSet::store_only();
    features.sfx = true;

    let options = WriterOptions {
        target: ArchiveVersion::Rar14,
        features,
    };
    let err = write_stored_archive(&[], options).unwrap_err();
    assert_eq!(
        err,
        Error::UnsupportedFeature {
            version: ArchiveVersion::Rar14,
            feature: "sfx"
        }
    );
}

#[test]
fn file_checksum_matches_rar13_algorithm() {
    assert_eq!(file_checksum(b""), 0x0000);
    assert_eq!(file_checksum(b"123456789"), 0xc78a);
}
