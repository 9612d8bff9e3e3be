use oldrar::checksum::Rar13Checksum;
use oldrar::codec::{unpack15_encode, Error as CodecError, Unpack15};
use oldrar::cli::{
    output_components, parse_password, parse_usize, plan_add, volume_extension, CliError,
    NumberError,
};
use oldrar::crypto::Rar13Cipher;
use oldrar::rar13::{
    extract_volumes, extract_volumes_to, file_checksum, write_compressed_archive,
    write_compressed_volumes, write_stored_archive, write_stored_archive_with_comment,
    write_stored_volumes, FileEntry, StoredEntry, WriterOptions,
};
use oldrar::{
    detect_archive_family, find_archive_start, Archive, ArchiveFamily, ArchiveVersion, Error,
    FeatureSet,
};

fn stored<'a>(name: &'a [u8], data: &'a [u8]) -> StoredEntry<'a> {
    StoredEntry {
        name,
        data,
        file_time: 0,
        file_attr: 0x20,
        password: None,
        file_comment: None,
    }
}

fn compressed<'a>(name: &'a [u8], data: &'a [u8]) -> FileEntry<'a> {
    FileEntry {
        name,
        data,
        file_time: 0,
        file_attr: 0x20,
        password: None,
        file_comment: None,
    }
}

fn options_with(features: FeatureSet) -> WriterOptions {
    WriterOptions {
        target: ArchiveVersion::Rar14,
        features,
    }
}

fn args(list: &[&str]) -> Vec<Vec<u8>> {
    list.iter().map(|a| a.as_bytes().to_vec()).collect()
}

#[test]
fn checksum_rotates_after_each_byte() {
    assert_eq!(file_checksum(b"a"), 0x00c2);
    assert_eq!(file_checksum(b"ab"), 0x0248);
    assert_eq!(file_checksum(b"hello rar 1.3"), 0xc23f);
}

#[test]
fn checksum_in_pieces_equals_checksum_of_whole() {
    let mut checksum = Rar13Checksum::new();
    checksum.update(b"1234");
    checksum.update(b"");
    checksum.update(b"56789");
    assert_eq!(checksum.finish(), file_checksum(b"123456789"));
}

#[test]
fn cipher_produces_known_keystream() {
    let mut data = b"secret".to_vec();
    Rar13Cipher::new(b"pass").encrypt_in_place(&mut data);
    assert_eq!(data, vec![247, 114, 181, 197, 117, 253]);

    let mut comment = b"abc".to_vec();
    Rar13Cipher::new_comment().encrypt_in_place(&mut comment);
    assert_eq!(comment, vec![181, 87, 70]);
}

#[test]
fn decrypt_undoes_encrypt() {
    let original = b"any bytes at all \x00\xff".to_vec();
    let mut data = original.clone();
    Rar13Cipher::new(b"key").encrypt_in_place(&mut data);
    assert_ne!(data, original);
    Rar13Cipher::new(b"key").decrypt_in_place(&mut data);
    assert_eq!(data, original);
}

#[test]
fn stored_archive_has_exact_layout() {
    let bytes = write_stored_archive(&[stored(b"a.txt", b"hi")], WriterOptions::default()).unwrap();
    let crc = file_checksum(b"hi").to_le_bytes();
    let mut expected = b"RE~^".to_vec();
    expected.extend_from_slice(&[7, 0, 0x80]);
    expected.extend_from_slice(&[2, 0, 0, 0, 2, 0, 0, 0, crc[0], crc[1], 26, 0]);
    expected.extend_from_slice(&[0, 0, 0, 0, 0x20, 0, 2, 5, 0]);
    expected.extend_from_slice(b"a.txt");
    expected.extend_from_slice(b"hi");
    assert_eq!(bytes, expected);
}

#[test]
fn encrypted_stored_body_is_the_ciphertext() {
    let mut entry = stored(b"s.bin", b"secret");
    entry.password = Some(b"pass");
    let bytes = write_stored_archive(&[entry], WriterOptions::default()).unwrap();
    assert_eq!(&bytes[bytes.len() - 6..], &[247, 114, 181, 197, 117, 253]);
    let archive = Archive::parse(&bytes).unwrap();
    assert_eq!(archive.entries[0].header.flags, 0x04);
    assert_eq!(
        archive.entries[0].stored_data(&archive, Some(b"pass")).unwrap(),
        b"secret"
    );
    assert_eq!(
        archive.entries[0].packed_data(&archive).unwrap(),
        &[247, 114, 181, 197, 117, 253]
    );
}

#[test]
fn stored_archive_reads_back_every_entry() {
    let mut second = stored(b"two.txt", b"second payload");
    second.password = Some(b"pw");
    second.file_comment = Some(b"note");
    second.file_time = 0x1234_5678;
    let input = [stored(b"one.txt", b"first"), second, stored(b"empty", b"")];
    let bytes = write_stored_archive(&input, WriterOptions::default()).unwrap();
    let archive = Archive::parse(&bytes).unwrap();
    assert_eq!(archive.entries.len(), 3);
    assert_eq!(archive.entries[1].file_comment().unwrap(), Some(b"note".to_vec()));
    assert_eq!(archive.entries[1].header.file_time, 0x1234_5678);
    let extracted = archive.extract_stored(Some(b"pw")).unwrap();
    assert_eq!(extracted.len(), 3);
    for (x, e) in extracted.iter().zip(input.iter()) {
        assert_eq!(x.name, e.name);
        assert_eq!(x.data, e.data);
        assert_eq!(x.file_time, e.file_time);
        assert!(!x.is_directory);
    }
}

#[test]
fn solid_writer_sets_solid_flags() {
    let mut features = FeatureSet::store_only();
    features.solid = true;
    let bytes = write_stored_archive(&[stored(b"x", b"y")], options_with(features)).unwrap();
    let archive = Archive::parse(&bytes).unwrap();
    assert!(archive.main.is_solid());
    assert_eq!(archive.main.flags, 0x88);
    assert_eq!(archive.entries[0].header.flags, 0x10);
}

#[test]
fn writer_rejects_bad_names_and_sizes() {
    assert_eq!(
        write_stored_archive(&[stored(b"", b"x")], WriterOptions::default()),
        Err(Error::InvalidHeader("RAR 1.3 file name is empty"))
    );
    let long_name = vec![b'n'; 256];
    assert_eq!(
        write_stored_archive(&[stored(&long_name, b"x")], WriterOptions::default()),
        Err(Error::InvalidHeader("RAR 1.3 file name is longer than 255 bytes"))
    );
    let long_comment = vec![b'c'; 65536];
    let mut entry = stored(b"ok", b"x");
    entry.file_comment = Some(&long_comment);
    assert_eq!(
        write_stored_archive(&[entry], WriterOptions::default()),
        Err(Error::InvalidHeader("RAR 1.3 file comment is longer than 65535 bytes"))
    );
    assert_eq!(
        write_stored_archive_with_comment(&[], WriterOptions::default(), Some(&long_comment)),
        Err(Error::InvalidHeader("RAR 1.3 archive comment is longer than 65535 bytes"))
    );
}

#[test]
fn writer_rejects_authenticity_verification() {
    let mut features = FeatureSet::store_only();
    features.authenticity_verification = true;
    assert_eq!(
        write_compressed_archive(&[], options_with(features)),
        Err(Error::UnsupportedFeature {
            version: ArchiveVersion::Rar14,
            feature: "authenticity_verification"
        })
    );
}

#[test]
fn empty_archive_comment_packs_to_nothing() {
    let bytes =
        write_stored_archive_with_comment(&[], WriterOptions::default(), Some(b"")).unwrap();
    assert_eq!(bytes, vec![b'R', b'E', b'~', b'^', 11, 0, 0x92, 2, 0, 0, 0]);
    let archive = Archive::parse(&bytes).unwrap();
    assert_eq!(archive.archive_comment().unwrap(), Some(Vec::new()));
}

#[test]
fn volume_writer_rejects_bad_inputs() {
    let data = b"0123456789";
    assert_eq!(
        write_stored_volumes(stored(b"v", data), WriterOptions::default(), 0),
        Err(Error::InvalidHeader("RAR 1.3 volume payload size must be non-zero"))
    );
    assert_eq!(
        write_stored_volumes(stored(b"v", data), WriterOptions::default(), 10),
        Err(Error::InvalidHeader("RAR 1.3 volume writer needs at least two volumes"))
    );
    assert_eq!(
        write_stored_volumes(stored(b"v", b""), WriterOptions::default(), 4),
        Err(Error::InvalidHeader("RAR 1.3 volume writer needs a non-empty packed payload"))
    );
    assert_eq!(
        write_compressed_volumes(compressed(b"v", b""), WriterOptions::default(), 4),
        Err(Error::InvalidHeader("RAR 1.3 volume writer needs a non-empty packed payload"))
    );
    let mut secret = stored(b"v", data);
    secret.password = Some(b"pw");
    assert_eq!(
        write_stored_volumes(secret, WriterOptions::default(), 4),
        Err(Error::UnsupportedFeature {
            version: ArchiveVersion::Rar14,
            feature: "volume_password"
        })
    );
    let mut commented = stored(b"v", data);
    commented.file_comment = Some(b"c");
    assert_eq!(
        write_stored_volumes(commented, WriterOptions::default(), 4),
        Err(Error::UnsupportedFeature {
            version: ArchiveVersion::Rar14,
            feature: "volume_file_comment"
        })
    );
    let mut features = FeatureSet::store_only();
    features.archive_comment = true;
    assert_eq!(
        write_stored_volumes(stored(b"v", data), options_with(features), 4),
        Err(Error::UnsupportedFeature {
            version: ArchiveVersion::Rar14,
            feature: "volume_archive_comment"
        })
    );
}

#[test]
fn volumes_carry_chunks_and_checksums() {
    let data = b"abcdefghij";
    let volumes = write_stored_volumes(stored(b"v", data), WriterOptions::default(), 4).unwrap();
    assert_eq!(volumes.len(), 3);
    let parsed: Vec<Archive> = volumes.iter().map(|v| Archive::parse(v).unwrap()).collect();
    assert_eq!(parsed[0].main.flags, 0x81);
    assert_eq!(parsed[0].entries[0].header.flags, 0x02);
    assert_eq!(parsed[1].entries[0].header.flags, 0x03);
    assert_eq!(parsed[2].entries[0].header.flags, 0x01);
    assert_eq!(parsed[0].entries[0].packed_data(&parsed[0]).unwrap(), b"abcd");
    assert_eq!(parsed[2].entries[0].packed_data(&parsed[2]).unwrap(), b"ij");
    assert_eq!(parsed[0].entries[0].header.file_crc, file_checksum(b"abcd"));
    assert_eq!(parsed[2].entries[0].header.file_crc, file_checksum(data));
    assert_eq!(parsed[1].entries[0].header.unp_size, 10);
}

#[test]
fn volume_set_errors_are_reported() {
    let data = b"abcdefghij";
    let volumes = write_stored_volumes(stored(b"v", data), WriterOptions::default(), 4).unwrap();
    let parsed: Vec<Archive> = volumes.iter().map(|v| Archive::parse(v).unwrap()).collect();
    let mut parsed_again: Vec<Archive> =
        volumes.iter().map(|v| Archive::parse(v).unwrap()).collect();

    assert_eq!(
        extract_volumes(&parsed[..2], None),
        Err(Error::InvalidHeader("RAR 1.3 split entry is incomplete"))
    );
    assert_eq!(
        extract_volumes(&parsed[1..], None),
        Err(Error::InvalidHeader("RAR 1.3 split entry flags are inconsistent"))
    );

    let regular = write_stored_archive(&[stored(b"r", b"x")], WriterOptions::default()).unwrap();
    let regular = Archive::parse(&regular).unwrap();
    let last = parsed_again.pop().unwrap();
    parsed_again.push(regular);
    parsed_again.push(last);
    assert_eq!(
        extract_volumes(&parsed_again, None),
        Err(Error::InvalidHeader("RAR 1.3 split entry is interrupted by a regular entry"))
    );

    let other = write_stored_volumes(stored(b"w", data), WriterOptions::default(), 4).unwrap();
    let mut mixed: Vec<Archive> = volumes[..2].iter().map(|v| Archive::parse(v).unwrap()).collect();
    mixed.push(Archive::parse(&other[2]).unwrap());
    assert_eq!(
        extract_volumes(&mixed, None),
        Err(Error::InvalidHeader("RAR 1.3 split entry name changed"))
    );
}

#[test]
fn volume_set_streams_to_sink() {
    let data = b"abcdefghijklmnop";
    let volumes =
        write_compressed_volumes(compressed(b"c.txt", data), WriterOptions::default(), 5).unwrap();
    let parsed: Vec<Archive> = volumes.iter().map(|v| Archive::parse(v).unwrap()).collect();
    let mut seen = Vec::new();
    extract_volumes_to(&parsed, None, |meta, bytes| {
        seen.push((meta.name, bytes));
        Ok(())
    })
    .unwrap();
    assert_eq!(seen, vec![(b"c.txt".to_vec(), data.to_vec())]);
}

#[test]
fn archive_streams_to_sink_and_stops_on_sink_error() {
    let input = [stored(b"a", b"1"), stored(b"b", b"2")];
    let bytes = write_stored_archive(&input, WriterOptions::default()).unwrap();
    let archive = Archive::parse(&bytes).unwrap();
    let mut seen = Vec::new();
    archive
        .extract_to(None, |meta, data| {
            seen.push((meta.name, data));
            Ok(())
        })
        .unwrap();
    assert_eq!(seen, vec![(b"a".to_vec(), b"1".to_vec()), (b"b".to_vec(), b"2".to_vec())]);

    let mut calls = 0;
    let result = archive.extract_to(None, |_meta, _data| {
        calls += 1;
        Err(Error::Io("disk full".to_string()))
    });
    assert_eq!(result, Err(Error::Io("disk full".to_string())));
    assert_eq!(calls, 1);
}

#[test]
fn compressed_members_round_trip() {
    let data: Vec<u8> = (0..2000u32).map(|i| (i * 7 % 251) as u8).collect();
    let input = [compressed(b"big.bin", &data), compressed(b"e", b"")];
    let bytes = write_compressed_archive(&input, WriterOptions::default()).unwrap();
    let archive = Archive::parse(&bytes).unwrap();
    assert_eq!(archive.entries[1].header.pack_size, 0);
    let extracted = archive.extract(None).unwrap();
    assert_eq!(extracted[0].data, data);
    assert_eq!(extracted[1].data, b"");
}

#[test]
fn detects_signature_behind_a_stub() {
    let bytes = write_stored_archive(&[stored(b"a", b"1")], WriterOptions::default()).unwrap();
    let mut with_stub = vec![0u8; 100];
    with_stub.extend_from_slice(&bytes);
    assert!(detect_archive_family(&with_stub).is_none());
    let found = find_archive_start(&with_stub, 1000).unwrap();
    assert_eq!(found.offset, 100);
    assert_eq!(found.family, ArchiveFamily::Rar13);
    assert!(find_archive_start(&with_stub, 100).is_none());
    let archive = Archive::parse(&with_stub).unwrap();
    assert_eq!(archive.sfx_offset, 100);
    assert_eq!(archive.entries[0].stored_data(&archive, None).unwrap(), b"1");
}

#[test]
fn corrupt_stored_data_fails_checksum() {
    let mut bytes = write_stored_archive(&[stored(b"a", b"hello")], WriterOptions::default())
        .unwrap();
    let last = bytes.len() - 1;
    bytes[last] ^= 1;
    let archive = Archive::parse(&bytes).unwrap();
    assert_eq!(
        archive.extract_stored(None),
        Err(Error::CrcMismatch {
            expected: file_checksum(b"hello"),
            actual: file_checksum(b"helln")
        })
    );
}

#[test]
fn error_messages_are_formatted() {
    assert_eq!(Error::TooShort.to_string(), "input is too short");
    assert_eq!(
        Error::CrcMismatch {
            expected: 0x12,
            actual: 0xabcd
        }
        .to_string(),
        "checksum mismatch: expected 0x0012, got 0xabcd"
    );
    assert_eq!(
        Error::UnsupportedFeature {
            version: ArchiveVersion::Rar13,
            feature: "sfx"
        }
        .to_string(),
        "feature sfx is not supported by Rar13"
    );
    assert_eq!(
        Error::HashMismatch { hash_type: 7 }.to_string(),
        "hash mismatch for hash type 7"
    );
    assert!(Error::NeedPassword.source().is_none());
}

#[test]
fn lossy_names_replace_invalid_bytes() {
    let bytes = write_stored_archive(&[stored(b"f\xff", b"1")], WriterOptions::default()).unwrap();
    let archive = Archive::parse(&bytes).unwrap();
    assert_eq!(archive.entries[0].name_lossy(), "f\u{fffd}");
}

#[test]
fn password_options_are_taken_out() {
    let (password, rest) =
        parse_password(&args(&["a", "--password", "one", "b", "-p", "two"])).unwrap();
    assert_eq!(password, Some(b"two".to_vec()));
    assert_eq!(rest, args(&["a", "b"]));
    assert_eq!(
        parse_password(&args(&["a", "-p"])),
        Err(CliError::MissingPasswordValue)
    );
}

#[test]
fn numbers_parse_like_the_standard_parser() {
    assert_eq!(parse_usize(b"0"), Ok(0));
    assert_eq!(parse_usize(b"+42"), Ok(42));
    assert_eq!(parse_usize(b"007"), Ok(7));
    assert_eq!(parse_usize(b""), Err(NumberError::Empty));
    assert_eq!(parse_usize(b"+"), Err(NumberError::InvalidDigit));
    assert_eq!(parse_usize(b"-1"), Err(NumberError::InvalidDigit));
    assert_eq!(parse_usize(b"12a"), Err(NumberError::InvalidDigit));
    assert_eq!(
        parse_usize(b"99999999999999999999999"),
        Err(NumberError::PosOverflow)
    );
    assert_eq!(parse_usize(b"4096"), "4096".parse::<usize>().map_err(|_| NumberError::Empty));
}

#[test]
fn add_arguments_make_a_plan() {
    let plan = plan_add(&args(&[
        "--store",
        "--comment",
        "hi",
        "--volume-size",
        "10",
        "out.rar",
        "in.bin",
    ]))
    .unwrap();
    assert!(plan.store);
    assert!(!plan.solid);
    assert_eq!(plan.archive_comment, Some(b"hi".to_vec()));
    assert_eq!(plan.file_comment, None);
    assert_eq!(plan.volume_size, Some(10));
    assert_eq!(plan.archive_path, b"out.rar".to_vec());
    assert_eq!(plan.inputs, args(&["in.bin"]));

    assert_eq!(plan_add(&args(&["out.rar"])).err(), Some(CliError::AddUsage));
    assert_eq!(
        plan_add(&args(&["--store", "--solid", "o", "i"])).err(),
        Some(CliError::SolidNeedsCompression)
    );
    assert_eq!(plan_add(&args(&["--store", "o"])).err(), Some(CliError::NoInputFiles));
    assert_eq!(
        plan_add(&args(&["--volume-size", "5", "o", "i", "j"])).err(),
        Some(CliError::MultivolumeNeedsOneInput)
    );
    assert_eq!(
        plan_add(&args(&["--bogus", "o", "i"])).err(),
        Some(CliError::UnknownAddOption(0))
    );
    assert_eq!(
        plan_add(&args(&["o", "--comment"])).map(|p| p.inputs),
        Ok(args(&["--comment"]))
    );
    assert_eq!(
        plan_add(&args(&["--store", "--comment"])).err(),
        Some(CliError::MissingOptionValue("--comment"))
    );
    assert_eq!(
        plan_add(&args(&["--volume-size", "x", "o", "i"])).err(),
        Some(CliError::InvalidNumber(NumberError::InvalidDigit))
    );
}

#[test]
fn entry_names_map_to_safe_components() {
    assert_eq!(output_components(b"SUBDIR\\INNER.TXT"), Ok(args(&["SUBDIR", "INNER.TXT"])));
    assert_eq!(output_components(b"./a//b/."), Ok(args(&["a", "b"])));
    assert_eq!(output_components(b"a/.../b"), Ok(args(&["a", "...", "b"])));
    assert_eq!(output_components(b"../evil.txt"), Err(CliError::UnsafePath));
    assert_eq!(output_components(b"a/../../b"), Err(CliError::UnsafePath));
    assert_eq!(output_components(b"/etc/passwd"), Err(CliError::UnsafePath));
    assert_eq!(output_components(b"\\x"), Err(CliError::UnsafePath));
    assert_eq!(output_components(b""), Err(CliError::EmptyPath));
    assert_eq!(output_components(b"./."), Err(CliError::EmptyPath));
}

#[test]
fn volume_extensions_count_from_r00() {
    assert_eq!(volume_extension(0), Ok(None));
    assert_eq!(volume_extension(1), Ok(Some(b"r00".to_vec())));
    assert_eq!(volume_extension(11), Ok(Some(b"r10".to_vec())));
    assert_eq!(volume_extension(100), Ok(Some(b"r99".to_vec())));
    assert_eq!(volume_extension(101), Err(CliError::TooManyVolumes));
}

#[test]
fn streaming_decoder_waits_for_complete_input() {
    let data = b"stream me ".repeat(20);
    let packed = unpack15_encode(&data).unwrap();
    let mut decoder = Unpack15::new();
    decoder.begin_member(data.len(), false);
    let mut out = Vec::new();
    decoder.push_input(&packed[..packed.len() / 2]);
    assert_eq!(decoder.decode_pending(&mut out), Err(CodecError::NeedMoreInput));
    assert!(out.is_empty());
    decoder.push_input(&packed[packed.len() / 2..]);
    decoder.finish_input();
    decoder.decode_pending(&mut out).unwrap();
    assert_eq!(out, data);
}

#[test]
fn reader_failure_stops_decoding() {
    let mut decoder = Unpack15::new();
    let mut out = Vec::new();
    assert_eq!(
        decoder.decode_member_from_reader(|| None, 5, false, &mut out),
        Err(CodecError::InvalidData("RAR 1.3 input read failed"))
    );
    let mut pieces = vec![Vec::new()];
    assert!(decoder
        .decode_member_from_reader(|| pieces.pop(), 5, false, &mut out)
        .is_err());
}

#[test]
fn cli_error_messages_are_library_text() {
    assert_eq!(CliError::NoInputFiles.message(&[]), b"no input files".to_vec());
    assert_eq!(
        CliError::MissingOptionValue("comment").to_string(&[]),
        "missing comment value"
    );
    let args = vec![b"out.rar".to_vec(), b"--bogus".to_vec()];
    assert_eq!(
        CliError::UnknownAddOption(1).to_string(&args),
        "unknown add option: --bogus"
    );
    assert_eq!(
        CliError::InvalidNumber(NumberError::Empty).to_string(&[]),
        "cannot parse integer from empty string"
    );
}

#[test]
fn match_search_past_the_end_finds_nothing() {
    let input = b"abcabcabcabc";
    assert!(oldrar::codec::find_short_lz(input, 20).is_none());
    assert!(oldrar::codec::find_long_lz(input, 20).is_none());
    assert!(oldrar::codec::find_short_lz(input, 6).is_some());
}

#[test]
fn stored_entry_with_empty_name_is_refused() {
    let mut out = Vec::new();
    let entry = stored(b"", b"data");
    let r = oldrar::writer::write_stored_entry(&mut out, &entry, FeatureSet::store_only());
    assert_eq!(r, Err(Error::InvalidHeader("RAR 1.3 file name is empty")));
    assert!(out.is_empty());
}

#[test]
fn cloned_error_keeps_its_message() {
    let e = Error::CrcMismatch { expected: 1, actual: 2 }.at_archive_offset(7);
    assert_eq!(e.clone().to_string(), e.to_string());
    assert_eq!(e.clone(), e);
}

#[test]
fn extract_to_hands_every_stored_entry_to_the_sink() {
    let entries = [stored(b"a.txt", b"alpha"), stored(b"b.txt", b"beta")];
    let bytes = write_stored_archive(&entries, WriterOptions::default()).unwrap();
    let archive = Archive::parse(&bytes).unwrap();
    let mut seen: Vec<(Vec<u8>, Vec<u8>)> = Vec::new();
    archive
        .extract_to(None, |meta, data| {
            seen.push((meta.name.clone(), data));
            Ok(())
        })
        .unwrap();
    assert_eq!(
        seen,
        vec![(b"a.txt".to_vec(), b"alpha".to_vec()), (b"b.txt".to_vec(), b"beta".to_vec())]
    );
}

#[test]
fn short_packed_comment_is_written() {
    let entries = [stored(b"a.txt", b"alpha")];
    let r = write_stored_archive_with_comment(&entries, WriterOptions::default(), Some(b"a comment"));
    let bytes = r.expect("a short comment packs");
    let archive = Archive::parse(&bytes).unwrap();
    assert_eq!(archive.archive_comment().unwrap().unwrap().len(), 9);
}

#[test]
fn encoder_output_stays_within_nine_bytes_per_input_byte() {
    let input: Vec<u8> = (0..=255u8).collect();
    let packed = unpack15_encode(&input).unwrap();
    assert!(!packed.is_empty());
    assert!(packed.len() <= 9 * input.len());
}
