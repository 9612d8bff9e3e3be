use vstd::prelude::*;

use crate::bytes::{append_bytes, copy_bytes, sub_slice, le16_bytes, le32_bytes, push_le16, push_le32};
use crate::checksum::{checksum_of, file_checksum};
use crate::codec::{unpack15_encode, Error as CodecError, Unpack15Encoder};
use crate::decoding::unpack15_spec;
use crate::pack::no_repeats;
use crate::crypto::{encrypt_seq, password_key, Rar13Cipher};
use crate::detect::rar13_signature;
use crate::error::Error;
use crate::features::FeatureSet;
use crate::rar13::{
    DEFAULT_UNP_VER, FILE_HEAD_BASE_SIZE, LHD_COMMENT, LHD_PASSWORD, LHD_SOLID, LHD_SPLIT_AFTER,
    LHD_SPLIT_BEFORE, MHD_VOLUME, MAIN_HEAD_SIZE,
    METHOD_STORE, MHD_ALWAYS_SET, MHD_COMMENT, MHD_PACK_COMMENT, MHD_SOLID,
};
use crate::version::ArchiveVersion;

verus! {

/// The format version and features an archive is written with.
#[derive(Debug, Clone, Copy, PartialEq, Eq, Structural)]
pub struct WriterOptions {
    pub target: ArchiveVersion,
    pub features: FeatureSet,
}

impl Default for WriterOptions {
    fn default() -> (options: WriterOptions)
        ensures
            options.target == ArchiveVersion::Rar14,
            options.features == (FeatureSet {
                solid: false,
                archive_comment: false,
                file_comment: false,
                sfx: false,
                authenticity_verification: false,
                quick_open: false,
            }),
    {
        WriterOptions { target: ArchiveVersion::Rar14, features: FeatureSet::store_only() }
    }
}

/// A file to be written without compression.
#[derive(Debug, Clone, Copy, PartialEq, Eq)]
pub struct StoredEntry<'a> {
    pub name: &'a [u8],
    pub data: &'a [u8],
    pub file_time: u32,
    pub file_attr: u8,
    pub password: Option<&'a [u8]>,
    pub file_comment: Option<&'a [u8]>,
}

/// A file to be written compressed.
#[derive(Debug, Clone, Copy, PartialEq, Eq)]
pub struct FileEntry<'a> {
    pub name: &'a [u8],
    pub data: &'a [u8],
    pub file_time: u32,
    pub file_attr: u8,
    pub password: Option<&'a [u8]>,
    pub file_comment: Option<&'a [u8]>,
}

/// Optional bytes as plain values.
pub open spec fn opt_view(o: Option<&[u8]>) -> Option<Seq<u8>> {
    match o {
        Some(s) => Some(s@),
        None => None,
    }
}

/// The flags of a main header: the always-set bit, `extra`, the two comment
/// bits when there is an archive comment, and the solid bit.
pub open spec fn main_flags(comment: bool, solid: bool, extra: u8) -> u8 {
    MHD_ALWAYS_SET | extra | (if comment {
        MHD_COMMENT | MHD_PACK_COMMENT
    } else {
        0u8
    }) | (if solid {
        MHD_SOLID
    } else {
        0u8
    })
}

/// The bytes of a main header with `flags` and the header extension `extra`.
pub open spec fn main_header_bytes(flags: u8, extra: Seq<u8>) -> Seq<u8> {
    rar13_signature() + le16_bytes((7 + extra.len()) as u16) + seq![flags] + extra
}

/// The flags of a file header: password, comment and solid bits.
pub open spec fn entry_flags(password: bool, comment: bool, solid: bool) -> u8 {
    (if password {
        LHD_PASSWORD
    } else {
        0u8
    }) | (if comment {
        LHD_COMMENT
    } else {
        0u8
    }) | (if solid {
        LHD_SOLID
    } else {
        0u8
    })
}

/// The header extension that carries a file comment: its length and bytes.
pub open spec fn file_comment_extra(comment: Option<Seq<u8>>) -> Seq<u8> {
    match comment {
        None => Seq::empty(),
        Some(c) => le16_bytes(c.len() as u16) + c,
    }
}

/// The bytes of a file record: the 21 header bytes, the name, the header
/// extension and the packed data.
pub open spec fn file_record_bytes(
    name: Seq<u8>,
    unp_size: u32,
    crc: u16,
    packed: Seq<u8>,
    file_time: u32,
    file_attr: u8,
    flags: u8,
    unp_ver: u8,
    method: u8,
    extra: Seq<u8>,
) -> Seq<u8> {
    le32_bytes(packed.len() as u32) + le32_bytes(unp_size) + le16_bytes(crc) + le16_bytes(
        (21 + name.len() + extra.len()) as u16,
    ) + le32_bytes(file_time) + seq![file_attr, flags, unp_ver, name.len() as u8, method] + name
        + extra + packed
}

/// The result of a check on one enabled writer feature.
pub open spec fn feature_result(version: ArchiveVersion, enabled: bool, feature: &'static str) -> Result<(), Error> {
    if enabled {
        Err(Error::UnsupportedFeature { version, feature })
    } else {
        Ok(())
    }
}

/// What checking the writer options gives: the target must be of the RAR 1.3
/// family, the features must exist there, and the writer does not produce
/// self-extracting stubs or authenticity verification blocks.
pub open spec fn options_result(options: WriterOptions) -> Result<(), Error> {
    let v = options.target;
    let f = options.features;
    if f.quick_open {
        Err(Error::UnsupportedFeature { version: v, feature: "quick_open" })
    } else if f.sfx {
        Err(Error::UnsupportedFeature { version: v, feature: "sfx" })
    } else if f.authenticity_verification {
        Err(Error::UnsupportedFeature { version: v, feature: "authenticity_verification" })
    } else {
        Ok(())
    }
}

/// What checking a file's name and size gives.
pub open spec fn file_entry_result(name: Seq<u8>, data: Seq<u8>) -> Result<(), Error> {
    if name.len() == 0 {
        Err(Error::InvalidHeader("RAR 1.3 file name is empty"))
    } else if name.len() > 255 {
        Err(Error::InvalidHeader("RAR 1.3 file name is longer than 255 bytes"))
    } else if data.len() > u32::MAX {
        Err(Error::InvalidHeader("RAR 1.3 file is larger than 32-bit size fields"))
    } else {
        Ok(())
    }
}

/// What encoding a file comment gives.
pub open spec fn comment_extra_result(comment: Option<Seq<u8>>) -> Result<Seq<u8>, Error> {
    match comment {
        Some(c) => if c.len() > 65535 {
            Err(Error::InvalidHeader("RAR 1.3 file comment is longer than 65535 bytes"))
        } else {
            Ok(file_comment_extra(comment))
        },
        None => Ok(Seq::empty()),
    }
}

/// Rejects an enabled feature that the writer does not produce.
pub fn reject_writer_feature(version: ArchiveVersion, enabled: bool, feature: &'static str) -> (r:
    Result<(), Error>)
    ensures
        r == feature_result(version, enabled, feature),
{
    if enabled {
        Err(Error::UnsupportedFeature { version, feature })
    } else {
        Ok(())
    }
}

/// Rejects the features that the stored writer does not produce.
pub fn validate_stored_writer_features(version: ArchiveVersion, features: FeatureSet) -> (r: Result<
    (),
    Error,
>)
    ensures
        r == (if features.sfx {
            feature_result(version, true, "sfx")
        } else {
            feature_result(version, features.authenticity_verification, "authenticity_verification")
        }),
{
    match reject_writer_feature(version, features.sfx, "sfx") {
        Ok(()) => {},
        Err(e) => {
            return Err(e);
        },
    }
    reject_writer_feature(version, features.authenticity_verification, "authenticity_verification")
}

/// Rejects the features that the compressed writer does not produce.
pub fn validate_compressed_writer_features(version: ArchiveVersion, features: FeatureSet) -> (r:
    Result<(), Error>)
    ensures
        r == (if features.sfx {
            feature_result(version, true, "sfx")
        } else {
            feature_result(version, features.authenticity_verification, "authenticity_verification")
        }),
{
    match reject_writer_feature(version, features.sfx, "sfx") {
        Ok(()) => {},
        Err(e) => {
            return Err(e);
        },
    }
    reject_writer_feature(version, features.authenticity_verification, "authenticity_verification")
}

/// Checks the writer options for the stored writer.
fn check_options(options: WriterOptions) -> (r: Result<(), Error>)
    ensures
        r == options_result(options),
{
    if !options.target.is_rar13_family() {
        return Err(Error::UnsupportedVersion(options.target));
    }
    match options.features.validate_for(options.target) {
        Ok(()) => {},
        Err(e) => {
            return Err(e);
        },
    }
    validate_stored_writer_features(options.target, options.features)
}

/// Checks the writer options for the compressed writer.
fn check_compressed_options(options: WriterOptions) -> (r: Result<(), Error>)
    ensures
        r == options_result(options),
{
    if !options.target.is_rar13_family() {
        return Err(Error::UnsupportedVersion(options.target));
    }
    match options.features.validate_for(options.target) {
        Ok(()) => {},
        Err(e) => {
            return Err(e);
        },
    }
    validate_compressed_writer_features(options.target, options.features)
}

/// Checks that a file's name fits its one-byte length field and its size the
/// 32-bit size fields.
pub fn validate_file_entry(name: &[u8], data: &[u8]) -> (r: Result<(), Error>)
    ensures
        r == file_entry_result(name@, data@),
{
    if name.len() == 0 {
        return Err(Error::InvalidHeader("RAR 1.3 file name is empty"));
    }
    if name.len() > 255 {
        return Err(Error::InvalidHeader("RAR 1.3 file name is longer than 255 bytes"));
    }
    if data.len() > 0xffff_ffff {
        return Err(Error::InvalidHeader("RAR 1.3 file is larger than 32-bit size fields"));
    }
    Ok(())
}

/// Checks a stored entry's name and size.
pub fn validate_stored_entry(entry: &StoredEntry<'_>) -> (r: Result<(), Error>)
    ensures
        r == file_entry_result(entry.name@, entry.data@),
{
    validate_file_entry(entry.name, entry.data)
}

/// The header extension that carries a file comment.
pub fn encode_file_comment(comment: Option<&[u8]>) -> (r: Result<Vec<u8>, Error>)
    ensures
        match comment_extra_result(opt_view(comment)) {
            Ok(x) => r matches Ok(v) && v@ == x,
            Err(e) => r == Err::<Vec<u8>, Error>(e),
        },
{
    let comment = match comment {
        None => {
            return Ok(Vec::new());
        },
        Some(c) => c,
    };
    if comment.len() > 65535 {
        return Err(Error::InvalidHeader("RAR 1.3 file comment is longer than 65535 bytes"));
    }
    let mut out: Vec<u8> = Vec::new();
    push_le16(&mut out, comment.len() as u16);
    append_bytes(&mut out, comment);
    Ok(out)
}

/// Appends a file record whose header carries the given size and checksum.
pub fn write_file_entry_with_crc(
    out: &mut Vec<u8>,
    name: &[u8],
    unpacked_size: u32,
    file_crc: u16,
    packed: &[u8],
    file_time: u32,
    file_attr: u8,
    flags: u8,
    unp_ver: u8,
    method: u8,
    extra: &[u8],
) -> (r: Result<(), Error>)
    requires
        21 + name@.len() + extra@.len() <= usize::MAX,
    ensures
        r is Ok,
        final(out)@ == old(out)@ + file_record_bytes(
            name@,
            unpacked_size,
            file_crc,
            packed@,
            file_time,
            file_attr,
            flags,
            unp_ver,
            method,
            extra@,
        ),
{
    let head_size = FILE_HEAD_BASE_SIZE + name.len() + extra.len();
    push_le32(out, packed.len() as u32);
    push_le32(out, unpacked_size);
    push_le16(out, file_crc);
    push_le16(out, head_size as u16);
    push_le32(out, file_time);
    out.push(file_attr);
    out.push(flags);
    out.push(unp_ver);
    out.push(name.len() as u8);
    out.push(method);
    append_bytes(out, name);
    append_bytes(out, extra);
    append_bytes(out, packed);
    proof {
        assert(out@ =~= old(out)@ + file_record_bytes(
            name@,
            unpacked_size,
            file_crc,
            packed@,
            file_time,
            file_attr,
            flags,
            unp_ver,
            method,
            extra@,
        ));
    }
    Ok(())
}

/// Appends a file record for `unpacked`, whose packed form is `packed`.
pub fn write_file_entry(
    out: &mut Vec<u8>,
    name: &[u8],
    unpacked: &[u8],
    packed: &[u8],
    file_time: u32,
    file_attr: u8,
    flags: u8,
    unp_ver: u8,
    method: u8,
    extra: &[u8],
) -> (r: Result<(), Error>)
    requires
        21 + name@.len() + extra@.len() <= usize::MAX,
    ensures
        r is Ok,
        final(out)@ == old(out)@ + file_record_bytes(
            name@,
            unpacked@.len() as u32,
            checksum_of(unpacked@),
            packed@,
            file_time,
            file_attr,
            flags,
            unp_ver,
            method,
            extra@,
        ),
{
    write_file_entry_with_crc(
        out,
        name,
        unpacked.len() as u32,
        file_checksum(unpacked),
        packed,
        file_time,
        file_attr,
        flags,
        unp_ver,
        method,
        extra,
    )
}


/// An archive comment extension fits its fields: the packed size field counts
/// itself and the packed bytes, the unpacked size field holds the comment's
/// length, and an empty comment packs to nothing.
pub open spec fn comment_extra_ok(comment: Seq<u8>, x: Seq<u8>) -> bool {
    &&& x.len() >= 4
    &&& x.len() - 2 <= 65535
    &&& x.subrange(0, 2) == le16_bytes((x.len() - 2) as u16)
    &&& x.subrange(2, 4) == le16_bytes(comment.len() as u16)
    &&& comment.len() == 0 ==> x.len() == 4
}

/// The main header extension that carries a packed archive comment: the
/// packed size (counting its own two bytes), the comment's length and the
/// comment, compressed and encrypted with the comment key.
pub fn encode_archive_comment(comment: Option<&[u8]>) -> (r: Result<Vec<u8>, Error>)
    ensures
        comment is None ==> (r matches Ok(v) && v@.len() == 0),
        comment matches Some(c) ==> {
            &&& c@.len() > 65535 ==> r == Err::<Vec<u8>, Error>(
                Error::InvalidHeader("RAR 1.3 archive comment is longer than 65535 bytes"),
            )
            &&& c@.len() == 0 ==> (r matches Ok(v) && v@ == le16_bytes(2) + le16_bytes(0))
            &&& r matches Ok(v) ==> comment_extra_ok(c@, v@) && v@.len() <= 9 * c@.len() + 4
            &&& r matches Err(e) ==> e is InvalidHeader
            &&& c@.len() <= 7280 ==> r is Ok
        },
{
    let comment = match comment {
        None => {
            return Ok(Vec::new());
        },
        Some(c) => c,
    };
    if comment.len() > 65535 {
        return Err(Error::InvalidHeader("RAR 1.3 archive comment is longer than 65535 bytes"));
    }
    let mut packed = match unpack15_encode(comment) {
        Ok(p) => p,
        Err(e) => {
            return Err(Error::from_codec(e));
        },
    };
    let mut cipher = Rar13Cipher::new_comment();
    cipher.encrypt_in_place(&mut packed);
    let packed_field_len = match packed.len().checked_add(2) {
        Some(n) => n,
        None => {
            return Err(Error::InvalidHeader("RAR 1.3 archive comment size overflows"));
        },
    };
    if packed_field_len > 65535 {
        return Err(
            Error::InvalidHeader("RAR 1.3 packed archive comment is longer than 65535 bytes"),
        );
    }
    let mut out: Vec<u8> = Vec::new();
    push_le16(&mut out, packed_field_len as u16);
    push_le16(&mut out, comment.len() as u16);
    append_bytes(&mut out, packed.as_slice());
    proof {
        assert(out@.subrange(0, 2) =~= le16_bytes(packed_field_len as u16));
        assert(out@.subrange(2, 4) =~= le16_bytes(comment@.len() as u16));
    }
    Ok(out)
}

/// Appends a main header with the given extra flags and archive comment.
pub fn write_main_header_with_flags(
    out: &mut Vec<u8>,
    features: FeatureSet,
    archive_comment: Option<&[u8]>,
    extra_flags: u8,
) -> (r: Result<(), Error>)
    ensures
        archive_comment is None ==> (r is Ok && final(out)@ == old(out)@ + main_header_bytes(
            main_flags(false, features.solid, extra_flags),
            Seq::empty(),
        )),
        archive_comment matches Some(c) ==> {
            &&& c@.len() > 65535 ==> r == Err::<(), Error>(
                Error::InvalidHeader("RAR 1.3 archive comment is longer than 65535 bytes"),
            )
            &&& r is Ok ==> exists|x: Seq<u8>|
                #![trigger comment_extra_ok(c@, x)]
                comment_extra_ok(c@, x) && 7 + x.len() <= 65535 && final(out)@ == old(out)@
                    + main_header_bytes(main_flags(true, features.solid, extra_flags), x)
            &&& r matches Err(e) ==> e is InvalidHeader
            &&& c@.len() <= 7280 ==> r is Ok
        },
{
    let comment_extra = match encode_archive_comment(archive_comment) {
        Ok(x) => x,
        Err(e) => {
            return Err(e);
        },
    };
    let comment_bits: u8 = if archive_comment.is_some() {
        MHD_COMMENT | MHD_PACK_COMMENT
    } else {
        0u8
    };
    let solid_bits: u8 = if features.solid {
        MHD_SOLID
    } else {
        0u8
    };
    let flags: u8 = MHD_ALWAYS_SET | extra_flags | comment_bits | solid_bits;
    let head_size = MAIN_HEAD_SIZE as usize + comment_extra.len();
    if head_size > 65535 {
        return Err(Error::InvalidHeader("RAR 1.3 main header comment extension is too large"));
    }
    let ghost before = out@;
    out.push(0x52);
    out.push(0x45);
    out.push(0x7e);
    out.push(0x5e);
    push_le16(out, head_size as u16);
    out.push(flags);
    append_bytes(out, comment_extra.as_slice());
    proof {
        assert(out@ =~= before + main_header_bytes(flags, comment_extra@));
    }
    Ok(())
}

/// Appends a main header for the given features and archive comment.
pub fn write_main_header(out: &mut Vec<u8>, features: FeatureSet, archive_comment: Option<&[u8]>) -> (r:
    Result<(), Error>)
    ensures
        archive_comment is None ==> (r is Ok && final(out)@ == old(out)@ + main_header_bytes(
            main_flags(false, features.solid, 0),
            Seq::empty(),
        )),
        archive_comment matches Some(c) ==> {
            &&& c@.len() > 65535 ==> r == Err::<(), Error>(
                Error::InvalidHeader("RAR 1.3 archive comment is longer than 65535 bytes"),
            )
            &&& r is Ok ==> exists|x: Seq<u8>|
                #![trigger comment_extra_ok(c@, x)]
                comment_extra_ok(c@, x) && 7 + x.len() <= 65535 && final(out)@ == old(out)@
                    + main_header_bytes(main_flags(true, features.solid, 0), x)
            &&& r matches Err(e) ==> e is InvalidHeader
            &&& c@.len() <= 7280 ==> r is Ok
        },
{
    write_main_header_with_flags(out, features, archive_comment, 0)
}


/// The body of a stored entry: its data, encrypted when it has a password.
pub open spec fn stored_body(e: StoredEntry) -> Seq<u8> {
    match e.password {
        Some(p) => encrypt_seq(password_key(p@), e.data@),
        None => e.data@,
    }
}

/// The file record of a stored entry.
pub open spec fn stored_record(e: StoredEntry, solid: bool) -> Seq<u8> {
    file_record_bytes(
        e.name@,
        e.data@.len() as u32,
        checksum_of(e.data@),
        stored_body(e),
        e.file_time,
        e.file_attr,
        entry_flags(e.password is Some, e.file_comment is Some, solid),
        DEFAULT_UNP_VER,
        METHOD_STORE,
        file_comment_extra(opt_view(e.file_comment)),
    )
}

/// The file records of stored entries, one after the other.
pub open spec fn stored_records(entries: Seq<StoredEntry>, solid: bool) -> Seq<u8>
    decreases entries.len(),
{
    if entries.len() == 0 {
        Seq::empty()
    } else {
        stored_records(entries.drop_last(), solid) + stored_record(entries.last(), solid)
    }
}

/// What checking one entry gives: its name and size, then its comment.
pub open spec fn entry_check(name: Seq<u8>, data: Seq<u8>, comment: Option<Seq<u8>>) -> Result<
    (),
    Error,
> {
    match file_entry_result(name, data) {
        Err(e) => Err(e),
        Ok(()) => match comment_extra_result(comment) {
            Err(e) => Err(e),
            Ok(_) => Ok(()),
        },
    }
}

/// The first error among the stored entries' checks, in order.
pub open spec fn stored_entries_result(entries: Seq<StoredEntry>) -> Result<(), Error>
    decreases entries.len(),
{
    if entries.len() == 0 {
        Ok(())
    } else {
        match stored_entries_result(entries.drop_last()) {
            Err(e) => Err(e),
            Ok(()) => entry_check(
                entries.last().name@,
                entries.last().data@,
                opt_view(entries.last().file_comment),
            ),
        }
    }
}

/// Appends the file record of a stored entry.
pub fn write_stored_entry(out: &mut Vec<u8>, entry: &StoredEntry<'_>, features: FeatureSet) -> (r:
    Result<(), Error>)
    ensures
        match entry_check(entry.name@, entry.data@, opt_view(entry.file_comment)) {
            Ok(_) => r is Ok && final(out)@ == old(out)@ + stored_record(*entry, features.solid),
            Err(e) => r == Err::<(), Error>(e) && final(out)@ == old(out)@,
        },
{
    match validate_stored_entry(entry) {
        Ok(()) => {},
        Err(e) => {
            return Err(e);
        },
    }
    let password_bits: u8 = if entry.password.is_some() {
        LHD_PASSWORD
    } else {
        0u8
    };
    let comment_bits: u8 = if entry.file_comment.is_some() {
        LHD_COMMENT
    } else {
        0u8
    };
    let solid_bits: u8 = if features.solid {
        LHD_SOLID
    } else {
        0u8
    };
    let flags: u8 = password_bits | comment_bits | solid_bits;
    let mut body = copy_bytes(entry.data);
    match entry.password {
        Some(password) => {
            let mut cipher = Rar13Cipher::new(password);
            cipher.encrypt_in_place(&mut body);
        },
        None => {},
    }
    let file_extra = match encode_file_comment(entry.file_comment) {
        Ok(x) => x,
        Err(e) => {
            return Err(e);
        },
    };
    write_file_entry(
        out,
        entry.name,
        entry.data,
        body.as_slice(),
        entry.file_time,
        entry.file_attr,
        flags,
        DEFAULT_UNP_VER,
        METHOD_STORE,
        file_extra.as_slice(),
    )
}

/// Writes an archive of stored entries.
pub fn write_stored_archive(entries: &[StoredEntry<'_>], options: WriterOptions) -> (r: Result<
    Vec<u8>,
    Error,
>)
    ensures
        match options_result(options) {
            Err(e) => r == Err::<Vec<u8>, Error>(e),
            Ok(()) => match stored_entries_result(entries@) {
                Err(e) => r == Err::<Vec<u8>, Error>(e),
                Ok(()) => r matches Ok(v) && v@ == main_header_bytes(
                    main_flags(false, options.features.solid, 0),
                    Seq::empty(),
                ) + stored_records(entries@, options.features.solid),
            },
        },
{
    write_stored_archive_with_comment(entries, options, None)
}

/// Writes an archive of stored entries with an optional archive comment.
pub fn write_stored_archive_with_comment(
    entries: &[StoredEntry<'_>],
    options: WriterOptions,
    archive_comment: Option<&[u8]>,
) -> (r: Result<Vec<u8>, Error>)
    ensures
        match options_result(options) {
            Err(e) => r == Err::<Vec<u8>, Error>(e),
            Ok(()) => match archive_comment {
                None => match stored_entries_result(entries@) {
                    Err(e) => r == Err::<Vec<u8>, Error>(e),
                    Ok(()) => r matches Ok(v) && v@ == main_header_bytes(
                        main_flags(false, options.features.solid, 0),
                        Seq::empty(),
                    ) + stored_records(entries@, options.features.solid),
                },
                Some(c) => {
                    &&& c@.len() > 65535 ==> r == Err::<Vec<u8>, Error>(
                        Error::InvalidHeader("RAR 1.3 archive comment is longer than 65535 bytes"),
                    )
                    &&& r matches Ok(v) ==> stored_entries_result(entries@) is Ok && exists|
                        x: Seq<u8>,
                    |
                        #![trigger comment_extra_ok(c@, x)]
                        comment_extra_ok(c@, x) && 7 + x.len() <= 65535 && v@ == main_header_bytes(
                            main_flags(true, options.features.solid, 0),
                            x,
                        ) + stored_records(entries@, options.features.solid)
                    &&& r matches Err(e) ==> e is InvalidHeader
                    &&& c@.len() <= 7280 ==> match stored_entries_result(entries@) {
                        Ok(()) => r is Ok,
                        Err(e) => r == Err::<Vec<u8>, Error>(e),
                    }
                },
            },
        },
{
    match check_options(options) {
        Ok(()) => {},
        Err(e) => {
            return Err(e);
        },
    }
    let mut out: Vec<u8> = Vec::new();
    match write_main_header(&mut out, options.features, archive_comment) {
        Ok(()) => {},
        Err(e) => {
            return Err(e);
        },
    }
    let ghost header = out@;
    let solid = options.features.solid;
    let mut i: usize = 0;
    while i < entries.len()
        invariant
            i <= entries@.len(),
            out@ == header + stored_records(entries@.subrange(0, i as int), solid),
            stored_entries_result(entries@.subrange(0, i as int)) is Ok,
            solid == options.features.solid,
            options_result(options) is Ok,
            archive_comment is None ==> header == main_header_bytes(
                main_flags(false, solid, 0),
                Seq::empty(),
            ),
            archive_comment matches Some(c) ==> exists|x: Seq<u8>|
                #![trigger comment_extra_ok(c@, x)]
                comment_extra_ok(c@, x) && 7 + x.len() <= 65535 && header == main_header_bytes(
                    main_flags(true, solid, 0),
                    x,
                ),
            archive_comment matches Some(c) ==> c@.len() <= 65535,
        decreases entries@.len() - i,
    {
        let entry = &entries[i];
        proof {
            let s = entries@.subrange(0, i + 1);
            assert(s.drop_last() =~= entries@.subrange(0, i as int));
            assert(s.last() == *entry);
        }
        match validate_stored_entry(entry) {
            Ok(()) => {},
            Err(e) => {
                proof {
                    lemma_stored_entries_prefix_err(entries@, (i + 1) as int);
                }
                return Err(e);
            },
        }
        let ghost before = out@;
        match write_stored_entry(&mut out, entry, options.features) {
            Ok(()) => {},
            Err(e) => {
                proof {
                    lemma_stored_entries_prefix_err(entries@, (i + 1) as int);
                }
                return Err(e);
            },
        }
        proof {
            assert(out@ == before + stored_record(*entry, solid));
            assert(header + stored_records(entries@.subrange(0, i as int), solid) + stored_record(
                *entry,
                solid,
            ) =~= header + stored_records(entries@.subrange(0, i + 1), solid));
        }
        i = i + 1;
    }
    proof {
        assert(entries@.subrange(0, entries@.len() as int) =~= entries@);
    }
    Ok(out)
}

/// An error in the checks of a prefix of the entries is the error of the
/// checks of all of them.
proof fn lemma_stored_entries_prefix_err(entries: Seq<StoredEntry>, n: int)
    requires
        0 <= n <= entries.len(),
        stored_entries_result(entries.subrange(0, n)) is Err,
    ensures
        stored_entries_result(entries) == stored_entries_result(entries.subrange(0, n)),
    decreases entries.len() - n,
{
    if n < entries.len() {
        let s = entries.subrange(0, n + 1);
        assert(s.drop_last() =~= entries.subrange(0, n));
        lemma_stored_entries_prefix_err(entries, n + 1);
    } else {
        assert(entries.subrange(0, n) =~= entries);
    }
}


/// The main header extension fits the archive comment: none without a
/// comment, a well-formed packed comment extension with one.
pub open spec fn header_extra_ok(comment: Option<Seq<u8>>, x: Seq<u8>) -> bool {
    match comment {
        None => x.len() == 0,
        Some(c) => comment_extra_ok(c, x) && 7 + x.len() <= 65535,
    }
}

/// The file record of a compressed entry whose packed form, before
/// encryption, is `plain`.
pub open spec fn compressed_record(e: FileEntry, solid: bool, plain: Seq<u8>) -> Seq<u8> {
    file_record_bytes(
        e.name@,
        e.data@.len() as u32,
        checksum_of(e.data@),
        match e.password {
            Some(p) => encrypt_seq(password_key(p@), plain),
            None => plain,
        },
        e.file_time,
        e.file_attr,
        entry_flags(e.password is Some, e.file_comment is Some, solid),
        DEFAULT_UNP_VER,
        3,
        file_comment_extra(opt_view(e.file_comment)),
    )
}

/// The file records of compressed entries with the given packed forms.
pub open spec fn compressed_records(
    entries: Seq<FileEntry>,
    solid: bool,
    packed: Seq<Seq<u8>>,
) -> Seq<u8>
    decreases entries.len(),
{
    if entries.len() == 0 {
        Seq::empty()
    } else {
        compressed_records(entries.drop_last(), solid, packed.drop_last()) + compressed_record(
            entries.last(),
            solid,
            packed.last(),
        )
    }
}

/// There is one packed form per entry, and an empty file packs to nothing.
pub open spec fn packed_ok(entries: Seq<FileEntry>, packed: Seq<Seq<u8>>) -> bool {
    &&& packed.len() == entries.len()
    &&& forall|i: int|
        0 <= i < entries.len() ==> (#[trigger] entries[i]).data@.len() == 0 ==> packed[i].len()
            == 0
}

/// Each packed member that the encoder made without a match decodes, as a
/// member without history, back to its entry's data.
pub open spec fn members_decode(entries: Seq<FileEntry>, packed: Seq<Seq<u8>>) -> bool {
    forall|i: int|
        0 <= i < entries.len() && no_repeats((#[trigger] entries[i]).data@) && 72
            * entries[i].data@.len() + 400 <= usize::MAX ==> unpack15_spec(
            packed[i],
            entries[i].data@.len() as int,
        ) == Some(Ok::<Seq<u8>, CodecError>(entries[i].data@))
}

/// The first error among the compressed entries' checks, in order.
pub open spec fn file_entries_result(entries: Seq<FileEntry>) -> Result<(), Error>
    decreases entries.len(),
{
    if entries.len() == 0 {
        Ok(())
    } else {
        match file_entries_result(entries.drop_last()) {
            Err(e) => Err(e),
            Ok(()) => entry_check(
                entries.last().name@,
                entries.last().data@,
                opt_view(entries.last().file_comment),
            ),
        }
    }
}

/// An error in the checks of a prefix of the compressed entries is the error
/// of the checks of all of them.
proof fn lemma_file_entries_prefix_err(entries: Seq<FileEntry>, n: int)
    requires
        0 <= n <= entries.len(),
        file_entries_result(entries.subrange(0, n)) is Err,
    ensures
        file_entries_result(entries) == file_entries_result(entries.subrange(0, n)),
    decreases entries.len() - n,
{
    if n < entries.len() {
        let s = entries.subrange(0, n + 1);
        assert(s.drop_last() =~= entries.subrange(0, n));
        lemma_file_entries_prefix_err(entries, n + 1);
    } else {
        assert(entries.subrange(0, n) =~= entries);
    }
}

/// Writes an archive of compressed entries.
pub fn write_compressed_archive(entries: &[FileEntry<'_>], options: WriterOptions) -> (r: Result<
    Vec<u8>,
    Error,
>)
    ensures
        match options_result(options) {
            Err(e) => r == Err::<Vec<u8>, Error>(e),
            Ok(()) => {
                &&& r matches Ok(v) ==> file_entries_result(entries@) is Ok && exists|
                    p: Seq<Seq<u8>>,
                |
                    #![trigger packed_ok(entries@, p)]
                    packed_ok(entries@, p) && v@ == main_header_bytes(
                        main_flags(false, options.features.solid, 0),
                        Seq::empty(),
                    ) + compressed_records(entries@, options.features.solid, p)
                &&& r matches Err(e) ==> e is InvalidHeader
                &&& match file_entries_result(entries@) {
                    Ok(()) => r is Ok,
                    Err(e) => r == Err::<Vec<u8>, Error>(e),
                }
            },
        },
{
    let r = write_compressed_archive_with_comment(entries, options, None);
    proof {
        if r is Ok {
            let x = choose|x: Seq<u8>, p: Seq<Seq<u8>>|
                header_extra_ok(None, x) && packed_ok(entries@, p) && r->Ok_0@ == main_header_bytes(
                    main_flags(false, options.features.solid, 0),
                    x,
                ) + compressed_records(entries@, options.features.solid, p);
            assert(x.0 =~= Seq::<u8>::empty());
            assert(packed_ok(entries@, x.1));
        }
    }
    r
}

/// Writes an archive of compressed entries with an optional archive comment.
/// With the solid feature the entries share one encoder state.
#[verifier::rlimit(40)]
#[verifier::spinoff_prover]
pub fn write_compressed_archive_with_comment(
    entries: &[FileEntry<'_>],
    options: WriterOptions,
    archive_comment: Option<&[u8]>,
) -> (r: Result<Vec<u8>, Error>)
    ensures
        match options_result(options) {
            Err(e) => r == Err::<Vec<u8>, Error>(e),
            Ok(()) => {
                &&& (archive_comment matches Some(c) ==> (c@.len() > 65535 ==> r == Err::<
                    Vec<u8>,
                    Error,
                >(Error::InvalidHeader("RAR 1.3 archive comment is longer than 65535 bytes"))))
                &&& r matches Ok(v) ==> file_entries_result(entries@) is Ok && exists|
                    x: Seq<u8>,
                    p: Seq<Seq<u8>>,
                |
                    #![trigger header_extra_ok(opt_view(archive_comment), x), packed_ok(entries@, p)]
                    header_extra_ok(opt_view(archive_comment), x) && packed_ok(entries@, p) && (
                    !options.features.solid ==> members_decode(entries@, p)) && v@
                        == main_header_bytes(
                        main_flags(archive_comment is Some, options.features.solid, 0),
                        x,
                    ) + compressed_records(entries@, options.features.solid, p)
                &&& r matches Err(e) ==> e is InvalidHeader
                &&& (archive_comment matches Some(c) ==> c@.len() <= 7280) ==> match file_entries_result(
                    entries@,
                ) {
                    Ok(()) => r is Ok,
                    Err(e) => r == Err::<Vec<u8>, Error>(e),
                }
            },
        },
{
    match check_compressed_options(options) {
        Ok(()) => {},
        Err(e) => {
            return Err(e);
        },
    }
    let mut out: Vec<u8> = Vec::new();
    match write_main_header(&mut out, options.features, archive_comment) {
        Ok(()) => {},
        Err(e) => {
            return Err(e);
        },
    }
    let ghost header = out@;
    let ghost x: Seq<u8> = if archive_comment is None {
        Seq::empty()
    } else {
        choose|x: Seq<u8>|
            comment_extra_ok(archive_comment->Some_0@, x) && 7 + x.len() <= 65535 && header
                == main_header_bytes(main_flags(true, options.features.solid, 0), x)
    };
    proof {
        assert(header_extra_ok(opt_view(archive_comment), x));
        assert(header == main_header_bytes(
            main_flags(archive_comment is Some, options.features.solid, 0),
            x,
        ));
    }
    let solid = options.features.solid;
    let mut encoder = Unpack15Encoder::new();
    let ghost mut packs: Seq<Seq<u8>> = Seq::empty();
    let mut i: usize = 0;
    while i < entries.len()
        invariant
            i <= entries@.len(),
            out@ == header + compressed_records(entries@.subrange(0, i as int), solid, packs),
            packed_ok(entries@.subrange(0, i as int), packs),
            !solid ==> members_decode(entries@.subrange(0, i as int), packs),
            file_entries_result(entries@.subrange(0, i as int)) is Ok,
            solid == options.features.solid,
            options_result(options) is Ok,
            encoder.wf(),
            header_extra_ok(opt_view(archive_comment), x),
            header == main_header_bytes(
                main_flags(archive_comment is Some, options.features.solid, 0),
                x,
            ),
            archive_comment matches Some(c) ==> c@.len() <= 65535,
        decreases entries@.len() - i,
    {
        let entry = &entries[i];
        proof {
            let s = entries@.subrange(0, i + 1);
            assert(s.drop_last() =~= entries@.subrange(0, i as int));
            assert(s.last() == *entry);
        }
        match validate_file_entry(entry.name, entry.data) {
            Ok(()) => {},
            Err(e) => {
                proof {
                    lemma_file_entries_prefix_err(entries@, (i + 1) as int);
                }
                return Err(e);
            },
        }
        let encoded = if solid {
            encoder.encode_member(entry.data)
        } else {
            unpack15_encode(entry.data)
        };
        let mut packed = match encoded {
            Ok(p) => p,
            Err(e) => {
                return Err(Error::from_codec(e));
            },
        };
        let ghost plain = packed@;
        assert(entry.data@.len() == 0 ==> plain.len() == 0);
        match entry.password {
            Some(password) => {
                let mut cipher = Rar13Cipher::new(password);
                cipher.encrypt_in_place(&mut packed);
            },
            None => {},
        }
        let password_bits: u8 = if entry.password.is_some() {
            LHD_PASSWORD
        } else {
            0u8
        };
        let comment_bits: u8 = if entry.file_comment.is_some() {
            LHD_COMMENT
        } else {
            0u8
        };
        let solid_bits: u8 = if solid {
            LHD_SOLID
        } else {
            0u8
        };
        let flags: u8 = password_bits | comment_bits | solid_bits;
        let file_extra = match encode_file_comment(entry.file_comment) {
            Ok(x) => x,
            Err(e) => {
                proof {
                    lemma_file_entries_prefix_err(entries@, (i + 1) as int);
                }
                return Err(e);
            },
        };
        let ghost before = out@;
        match write_file_entry(
            &mut out,
            entry.name,
            entry.data,
            packed.as_slice(),
            entry.file_time,
            entry.file_attr,
            flags,
            DEFAULT_UNP_VER,
            3,
            file_extra.as_slice(),
        ) {
            Ok(()) => {},
            Err(e) => {
                return Err(e);
            },
        }
        proof {
            assert(flags == entry_flags(entry.password is Some, entry.file_comment is Some, solid));
            assert(out@ == before + compressed_record(*entry, solid, plain));
            lemma_compressed_push(entries@, i as int, packs, plain, solid);
            let s = entries@.subrange(0, i + 1);
            assert(s.drop_last() =~= entries@.subrange(0, i as int));
            if !solid {
                let p = packs.push(plain);
                assert forall|j: int|
                    0 <= j < s.len() && no_repeats((#[trigger] s[j]).data@) && 72 * s[j].data@.len()
                        + 400 <= usize::MAX implies unpack15_spec(p[j], s[j].data@.len() as int)
                        == Some(Ok::<Seq<u8>, CodecError>(s[j].data@)) by {
                    if j < i {
                        assert(s[j] == entries@.subrange(0, i as int)[j]);
                    }
                }
            }
            packs = packs.push(plain);
        }
        i = i + 1;
    }
    proof {
        assert(entries@.subrange(0, entries@.len() as int) =~= entries@);
        assert(header_extra_ok(opt_view(archive_comment), x) && packed_ok(entries@, packs));
        assert(!solid ==> members_decode(entries@, packs));
    }
    Ok(out)
}


/// Appending one more compressed record and its packed form.
proof fn lemma_compressed_push(
    entries: Seq<FileEntry>,
    i: int,
    packs: Seq<Seq<u8>>,
    plain: Seq<u8>,
    solid: bool,
)
    requires
        0 <= i < entries.len(),
        packed_ok(entries.subrange(0, i), packs),
        entries[i].data@.len() == 0 ==> plain.len() == 0,
    ensures
        compressed_records(entries.subrange(0, i), solid, packs) + compressed_record(
            entries[i],
            solid,
            plain,
        ) == compressed_records(entries.subrange(0, i + 1), solid, packs.push(plain)),
        packed_ok(entries.subrange(0, i + 1), packs.push(plain)),
{
    let s = entries.subrange(0, i + 1);
    let p = packs.push(plain);
    assert(s.drop_last() =~= entries.subrange(0, i));
    assert(p.drop_last() =~= packs);
    assert forall|j: int| 0 <= j < s.len() implies (#[trigger] s[j]).data@.len() == 0
        ==> p[j].len() == 0 by {
        if j < i {
            assert(s[j] == entries.subrange(0, i)[j]);
        }
    }
}


/// `packed` cut into pieces of `max` bytes, the last one holding the rest.
pub open spec fn split_chunks(packed: Seq<u8>, max: nat) -> Seq<Seq<u8>>
    decreases packed.len(),
{
    if max == 0 || packed.len() <= max {
        seq![packed]
    } else {
        seq![packed.subrange(0, max as int)] + split_chunks(
            packed.subrange(max as int, packed.len() as int),
            max,
        )
    }
}

/// How a payload is cut into volumes, or why it cannot be.
pub open spec fn split_result(packed: Seq<u8>, max: nat) -> Result<Seq<Seq<u8>>, Error> {
    if max == 0 {
        Err(Error::InvalidHeader("RAR 1.3 volume payload size must be non-zero"))
    } else if packed.len() == 0 {
        Err(Error::InvalidHeader("RAR 1.3 volume writer needs a non-empty packed payload"))
    } else if packed.len() <= max {
        Err(Error::InvalidHeader("RAR 1.3 volume writer needs at least two volumes"))
    } else {
        Ok(split_chunks(packed, max))
    }
}

/// The file flags of volume `index` of `count`: continued from the previous
/// volume, continued in the next one, solid.
pub open spec fn split_flags(base: u8, index: int, count: int, solid: bool) -> u8 {
    base | (if index > 0 {
        LHD_SPLIT_BEFORE
    } else {
        0u8
    }) | (if index + 1 < count {
        LHD_SPLIT_AFTER
    } else {
        0u8
    }) | (if solid {
        LHD_SOLID
    } else {
        0u8
    })
}

/// The bytes of volume `index` of `count`, which carries `chunk`: a volume
/// main header and one file record. The checksum covers the chunk in every
/// volume but the last, which carries the checksum of the whole file.
pub open spec fn volume_bytes(
    name: Seq<u8>,
    unpacked: Seq<u8>,
    chunk: Seq<u8>,
    index: int,
    count: int,
    file_time: u32,
    file_attr: u8,
    method: u8,
    base: u8,
    solid: bool,
) -> Seq<u8> {
    main_header_bytes(main_flags(false, solid, MHD_VOLUME), Seq::empty()) + file_record_bytes(
        name,
        unpacked.len() as u32,
        checksum_of(
            if index + 1 < count {
                chunk
            } else {
                unpacked
            },
        ),
        chunk,
        file_time,
        file_attr,
        split_flags(base, index, count, solid),
        DEFAULT_UNP_VER,
        method,
        Seq::empty(),
    )
}

/// Cutting the rest of the payload from `start` on.
proof fn lemma_split_step(packed: Seq<u8>, max: nat, start: int)
    requires
        max > 0,
        0 <= start < packed.len(),
        packed.len() - start > max,
    ensures
        split_chunks(packed.subrange(start, packed.len() as int), max) == seq![
            packed.subrange(start, start + max),
        ] + split_chunks(packed.subrange(start + max, packed.len() as int), max),
{
    let rest = packed.subrange(start, packed.len() as int);
    assert(rest.subrange(0, max as int) =~= packed.subrange(start, start + max));
    assert(rest.subrange(max as int, rest.len() as int) =~= packed.subrange(
        start + max,
        packed.len() as int,
    ));
}

/// Writes one volume per chunk of `packed`.
pub fn write_split_volumes(
    name: &[u8],
    unpacked: &[u8],
    packed: &[u8],
    file_time: u32,
    file_attr: u8,
    method: u8,
    base_flags: u8,
    features: FeatureSet,
    max_packed_per_volume: usize,
) -> (r: Result<Vec<Vec<u8>>, Error>)
    requires
        21 + name@.len() <= usize::MAX,
    ensures
        match split_result(packed@, max_packed_per_volume as nat) {
            Err(e) => r == Err::<Vec<Vec<u8>>, Error>(e),
            Ok(chunks) => r matches Ok(vs) && vs@.len() == chunks.len() && forall|i: int|
                0 <= i < chunks.len() ==> (#[trigger] vs@[i])@ == volume_bytes(
                    name@,
                    unpacked@,
                    chunks[i],
                    i,
                    chunks.len() as int,
                    file_time,
                    file_attr,
                    method,
                    base_flags,
                    features.solid,
                ),
        },
{
    let max = max_packed_per_volume;
    if max == 0 {
        return Err(Error::InvalidHeader("RAR 1.3 volume payload size must be non-zero"));
    }
    if packed.len() == 0 {
        return Err(Error::InvalidHeader("RAR 1.3 volume writer needs a non-empty packed payload"));
    }
    if packed.len() <= max {
        return Err(Error::InvalidHeader("RAR 1.3 volume writer needs at least two volumes"));
    }
    let ghost chunks = split_chunks(packed@, max as nat);
    let total = packed.len();
    let mut starts: Vec<usize> = Vec::new();
    let mut ends: Vec<usize> = Vec::new();
    let mut start: usize = 0;
    proof {
        assert(packed@.subrange(0, total as int) =~= packed@);
    }
    while start < total
        invariant
            total == packed@.len(),
            max > 0,
            start <= total,
            starts@.len() == ends@.len(),
            forall|k: int|
                0 <= k < starts@.len() ==> #[trigger] starts@[k] <= ends@[k] && ends@[k] <= total,
            start < total ==> chunks == Seq::new(
                starts@.len(),
                |k: int| packed@.subrange(starts@[k] as int, ends@[k] as int),
            ) + split_chunks(packed@.subrange(start as int, total as int), max as nat),
            start == total ==> chunks == Seq::new(
                starts@.len(),
                |k: int| packed@.subrange(starts@[k] as int, ends@[k] as int),
            ),
        decreases total - start,
    {
        let ghost done = Seq::new(
            starts@.len(),
            |k: int| packed@.subrange(starts@[k] as int, ends@[k] as int),
        );
        let end = if total - start > max {
            start + max
        } else {
            total
        };
        proof {
            if total - start > max {
                lemma_split_step(packed@, max as nat, start as int);
            } else {
                assert(split_chunks(packed@.subrange(start as int, total as int), max as nat)
                    == seq![packed@.subrange(start as int, total as int)]);
            }
        }
        starts.push(start);
        ends.push(end);
        proof {
            let now = Seq::new(
                starts@.len(),
                |k: int| packed@.subrange(starts@[k] as int, ends@[k] as int),
            );
            assert(now =~= done.push(packed@.subrange(start as int, end as int)));
            if end < total {
                assert(done + (seq![packed@.subrange(start as int, end as int)] + split_chunks(
                    packed@.subrange(end as int, total as int),
                    max as nat,
                )) =~= now + split_chunks(packed@.subrange(end as int, total as int), max as nat));
            } else {
                assert(done + seq![packed@.subrange(start as int, end as int)] =~= now);
            }
        }
        start = end;
    }
    let count = starts.len();
    let mut volumes: Vec<Vec<u8>> = Vec::new();
    let mut index: usize = 0;
    while index < count
        invariant
            count == starts@.len(),
            count == ends@.len(),
            count == chunks.len(),
            21 + name@.len() <= usize::MAX,
            total == packed@.len(),
            index <= count,
            forall|k: int|
                0 <= k < starts@.len() ==> #[trigger] starts@[k] <= ends@[k] && ends@[k] <= total,
            forall|k: int|
                0 <= k < count ==> #[trigger] chunks[k] == packed@.subrange(
                    starts@[k] as int,
                    ends@[k] as int,
                ),
            volumes@.len() == index,
            forall|i: int|
                0 <= i < index ==> (#[trigger] volumes@[i])@ == volume_bytes(
                    name@,
                    unpacked@,
                    chunks[i],
                    i,
                    count as int,
                    file_time,
                    file_attr,
                    method,
                    base_flags,
                    features.solid,
                ),
        decreases count - index,
    {
        let chunk = sub_slice(packed, starts[index], ends[index]);
        let split_before: u8 = if index > 0 {
            LHD_SPLIT_BEFORE
        } else {
            0u8
        };
        let split_after = index + 1 < count;
        let after_bits: u8 = if split_after {
            LHD_SPLIT_AFTER
        } else {
            0u8
        };
        let solid_bits: u8 = if features.solid {
            LHD_SOLID
        } else {
            0u8
        };
        let flags: u8 = base_flags | split_before | after_bits | solid_bits;
        let mut out: Vec<u8> = Vec::new();
        match write_main_header_with_flags(&mut out, features, None, MHD_VOLUME) {
            Ok(()) => {},
            Err(e) => {
                return Err(e);
            },
        }
        let checksum_data = if split_after {
            chunk
        } else {
            unpacked
        };
        let no_extra: Vec<u8> = Vec::new();
        match write_file_entry_with_crc(
            &mut out,
            name,
            unpacked.len() as u32,
            file_checksum(checksum_data),
            chunk,
            file_time,
            file_attr,
            flags,
            DEFAULT_UNP_VER,
            method,
            no_extra.as_slice(),
        ) {
            Ok(()) => {},
            Err(e) => {
                return Err(e);
            },
        }
        proof {
            assert(no_extra@ =~= Seq::<u8>::empty());
            assert(Seq::<u8>::empty() + main_header_bytes(
                main_flags(false, features.solid, MHD_VOLUME),
                Seq::empty(),
            ) =~= main_header_bytes(main_flags(false, features.solid, MHD_VOLUME), Seq::empty()));
        }
        volumes.push(out);
        index = index + 1;
    }
    Ok(volumes)
}

/// What checking the input of a volume writer gives: the file's name and
/// size, then the features that split archives do not carry.
pub open spec fn volume_inputs_result(
    name: Seq<u8>,
    data: Seq<u8>,
    password: bool,
    file_comment: bool,
    options: WriterOptions,
) -> Result<(), Error> {
    match file_entry_result(name, data) {
        Err(e) => Err(e),
        Ok(()) => if password {
            Err(Error::UnsupportedFeature { version: options.target, feature: "volume_password" })
        } else if file_comment || options.features.file_comment {
            Err(
                Error::UnsupportedFeature {
                    version: options.target,
                    feature: "volume_file_comment",
                },
            )
        } else if options.features.archive_comment {
            Err(
                Error::UnsupportedFeature {
                    version: options.target,
                    feature: "volume_archive_comment",
                },
            )
        } else {
            Ok(())
        },
    }
}

/// Checks the input of a volume writer.
pub fn validate_volume_writer_inputs(
    name: &[u8],
    data: &[u8],
    password: Option<&[u8]>,
    file_comment: Option<&[u8]>,
    options: WriterOptions,
) -> (r: Result<(), Error>)
    ensures
        r == volume_inputs_result(
            name@,
            data@,
            password is Some,
            file_comment is Some,
            options,
        ),
{
    match validate_file_entry(name, data) {
        Ok(()) => {},
        Err(e) => {
            return Err(e);
        },
    }
    if password.is_some() {
        return Err(
            Error::UnsupportedFeature { version: options.target, feature: "volume_password" },
        );
    }
    if file_comment.is_some() || options.features.file_comment {
        return Err(
            Error::UnsupportedFeature { version: options.target, feature: "volume_file_comment" },
        );
    }
    if options.features.archive_comment {
        return Err(
            Error::UnsupportedFeature { version: options.target, feature: "volume_archive_comment" },
        );
    }
    Ok(())
}

/// Writes a stored file split over volumes of at most
/// `max_packed_per_volume` data bytes each.
pub fn write_stored_volumes(
    entry: StoredEntry<'_>,
    options: WriterOptions,
    max_packed_per_volume: usize,
) -> (r: Result<Vec<Vec<u8>>, Error>)
    ensures
        match options_result(options) {
            Err(e) => r == Err::<Vec<Vec<u8>>, Error>(e),
            Ok(()) => match volume_inputs_result(
                entry.name@,
                entry.data@,
                entry.password is Some,
                entry.file_comment is Some,
                options,
            ) {
                Err(e) => r == Err::<Vec<Vec<u8>>, Error>(e),
                Ok(()) => match split_result(entry.data@, max_packed_per_volume as nat) {
                    Err(e) => r == Err::<Vec<Vec<u8>>, Error>(e),
                    Ok(chunks) => r matches Ok(vs) && vs@.len() == chunks.len() && forall|i: int|
                        0 <= i < chunks.len() ==> (#[trigger] vs@[i])@ == volume_bytes(
                            entry.name@,
                            entry.data@,
                            chunks[i],
                            i,
                            chunks.len() as int,
                            entry.file_time,
                            entry.file_attr,
                            METHOD_STORE,
                            0,
                            options.features.solid,
                        ),
                },
            },
        },
{
    match check_options(options) {
        Ok(()) => {},
        Err(e) => {
            return Err(e);
        },
    }
    match validate_volume_writer_inputs(
        entry.name,
        entry.data,
        entry.password,
        entry.file_comment,
        options,
    ) {
        Ok(()) => {},
        Err(e) => {
            return Err(e);
        },
    }
    let body = copy_bytes(entry.data);
    write_split_volumes(
        entry.name,
        entry.data,
        body.as_slice(),
        entry.file_time,
        entry.file_attr,
        METHOD_STORE,
        0,
        options.features,
        max_packed_per_volume,
    )
}

/// Writes a compressed file split over volumes of at most
/// `max_packed_per_volume` packed bytes each.
pub fn write_compressed_volumes(
    entry: FileEntry<'_>,
    options: WriterOptions,
    max_packed_per_volume: usize,
) -> (r: Result<Vec<Vec<u8>>, Error>)
    ensures
        match options_result(options) {
            Err(e) => r == Err::<Vec<Vec<u8>>, Error>(e),
            Ok(()) => match volume_inputs_result(
                entry.name@,
                entry.data@,
                entry.password is Some,
                entry.file_comment is Some,
                options,
            ) {
                Err(e) => r == Err::<Vec<Vec<u8>>, Error>(e),
                Ok(()) => {
                    &&& entry.data@.len() == 0 ==> (r matches Err(e) && split_result(
                        Seq::<u8>::empty(),
                        max_packed_per_volume as nat,
                    ) == Err::<Seq<Seq<u8>>, Error>(e))
                    &&& r matches Ok(vs) ==> exists|p: Seq<u8>|
                        #![trigger split_result(p, max_packed_per_volume as nat)]
                        split_result(p, max_packed_per_volume as nat) matches Ok(chunks)
                            && vs@.len() == chunks.len() && forall|i: int|
                            0 <= i < chunks.len() ==> (#[trigger] vs@[i])@ == volume_bytes(
                                entry.name@,
                                entry.data@,
                                chunks[i],
                                i,
                                chunks.len() as int,
                                entry.file_time,
                                entry.file_attr,
                                3,
                                0,
                                options.features.solid,
                            )
                    &&& r matches Err(e) ==> e is InvalidHeader
                    &&& entry.data@.len() > 0 && max_packed_per_volume > 0 ==> (r is Ok || r
                        == Err::<Vec<Vec<u8>>, Error>(
                        Error::InvalidHeader("RAR 1.3 volume writer needs at least two volumes"),
                    ))
                    &&& exists|p: Seq<u8>|
                        #![trigger split_result(p, max_packed_per_volume as nat)]
                        p.len() <= 9 * entry.data@.len() && (entry.data@.len() > 0 ==> p.len()
                            > 0) && match split_result(p, max_packed_per_volume as nat) {
                            Err(e) => r == Err::<Vec<Vec<u8>>, Error>(e),
                            Ok(chunks) => r matches Ok(vs) && vs@.len() == chunks.len()
                                && forall|i: int|
                                0 <= i < chunks.len() ==> (#[trigger] vs@[i])@ == volume_bytes(
                                    entry.name@,
                                    entry.data@,
                                    chunks[i],
                                    i,
                                    chunks.len() as int,
                                    entry.file_time,
                                    entry.file_attr,
                                    3,
                                    0,
                                    options.features.solid,
                                ),
                        }
                },
            },
        },
{
    match check_compressed_options(options) {
        Ok(()) => {},
        Err(e) => {
            return Err(e);
        },
    }
    match validate_volume_writer_inputs(
        entry.name,
        entry.data,
        entry.password,
        entry.file_comment,
        options,
    ) {
        Ok(()) => {},
        Err(e) => {
            return Err(e);
        },
    }
    let packed = match unpack15_encode(entry.data) {
        Ok(p) => p,
        Err(e) => {
            return Err(Error::from_codec(e));
        },
    };
    let r = write_split_volumes(
        entry.name,
        entry.data,
        packed.as_slice(),
        entry.file_time,
        entry.file_attr,
        3,
        0,
        options.features,
        max_packed_per_volume,
    );
    proof {
        if entry.data@.len() == 0 {
            assert(packed@ =~= Seq::<u8>::empty());
        }
        assert(split_result(packed@, max_packed_per_volume as nat) == split_result(
            packed@,
            max_packed_per_volume as nat,
        ));
    }
    r
}

} // verus!
