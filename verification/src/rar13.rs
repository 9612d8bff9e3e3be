use vstd::prelude::*;

use crate::bytes::{copy_bytes, copy_range, le16, le32, sub_slice};
use crate::detect::{find_archive_start, first_signature, scan_from, signature_at};
use crate::error::Error;

pub use crate::checksum::file_checksum;
pub use crate::volumes::{extract_stored_volumes, extract_volumes, extract_volumes_to};
pub use crate::writer::{
    write_compressed_archive, write_compressed_archive_with_comment, write_compressed_volumes,
    write_stored_archive, write_stored_archive_with_comment, write_stored_volumes, FileEntry,
    StoredEntry, WriterOptions,
};

verus! {

pub const MAIN_HEAD_SIZE: u16 = 7;

pub const FILE_HEAD_BASE_SIZE: usize = 21;

pub const MHD_VOLUME: u8 = 0x01;

pub const MHD_COMMENT: u8 = 0x02;

pub const MHD_SOLID: u8 = 0x08;

pub const MHD_PACK_COMMENT: u8 = 0x10;

pub const MHD_AV: u8 = 0x20;

pub const MHD_ALWAYS_SET: u8 = 0x80;

pub const LHD_SPLIT_BEFORE: u8 = 0x01;

pub const LHD_SPLIT_AFTER: u8 = 0x02;

pub const LHD_PASSWORD: u8 = 0x04;

pub const LHD_COMMENT: u8 = 0x08;

pub const LHD_SOLID: u8 = 0x10;

pub const METHOD_STORE: u8 = 0;

pub const DEFAULT_UNP_VER: u8 = 2;

/// How far into the input the archive signature is searched for.
pub const SFX_SCAN_LIMIT: usize = 131072;

/// The archive's main header.
#[derive(Debug, Clone, PartialEq, Eq)]
pub struct MainHeader {
    pub flags: u8,
    pub head_size: u16,
    pub extra: Vec<u8>,
}

/// The fixed fields of a file header.
#[derive(Debug, Clone, Copy, PartialEq, Eq, Structural)]
pub struct FileHeader {
    pub flags: u8,
    pub pack_size: u32,
    pub unp_size: u32,
    pub file_crc: u16,
    pub file_time: u32,
    pub file_attr: u8,
    pub unp_ver: u8,
    pub method: u8,
    pub head_size: u16,
}

/// A file entry: its header, name, header extension and where its packed data
/// lies in the archive input.
#[derive(Debug, PartialEq, Eq)]
pub struct Entry {
    pub header: FileHeader,
    pub name: Vec<u8>,
    pub extra: Vec<u8>,
    pub packed_range: std::ops::Range<usize>,
}

/// An entry as plain values.
pub struct EntryView {
    pub header: FileHeader,
    pub name: Seq<u8>,
    pub extra: Seq<u8>,
    pub start: int,
    pub end: int,
}

impl View for Entry {
    type V = EntryView;

    open spec fn view(&self) -> EntryView {
        EntryView {
            header: self.header,
            name: self.name@,
            extra: self.extra@,
            start: self.packed_range.start as int,
            end: self.packed_range.end as int,
        }
    }
}

/// A parsed archive and the input it was parsed from.
#[derive(Debug)]
pub struct Archive {
    pub sfx_offset: usize,
    pub main: MainHeader,
    pub entries: Vec<Entry>,
    pub source: ArchiveSource,
}

/// Where an archive's bytes come from.
#[derive(Debug)]
pub enum ArchiveSource {
    /// The whole input, held in memory.
    Memory(Vec<u8>),
}

/// The authenticity verification block of the main header.
#[derive(Debug, Clone, PartialEq, Eq)]
pub struct AuthenticityVerification {
    pub size: u16,
    pub prefix: [u8; 6],
    pub cipher_body: Vec<u8>,
}

/// What a structural check of the authenticity verification block found.
#[derive(Debug, Clone, Copy, PartialEq, Eq, Structural)]
pub enum AuthenticityVerificationStatus {
    Absent,
    StructurallyValid,
}

/// An extracted file or directory.
#[derive(Debug, Clone, PartialEq, Eq)]
pub struct ExtractedEntry {
    pub name: Vec<u8>,
    pub data: Vec<u8>,
    pub file_time: u32,
    pub file_attr: u8,
    pub is_directory: bool,
}

/// What is known of an entry before its data is extracted.
#[derive(Debug, Clone, PartialEq, Eq)]
pub struct ExtractedEntryMeta {
    pub name: Vec<u8>,
    pub file_time: u32,
    pub file_attr: u8,
    pub is_directory: bool,
}

/// The little-endian 16-bit field at `off`.
pub open spec fn field16(s: Seq<u8>, off: int) -> u16 {
    le16(s[off], s[off + 1])
}

/// The little-endian 32-bit field at `off`.
pub open spec fn field32(s: Seq<u8>, off: int) -> u32 {
    le32(s[off], s[off + 1], s[off + 2], s[off + 3])
}

/// Reads the little-endian 16-bit field at `offset`.
pub fn read_u16(input: &[u8], offset: usize) -> (r: Result<u16, Error>)
    ensures
        r is Ok <==> offset + 2 <= input@.len(),
        r matches Ok(v) ==> v == field16(input@, offset as int),
        r is Err ==> r == Err::<u16, Error>(Error::TooShort),
{
    if offset > input.len() || input.len() - offset < 2 {
        return Err(Error::TooShort);
    }
    Ok((input[offset] as u16 + 256 * input[offset + 1] as u16) as u16)
}

/// Reads the little-endian 32-bit field at `offset`.
pub fn read_u32(input: &[u8], offset: usize) -> (r: Result<u32, Error>)
    ensures
        r is Ok <==> offset + 4 <= input@.len(),
        r matches Ok(v) ==> v == field32(input@, offset as int),
        r is Err ==> r == Err::<u32, Error>(Error::TooShort),
{
    if offset > input.len() || input.len() - offset < 4 {
        return Err(Error::TooShort);
    }
    Ok((input[offset] as u32 + 256 * input[offset + 1] as u32 + 65536 * input[offset + 2] as u32
        + 16777216 * input[offset + 3] as u32) as u32)
}

/// What parsing a main header from `s` gives: flags, header size and the
/// header extension, or the error.
pub open spec fn main_header_result(s: Seq<u8>) -> Result<(u8, u16, Seq<u8>), Error> {
    if s.len() < 7 {
        Err(Error::TooShort)
    } else if !signature_at(s, 0) {
        Err(Error::UnsupportedSignature)
    } else if field16(s, 4) < 7 {
        Err(Error::InvalidHeader("RAR 1.3 main header is shorter than 7 bytes"))
    } else if field16(s, 4) > s.len() {
        Err(Error::TooShort)
    } else {
        Ok((s[6], field16(s, 4), s.subrange(7, field16(s, 4) as int)))
    }
}

/// What parsing a file header from `s` gives: the header, the name, the header
/// extension and the header size, or the error.
pub open spec fn file_header_result(s: Seq<u8>) -> Result<(FileHeader, Seq<u8>, Seq<u8>), Error> {
    if s.len() < 21 {
        Err(Error::TooShort)
    } else {
        let head_size = field16(s, 10);
        let name_size = s[19] as int;
        if (head_size as int) < 21 + name_size {
            Err(Error::InvalidHeader("RAR 1.3 file header is shorter than its name"))
        } else if s.len() < head_size {
            Err(Error::TooShort)
        } else {
            Ok(
                (
                    FileHeader {
                        flags: s[17],
                        pack_size: field32(s, 0),
                        unp_size: field32(s, 4),
                        file_crc: field16(s, 8),
                        file_time: field32(s, 12),
                        file_attr: s[16],
                        unp_ver: s[18],
                        method: s[20],
                        head_size,
                    },
                    s.subrange(21, 21 + name_size),
                    s.subrange(21 + name_size, head_size as int),
                ),
            )
        }
    }
}

/// The entries of the archive body `a` from position `pos` on; `base` is the
/// offset of the archive in the input, added to the data ranges.
pub open spec fn entries_result(a: Seq<u8>, pos: int, base: int) -> Result<Seq<EntryView>, Error>
    decreases a.len() - pos,
{
    if pos < 0 || pos >= a.len() || a.len() - pos < 21 {
        Ok(Seq::empty())
    } else {
        match file_header_result(a.subrange(pos, a.len() as int)) {
            Err(e) => Err(e),
            Ok((header, name, extra)) => {
                let data_start = pos + header.head_size;
                let data_end = data_start + header.pack_size;
                if data_end > usize::MAX {
                    Err(Error::InvalidHeader("RAR 1.3 file data size overflows usize"))
                } else if data_end > a.len() {
                    Err(Error::TooShort)
                } else {
                    match entries_result(a, data_end, base) {
                        Err(e) => Err(e),
                        Ok(rest) => Ok(
                            seq![
                                EntryView {
                                    header,
                                    name,
                                    extra,
                                    start: base + data_start,
                                    end: base + data_end,
                                },
                            ] + rest,
                        ),
                    }
                }
            },
        }
    }
}

/// An archive as plain values.
pub struct ArchiveView {
    pub sfx_offset: int,
    pub flags: u8,
    pub head_size: u16,
    pub extra: Seq<u8>,
    pub entries: Seq<EntryView>,
    pub data: Seq<u8>,
}

/// What parsing `input` gives: the archive found at the first signature within
/// the scan limit, or the error.
pub open spec fn archive_result(input: Seq<u8>) -> Result<ArchiveView, Error> {
    match first_signature(input, SFX_SCAN_LIMIT as int) {
        None => Err(Error::UnsupportedSignature),
        Some(offset) => {
            let a = input.subrange(offset, input.len() as int);
            match main_header_result(a) {
                Err(e) => Err(e),
                Ok((flags, head_size, extra)) => match entries_result(a, head_size as int, offset) {
                    Err(e) => Err(e),
                    Ok(entries) => Ok(
                        ArchiveView {
                            sfx_offset: offset,
                            flags,
                            head_size,
                            extra,
                            entries,
                            data: input,
                        },
                    ),
                },
            }
        },
    }
}

/// Entries with their data ranges moved by `k` bytes.
pub open spec fn shift_entries(es: Seq<EntryView>, k: int) -> Seq<EntryView> {
    es.map_values(|e: EntryView| EntryView { start: e.start + k, end: e.end + k, ..e })
}

/// The entries of an archive body at offset `base` are those at offset 0
/// with their data ranges moved by `base`.
proof fn lemma_entries_base(a: Seq<u8>, pos: int, base: int)
    ensures
        entries_result(a, pos, base) == match entries_result(a, pos, 0) {
            Ok(es) => Ok(shift_entries(es, base)),
            Err(e) => Err(e),
        },
    decreases a.len() - pos,
{
    if pos < 0 || pos >= a.len() || a.len() - pos < 21 {
        assert(shift_entries(Seq::empty(), base) =~= Seq::<EntryView>::empty());
    } else {
        match file_header_result(a.subrange(pos, a.len() as int)) {
            Err(_) => {},
            Ok((header, name, extra)) => {
                let data_end = pos + header.head_size + header.pack_size;
                if data_end <= usize::MAX && data_end <= a.len() {
                    lemma_entries_base(a, data_end, base);
                    match entries_result(a, data_end, 0) {
                        Ok(rest) => {
                            let e0 = EntryView {
                                header,
                                name,
                                extra,
                                start: pos + header.head_size,
                                end: data_end,
                            };
                            assert(shift_entries(seq![e0] + rest, base) =~= seq![
                                EntryView { start: e0.start + base, end: e0.end + base, ..e0 },
                            ] + shift_entries(rest, base));
                        },
                        Err(_) => {},
                    }
                }
            },
        }
    }
}

/// Parsed data ranges lie in the body after `pos`, each before the next.
proof fn lemma_entries_ranges(a: Seq<u8>, pos: int, base: int)
    requires
        0 <= pos,
    ensures
        entries_result(a, pos, base) matches Ok(es) ==> {
            &&& forall|i: int|
                0 <= i < es.len() ==> base + pos <= (#[trigger] es[i]).start <= es[i].end <= base
                    + a.len()
            &&& forall|i: int, j: int|
                0 <= i < j < es.len() ==> (#[trigger] es[i]).end <= (#[trigger] es[j]).start
        },
    decreases a.len() - pos,
{
    if pos < 0 || pos >= a.len() || a.len() - pos < 21 {
    } else {
        match file_header_result(a.subrange(pos, a.len() as int)) {
            Err(_) => {},
            Ok((header, name, extra)) => {
                let data_end = pos + header.head_size + header.pack_size;
                if data_end <= usize::MAX && data_end <= a.len() {
                    lemma_entries_ranges(a, data_end, base);
                }
            },
        }
    }
}

/// The data ranges of a parsed archive lie within its input, in order and
/// without overlap.
pub proof fn lemma_parsed_ranges(input: Seq<u8>)
    ensures
        archive_result(input) matches Ok(v) ==> {
            &&& forall|i: int|
                0 <= i < v.entries.len() ==> 0 <= (#[trigger] v.entries[i]).start
                    <= v.entries[i].end <= input.len()
            &&& forall|i: int, j: int|
                0 <= i < j < v.entries.len() ==> (#[trigger] v.entries[i]).end
                    <= (#[trigger] v.entries[j]).start
        },
{
    match first_signature(input, SFX_SCAN_LIMIT as int) {
        None => {},
        Some(offset) => {
            lemma_first_signature_range(input);
            let a = input.subrange(offset, input.len() as int);
            match main_header_result(a) {
                Err(_) => {},
                Ok((flags, head_size, extra)) => {
                    lemma_entries_ranges(a, head_size as int, offset);
                },
            }
        },
    }
}

/// The first signature lies within the input.
proof fn lemma_first_signature_range(input: Seq<u8>)
    ensures
        first_signature(input, SFX_SCAN_LIMIT as int) matches Some(o) ==> 0 <= o < input.len()
            && signature_at(input, o),
{
    lemma_scan_from_range(input, 0, SFX_SCAN_LIMIT as int);
}

proof fn lemma_scan_from_range(input: Seq<u8>, o: int, max_scan: int)
    ensures
        scan_from(input, o, max_scan) matches Some(k) ==> o <= k < input.len() && signature_at(
            input,
            k,
        ) && forall|p: int| o <= p < k ==> !signature_at(input, p),
    decreases input.len() - o,
{
    if o < 0 || o >= max_scan || o >= input.len() {
    } else if signature_at(input, o) {
    } else {
        lemma_scan_from_range(input, o + 1, max_scan);
    }
}

/// The scan finds the first signature at `k` when none comes before it.
proof fn lemma_scan_finds(input: Seq<u8>, o: int, k: int, max_scan: int)
    requires
        0 <= o <= k < max_scan,
        signature_at(input, k),
        forall|p: int| o <= p < k ==> !signature_at(input, p),
    ensures
        scan_from(input, o, max_scan) == Some(k),
    decreases k - o,
{
    if o < k {
        assert(!signature_at(input, o));
        lemma_scan_finds(input, o + 1, k, max_scan);
    }
}

/// An archive behind a self-extracting stub that holds no signature parses
/// as the archive alone, found at the stub's length, with its data ranges
/// moved by that length.
pub proof fn lemma_parse_behind_stub(stub: Seq<u8>, archive: Seq<u8>)
    requires
        stub.len() < SFX_SCAN_LIMIT,
        signature_at(archive, 0),
        forall|p: int| 0 <= p < stub.len() ==> !signature_at(stub + archive, p),
    ensures
        match (archive_result(stub + archive), archive_result(archive)) {
            (Ok(v), Ok(w)) => {
                &&& v.sfx_offset == stub.len()
                &&& w.sfx_offset == 0
                &&& v.flags == w.flags
                &&& v.head_size == w.head_size
                &&& v.extra == w.extra
                &&& v.entries == shift_entries(w.entries, stub.len() as int)
            },
            (Err(e), Err(f)) => e == f,
            _ => false,
        },
{
    let input = stub + archive;
    let k = stub.len() as int;
    assert(input.subrange(k, k + 4) =~= archive.subrange(0, 4));
    lemma_scan_finds(input, 0, k, SFX_SCAN_LIMIT as int);
    lemma_scan_finds(archive, 0, 0, SFX_SCAN_LIMIT as int);
    assert(input.subrange(k, input.len() as int) =~= archive);
    assert(archive.subrange(0, archive.len() as int) =~= archive);
    match main_header_result(archive) {
        Err(_) => {},
        Ok((flags, head_size, extra)) => {
            lemma_entries_base(archive, head_size as int, k);
            lemma_entries_base(archive, head_size as int, 0);
            match entries_result(archive, head_size as int, 0) {
                Ok(es) => {
                    assert(shift_entries(es, 0) =~= es);
                },
                Err(_) => {},
            }
        },
    }
}

/// Prepends the entries already parsed to the result for the rest.
pub open spec fn prepend_entries(
    done: Seq<EntryView>,
    rest: Result<Seq<EntryView>, Error>,
) -> Result<Seq<EntryView>, Error> {
    match rest {
        Ok(r) => Ok(done + r),
        Err(e) => Err(e),
    }
}

impl MainHeader {
    pub fn is_volume(&self) -> (b: bool)
        ensures
            b == (self.flags & MHD_VOLUME != 0),
    {
        self.flags & MHD_VOLUME != 0
    }

    pub fn has_archive_comment(&self) -> (b: bool)
        ensures
            b == (self.flags & MHD_COMMENT != 0),
    {
        self.flags & MHD_COMMENT != 0
    }

    pub fn has_packed_comment(&self) -> (b: bool)
        ensures
            b == (self.flags & MHD_PACK_COMMENT != 0),
    {
        self.flags & MHD_PACK_COMMENT != 0
    }

    pub fn is_solid(&self) -> (b: bool)
        ensures
            b == (self.flags & MHD_SOLID != 0),
    {
        self.flags & MHD_SOLID != 0
    }

    pub fn has_authenticity_verification(&self) -> (b: bool)
        ensures
            b == (self.flags & MHD_AV != 0),
    {
        self.flags & MHD_AV != 0
    }

    /// Parses the main header at the start of `input`.
    pub fn parse(input: &[u8]) -> (r: Result<MainHeader, Error>)
        ensures
            match main_header_result(input@) {
                Ok((flags, head_size, extra)) => r matches Ok(h) && h.flags == flags
                    && h.head_size == head_size && h.extra@ == extra,
                Err(e) => r == Err::<MainHeader, Error>(e),
            },
    {
        if input.len() < 7 {
            return Err(Error::TooShort);
        }
        if !crate::detect::has_signature_at(input, 0) {
            return Err(Error::UnsupportedSignature);
        }
        let head_size = read_u16(input, 4)?;
        let flags = input[6];
        if head_size < MAIN_HEAD_SIZE {
            return Err(Error::InvalidHeader("RAR 1.3 main header is shorter than 7 bytes"));
        }
        if head_size as usize > input.len() {
            return Err(Error::TooShort);
        }
        let extra = copy_range(input, 7, head_size as usize);
        Ok(MainHeader { flags, head_size, extra })
    }
}

impl FileHeader {
    /// Parses a file header at the start of `input`: the header, the name, the
    /// header extension and the number of header bytes.
    pub fn parse(input: &[u8]) -> (r: Result<(FileHeader, Vec<u8>, Vec<u8>, usize), Error>)
        ensures
            match file_header_result(input@) {
                Ok((header, name, extra)) => r matches Ok(t) && t.0 == header && t.1@ == name
                    && t.2@ == extra && t.3 == header.head_size,
                Err(e) => r == Err::<(FileHeader, Vec<u8>, Vec<u8>, usize), Error>(e),
            },
    {
        if input.len() < FILE_HEAD_BASE_SIZE {
            return Err(Error::TooShort);
        }
        let pack_size = read_u32(input, 0)?;
        let unp_size = read_u32(input, 4)?;
        let file_crc = read_u16(input, 8)?;
        let head_size = read_u16(input, 10)?;
        let file_time = read_u32(input, 12)?;
        let file_attr = input[16];
        let flags = input[17];
        let unp_ver = input[18];
        let name_size = input[19] as usize;
        let method = input[20];
        let minimum_size = FILE_HEAD_BASE_SIZE + name_size;
        if (head_size as usize) < minimum_size {
            return Err(Error::InvalidHeader("RAR 1.3 file header is shorter than its name"));
        }
        if input.len() < head_size as usize {
            return Err(Error::TooShort);
        }
        let name = copy_range(input, FILE_HEAD_BASE_SIZE, minimum_size);
        let extra = copy_range(input, minimum_size, head_size as usize);
        Ok(
            (
                FileHeader {
                    flags,
                    pack_size,
                    unp_size,
                    file_crc,
                    file_time,
                    file_attr,
                    unp_ver,
                    method,
                    head_size,
                },
                name,
                extra,
                head_size as usize,
            ),
        )
    }
}

/// The plain-value view of a list of entries.
pub open spec fn entries_view(entries: Seq<Entry>) -> Seq<EntryView> {
    entries.map_values(|e: Entry| e@)
}

impl Archive {
    /// The input the archive was parsed from.
    pub open spec fn input(&self) -> Seq<u8> {
        match self.source {
            ArchiveSource::Memory(d) => d@,
        }
    }

    /// The archive holds exactly the values of `v`.
    pub open spec fn has_view(&self, v: ArchiveView) -> bool {
        &&& self.sfx_offset == v.sfx_offset
        &&& self.main.flags == v.flags
        &&& self.main.head_size == v.head_size
        &&& self.main.extra@ == v.extra
        &&& entries_view(self.entries@) == v.entries
        &&& self.input() == v.data
    }

    /// Parses an archive held in memory, skipping a self-extracting stub of
    /// up to 128 KiB in front of it.
    pub fn parse(input: &[u8]) -> (r: Result<Archive, Error>)
        ensures
            match archive_result(input@) {
                Ok(v) => r matches Ok(a) && a.has_view(v),
                Err(e) => r matches Err(x) && x == e,
            },
    {
        let sig = find_archive_start(input, SFX_SCAN_LIMIT);
        let offset = match sig {
            None => {
                return Err(Error::UnsupportedSignature);
            },
            Some(s) => s.offset,
        };
        let archive = sub_slice(input, offset, input.len());
        let ghost a = archive@;
        let main = match MainHeader::parse(archive) {
            Ok(m) => m,
            Err(e) => {
                return Err(e);
            },
        };
        let mut pos: usize = main.head_size as usize;
        let mut entries: Vec<Entry> = Vec::new();
        proof {
            assert(entries_view(entries@) =~= Seq::<EntryView>::empty());
            assert(Seq::<EntryView>::empty() + entries_result(a, pos as int, offset as int)->Ok_0
                =~= entries_result(a, pos as int, offset as int)->Ok_0);
        }
        while pos < archive.len()
            invariant
                archive@ == a,
                a == input@.subrange(offset as int, input@.len() as int),
                first_signature(input@, SFX_SCAN_LIMIT as int) == Some(offset as int),
                main_header_result(a) == Ok::<(u8, u16, Seq<u8>), Error>(
                    (main.flags, main.head_size, main.extra@),
                ),
                offset <= input@.len(),
                pos <= a.len(),
                entries_result(a, main.head_size as int, offset as int) == prepend_entries(
                    entries_view(entries@),
                    entries_result(a, pos as int, offset as int),
                ),
                forall|i: int|
                    0 <= i < entries@.len() ==> (#[trigger] entries@[i]).packed_range.end
                        <= input@.len(),
            ensures
                archive@ == a,
                entries_result(a, main.head_size as int, offset as int) == prepend_entries(
                    entries_view(entries@),
                    entries_result(a, pos as int, offset as int),
                ),
                pos >= a.len() || a.len() - pos < 21,
            decreases a.len() - pos,
        {
            if archive.len() - pos < FILE_HEAD_BASE_SIZE {
                break ;
            }
            let rest = sub_slice(archive, pos, archive.len());
            let (header, name, extra, consumed) = match FileHeader::parse(rest) {
                Ok(t) => t,
                Err(e) => {
                    proof {
                        assert(file_header_result(a.subrange(pos as int, a.len() as int)) is Err);
                        assert(entries_result(a, pos as int, offset as int) == Err::<Seq<EntryView>, Error>(e));
                        assert(entries_result(a, main.head_size as int, offset as int) == Err::<Seq<EntryView>, Error>(e));

                    }
                    return Err(e);
                },
            };
            let data_start = pos + consumed;
            let data_end = match data_start.checked_add(header.pack_size as usize) {
                Some(e) => e,
                None => {
                    return Err(Error::InvalidHeader("RAR 1.3 file data size overflows usize"));
                },
            };
            if data_end > archive.len() {
                return Err(Error::TooShort);
            }
            let total = input.len();
            assert(a.len() == total - offset);
            assert(offset + data_end <= total);
            let ghost done = entries_view(entries@);
            let entry = Entry {
                header,
                name,
                extra,
                packed_range: std::ops::Range { start: offset + data_start, end: offset + data_end },
            };
            entries.push(entry);
            proof {
                let ev = entry@;
                assert(entries_view(entries@) =~= done.push(ev));
                match entries_result(a, data_end as int, offset as int) {
                    Ok(r) => {
                        assert(done.push(ev) + r =~= done + (seq![ev] + r));
                    },
                    Err(_) => {},
                }
            }
            pos = data_end;
        }
        proof {
            assert(entries_view(entries@) + Seq::<EntryView>::empty() =~= entries_view(entries@));
        }
        let data = copy_bytes(input);
        Ok(Archive { sfx_offset: offset, main, entries, source: ArchiveSource::Memory(data) })
    }
}

} // verus!
