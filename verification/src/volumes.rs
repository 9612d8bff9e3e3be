use vstd::prelude::*;

use crate::bytes::{append_bytes, copy_range};
use crate::checksum::checksum_of;
use crate::codec::Unpack15;
use crate::entry::{
    checksum_result, decrypted_result, is_directory_spec, is_encrypted_spec, is_stored_spec, password_view,
    stored_extract_result, ExtractedView,
};
use crate::decoding::{member_spec, new_decoder_view, DecView};
use crate::error::Error;
use crate::extract::{codec_error, entry_step, extracted_views, handed, result_view, sink_failed};
use crate::rar13::{
    entries_view, Archive, Entry, EntryView, ExtractedEntry, ExtractedEntryMeta, FileHeader,
    LHD_SPLIT_AFTER, LHD_SPLIT_BEFORE, METHOD_STORE, MHD_SOLID,
};

verus! {

/// A file that extracting a volume set yields: its name, time, attributes and
/// kind, and its data where the entries determine it (stored files and
/// directories; the data of compressed files is left to the decoder).
pub struct FileOut {
    pub name: Seq<u8>,
    pub file_time: u32,
    pub file_attr: u8,
    pub is_directory: bool,
    pub data: Option<Seq<u8>>,
}

/// A split entry under way: its name, method, encryption flag and unpack
/// version, the time and attributes of its first piece, the data of its
/// pieces so far, decrypted, and, where the set is streamed, the first error
/// met reading a piece, which is reported once the entry is complete.
pub struct PendingView {
    pub key: (Seq<u8>, u8, bool, u8),
    pub file_time: u32,
    pub file_attr: u8,
    pub data: Seq<u8>,
    pub deferred: Option<Error>,
}

/// The data of a piece, or none where it cannot be read.
pub open spec fn piece_data(r: Result<Seq<u8>, Error>) -> Seq<u8> {
    match r {
        Ok(d) => d,
        Err(_) => Seq::empty(),
    }
}

/// The error of a piece that cannot be read.
pub open spec fn piece_error(r: Result<Seq<u8>, Error>) -> Option<Error> {
    match r {
        Ok(_) => None,
        Err(e) => Some(e),
    }
}

/// The first error of two.
pub open spec fn first_error(a: Option<Error>, b: Option<Error>) -> Option<Error> {
    if a is Some {
        a
    } else {
        b
    }
}

/// How far a scan of a volume set has come: the files completed and the
/// split entry under way.
pub struct SplitScan {
    pub files: Seq<FileOut>,
    pub pending: Option<PendingView>,
}

/// What extracting a regular (unsplit) entry yields.
pub open spec fn regular_out(input: Seq<u8>, e: EntryView, password: Option<Seq<u8>>) -> Result<
    FileOut,
    Error,
> {
    if is_stored_spec(e.header) || is_directory_spec(e.header) {
        match stored_extract_result(input, e, password) {
            Err(err) => Err(err),
            Ok(x) => Ok(
                FileOut {
                    name: x.name,
                    file_time: x.file_time,
                    file_attr: x.file_attr,
                    is_directory: x.is_directory,
                    data: Some(x.data),
                },
            ),
        }
    } else {
        Ok(
            FileOut {
                name: e.name,
                file_time: e.header.file_time,
                file_attr: e.header.file_attr,
                is_directory: false,
                data: None,
            },
        )
    }
}

/// One entry of a volume set, read from `input`, after those before it.
/// Regular entries may not interrupt a split entry; a split entry starts with
/// a piece continued in the next volume, goes on with pieces continued from
/// the previous volume and keeps its name, method and encryption flag
/// throughout; the data of a stored split entry is its pieces' data joined,
/// which must match the checksum of its last piece. Where the set is
/// `streamed`, a split entry must also keep its unpack version, and its
/// pieces are read only once it is complete, so that an error reading one
/// comes after the checks of the pieces that follow it.
pub open spec fn split_step(
    s: SplitScan,
    input: Seq<u8>,
    e: EntryView,
    password: Option<Seq<u8>>,
    streamed: bool,
) -> Result<SplitScan, Error> {
    let before = e.header.flags & LHD_SPLIT_BEFORE != 0;
    let after = e.header.flags & LHD_SPLIT_AFTER != 0;
    if !before && !after {
        if s.pending is Some {
            Err(Error::InvalidHeader("RAR 1.3 split entry is interrupted by a regular entry"))
        } else {
            match regular_out(input, e, password) {
                Err(err) => Err(err),
                Ok(f) => Ok(SplitScan { files: s.files.push(f), pending: None }),
            }
        }
    } else {
        let dr = decrypted_result(input, e, password);
        if !streamed && dr is Err {
            Err(dr->Err_0)
        } else {
            let d = piece_data(dr);
            match s.pending {
                None => if !before && after {
                    Ok(
                        SplitScan {
                            files: s.files,
                            pending: Some(
                                PendingView {
                                    key: (
                                        e.name,
                                        e.header.method,
                                        is_encrypted_spec(e.header),
                                        e.header.unp_ver,
                                    ),
                                    file_time: e.header.file_time,
                                    file_attr: e.header.file_attr,
                                    data: d,
                                    deferred: piece_error(dr),
                                },
                            ),
                        },
                    )
                } else {
                    Err(Error::InvalidHeader("RAR 1.3 split entry flags are inconsistent"))
                },
                Some(p) => if !before {
                    Err(Error::InvalidHeader("RAR 1.3 split entry flags are inconsistent"))
                } else if e.name != p.key.0 {
                    Err(Error::InvalidHeader("RAR 1.3 split entry name changed"))
                } else if e.header.method != p.key.1 {
                    Err(Error::InvalidHeader("RAR 1.3 split entry compression method changed"))
                } else if streamed && e.header.unp_ver != p.key.3 {
                    Err(Error::InvalidHeader("RAR 1.3 split entry unpack version changed"))
                } else if is_encrypted_spec(e.header) != p.key.2 {
                    Err(Error::InvalidHeader("RAR 1.3 split entry encryption flag changed"))
                } else if after {
                    Ok(
                        SplitScan {
                            files: s.files,
                            pending: Some(
                                PendingView {
                                    data: p.data + d,
                                    deferred: first_error(p.deferred, piece_error(dr)),
                                    ..p
                                },
                            ),
                        },
                    )
                } else if first_error(p.deferred, piece_error(dr)) is Some {
                    Err(first_error(p.deferred, piece_error(dr))->Some_0)
                } else if p.key.1 == METHOD_STORE && checksum_result(e.header, p.data + d) is Err {
                    Err(checksum_result(e.header, p.data + d)->Err_0)
                } else {
                    Ok(
                        SplitScan {
                            files: s.files.push(
                                FileOut {
                                    name: p.key.0,
                                    file_time: p.file_time,
                                    file_attr: p.file_attr,
                                    is_directory: false,
                                    data: if p.key.1 == METHOD_STORE {
                                        Some(p.data + d)
                                    } else {
                                        None
                                    },
                                },
                            ),
                            pending: None,
                        },
                    )
                },
            }
        }
    }
}

/// The scan of a sequence of entries, each with the input it is read from.
pub open spec fn split_scan(
    pieces: Seq<(Seq<u8>, EntryView)>,
    password: Option<Seq<u8>>,
    streamed: bool,
) -> Result<SplitScan, Error>
    decreases pieces.len(),
{
    if pieces.len() == 0 {
        Ok(SplitScan { files: Seq::empty(), pending: None })
    } else {
        match split_scan(pieces.drop_last(), password, streamed) {
            Err(e) => Err(e),
            Ok(s) => split_step(s, pieces.last().0, pieces.last().1, password, streamed),
        }
    }
}

/// The entries of an archive, each with the archive's input.
pub open spec fn archive_pieces(a: Archive) -> Seq<(Seq<u8>, EntryView)> {
    entries_view(a.entries@).map_values(|e: EntryView| (a.input(), e))
}

/// The entries of a volume set, volume after volume, each with its volume's
/// input.
pub open spec fn volume_pieces(volumes: Seq<Archive>) -> Seq<(Seq<u8>, EntryView)>
    decreases volumes.len(),
{
    if volumes.len() == 0 {
        Seq::empty()
    } else {
        volume_pieces(volumes.drop_last()) + archive_pieces(volumes.last())
    }
}

/// What extracting a volume set yields, when every split entry is complete.
pub open spec fn volume_files(
    volumes: Seq<Archive>,
    password: Option<Seq<u8>>,
    streamed: bool,
) -> Result<Seq<FileOut>, Error> {
    match split_scan(volume_pieces(volumes), password, streamed) {
        Err(e) => Err(e),
        Ok(s) => if s.pending is Some {
            Err(Error::InvalidHeader("RAR 1.3 split entry is incomplete"))
        } else {
            Ok(s.files)
        },
    }
}

/// A piece that extracts without a decoder: a stored entry, or a directory
/// that is not split.
pub open spec fn stored_piece(h: FileHeader) -> bool {
    is_stored_spec(h) || (is_directory_spec(h) && h.flags & LHD_SPLIT_BEFORE == 0 && h.flags
        & LHD_SPLIT_AFTER == 0)
}

/// Every piece of a volume set extracts without a decoder.
pub open spec fn stored_pieces(pieces: Seq<(Seq<u8>, EntryView)>) -> bool {
    forall|i: int| 0 <= i < pieces.len() ==> stored_piece((#[trigger] pieces[i]).1.header)
}

/// The sink was handed the file `f`, its metadata and, where the scan fixes
/// it, its data, and accepted it.
pub open spec fn handed_file<F: FnMut(ExtractedEntryMeta, Vec<u8>) -> Result<(), Error>>(
    sink: F,
    f: FileOut,
) -> bool {
    exists|m: ExtractedEntryMeta, d: Vec<u8>, res: Result<(), Error>|
        #[trigger] call_ensures(sink, (m, d), res) && res is Ok && m.name@ == f.name && m.file_time
            == f.file_time && m.file_attr == f.file_attr && m.is_directory == f.is_directory && (
        f.data matches Some(dd) ==> d@ == dd)
}

/// An extracted file agrees with what the scan says of it.
pub open spec fn file_matches(x: ExtractedView, f: FileOut) -> bool {
    &&& x.name == f.name
    &&& x.file_time == f.file_time
    &&& x.file_attr == f.file_attr
    &&& x.is_directory == f.is_directory
    &&& f.data matches Some(d) ==> x.data == d
}

/// Extracted files agree, one for one, with what the scan says of them.
pub open spec fn files_match(xs: Seq<ExtractedEntry>, fs: Seq<FileOut>) -> bool {
    &&& xs.len() == fs.len()
    &&& forall|i: int| 0 <= i < xs.len() ==> file_matches((#[trigger] xs[i])@, fs[i])
}

/// How far the extraction of a volume set has come: the entries extracted,
/// the split entry under way and the decoder's state.
pub struct VolScan {
    pub out: Seq<ExtractedView>,
    pub pending: Option<PendingView>,
    pub dec: DecView,
}

/// Completing the split entry `p`, whose pieces' data `p.data` holds, with
/// its last piece `e`: stored data is checked against the last piece's
/// checksum, compressed data is decoded first. The result and the decoder
/// state after it; `None` where decoding passes the machine's bit positions.
pub open spec fn finish_step(p: PendingView, e: EntryView, v: DecView, solid: bool) -> Option<
    (Result<ExtractedView, Error>, DecView),
> {
    let done = |b: Seq<u8>|
        ExtractedView {
            name: p.key.0,
            data: b,
            file_time: p.file_time,
            file_attr: p.file_attr,
            is_directory: false,
        };
    if p.key.1 == METHOD_STORE {
        match checksum_result(e.header, p.data) {
            Err(x) => Some((Err(x), v)),
            Ok(()) => Some((Ok(done(p.data)), v)),
        }
    } else {
        match member_spec(v, p.data, e.header.unp_size as int, solid) {
            Some(Ok((v2, b))) => match checksum_result(e.header, b) {
                Err(x) => Some((Err(x), v2)),
                Ok(()) => Some((Ok(done(b)), v2)),
            },
            Some(Err(ce)) => Some((Err(codec_error(ce)), v)),
            None => None,
        }
    }
}

/// Extracting one more entry of a volume set, read from `input`, in a volume
/// that is solid or not: as `split_step` checks the entries, with regular
/// entries extracted at once and split entries once their last piece is in.
pub open spec fn vol_step(
    s: VolScan,
    input: Seq<u8>,
    e: EntryView,
    password: Option<Seq<u8>>,
    streamed: bool,
    solid_volume: bool,
) -> Option<Result<VolScan, Error>> {
    let before = e.header.flags & LHD_SPLIT_BEFORE != 0;
    let after = e.header.flags & LHD_SPLIT_AFTER != 0;
    let solid = solid_volume && s.out.len() > 0;
    if !before && !after {
        if s.pending is Some {
            Some(Err(Error::InvalidHeader("RAR 1.3 split entry is interrupted by a regular entry")))
        } else {
            match entry_step(input, e, password, s.dec, solid) {
                None => None,
                Some((Err(err), _)) => Some(Err(err)),
                Some((Ok(x), v2)) => Some(Ok(VolScan { out: s.out.push(x), pending: None, dec: v2 })),
            }
        }
    } else {
        let dr = decrypted_result(input, e, password);
        if !streamed && dr is Err {
            Some(Err(dr->Err_0))
        } else {
            let d = piece_data(dr);
            match s.pending {
                None => if !before && after {
                    Some(
                        Ok(
                            VolScan {
                                pending: Some(
                                    PendingView {
                                        key: (
                                            e.name,
                                            e.header.method,
                                            is_encrypted_spec(e.header),
                                            e.header.unp_ver,
                                        ),
                                        file_time: e.header.file_time,
                                        file_attr: e.header.file_attr,
                                        data: d,
                                        deferred: piece_error(dr),
                                    },
                                ),
                                ..s
                            },
                        ),
                    )
                } else {
                    Some(Err(Error::InvalidHeader("RAR 1.3 split entry flags are inconsistent")))
                },
                Some(p) => if !before {
                    Some(Err(Error::InvalidHeader("RAR 1.3 split entry flags are inconsistent")))
                } else if e.name != p.key.0 {
                    Some(Err(Error::InvalidHeader("RAR 1.3 split entry name changed")))
                } else if e.header.method != p.key.1 {
                    Some(Err(Error::InvalidHeader("RAR 1.3 split entry compression method changed")))
                } else if streamed && e.header.unp_ver != p.key.3 {
                    Some(Err(Error::InvalidHeader("RAR 1.3 split entry unpack version changed")))
                } else if is_encrypted_spec(e.header) != p.key.2 {
                    Some(Err(Error::InvalidHeader("RAR 1.3 split entry encryption flag changed")))
                } else if after {
                    Some(
                        Ok(
                            VolScan {
                                pending: Some(
                                    PendingView {
                                        data: p.data + d,
                                        deferred: first_error(p.deferred, piece_error(dr)),
                                        ..p
                                    },
                                ),
                                ..s
                            },
                        ),
                    )
                } else if first_error(p.deferred, piece_error(dr)) is Some {
                    Some(Err(first_error(p.deferred, piece_error(dr))->Some_0))
                } else {
                    match finish_step(
                        PendingView { data: p.data + d, deferred: None, ..p },
                        e,
                        s.dec,
                        solid,
                    ) {
                        None => None,
                        Some((Err(err), _)) => Some(Err(err)),
                        Some((Ok(x), v2)) => Some(
                            Ok(VolScan { out: s.out.push(x), pending: None, dec: v2 }),
                        ),
                    }
                }
            }
        }
    }
}

/// Extracting the entries of a volume set from entry `ei` of volume `vi` on,
/// from the scan state `s`.
pub open spec fn vol_from(
    volumes: Seq<Archive>,
    vi: int,
    ei: int,
    s: VolScan,
    password: Option<Seq<u8>>,
    streamed: bool,
) -> Option<Result<VolScan, Error>>
    decreases volumes.len() - vi, volumes[vi].entries@.len() - ei,
{
    if vi < 0 || vi >= volumes.len() {
        Some(Ok(s))
    } else if ei < 0 || ei >= volumes[vi].entries@.len() {
        vol_from(volumes, vi + 1, 0, s, password, streamed)
    } else {
        match vol_step(
            s,
            volumes[vi].input(),
            volumes[vi].entries@[ei]@,
            password,
            streamed,
            volumes[vi].main.flags & MHD_SOLID != 0,
        ) {
            None => None,
            Some(Err(e)) => Some(Err(e)),
            Some(Ok(s2)) => vol_from(volumes, vi, ei + 1, s2, password, streamed),
        }
    }
}

/// What extracting a volume set gives: every file, decoded where it is
/// compressed, or the first error. `None` where decoding passes the
/// machine's bit positions.
pub open spec fn vol_result(volumes: Seq<Archive>, password: Option<Seq<u8>>, streamed: bool) -> Option<
    Result<Seq<ExtractedView>, Error>,
> {
    match vol_from(
        volumes,
        0,
        0,
        VolScan { out: Seq::empty(), pending: None, dec: new_decoder_view() },
        password,
        streamed,
    ) {
        None => None,
        Some(Err(e)) => Some(Err(e)),
        Some(Ok(s)) => if s.pending is Some {
            Some(Err(Error::InvalidHeader("RAR 1.3 split entry is incomplete")))
        } else {
            Some(Ok(s.out))
        },
    }
}

/// A split entry whose pieces are being gathered.
struct PendingSplit {
    name: Vec<u8>,
    packed_data: Vec<u8>,
    file_time: u32,
    file_attr: u8,
    method: u8,
    unp_ver: u8,
    was_encrypted: bool,
    deferred: Option<Error>,
}

impl PendingSplit {
    /// What the scan knows of the split entry.
    spec fn key(&self) -> (Seq<u8>, u8, bool, u8) {
        (self.name@, self.method, self.was_encrypted, self.unp_ver)
    }

    /// Starts a split entry with its first piece, and the error met reading
    /// it where it is to be reported later.
    fn new(entry: &Entry, packed_data: Vec<u8>, deferred: Option<Error>) -> (p: PendingSplit)
        ensures
            p.key() == (
                entry.name@,
                entry.header.method,
                is_encrypted_spec(entry.header),
                entry.header.unp_ver,
            ),
            p.packed_data@ == packed_data@,
            p.file_time == entry.header.file_time,
            p.file_attr == entry.header.file_attr,
            p.deferred == deferred,
    {
        PendingSplit {
            name: copy_range(entry.name.as_slice(), 0, entry.name.len()),
            packed_data,
            file_time: entry.header.file_time,
            file_attr: entry.header.file_attr,
            method: entry.header.method,
            unp_ver: entry.header.unp_ver,
            was_encrypted: entry.is_encrypted(),
            deferred,
        }
    }

    /// Keeps the first error met reading a piece.
    fn defer(&mut self, error: Option<Error>)
        ensures
            final(self).deferred == first_error(old(self).deferred, error),
            final(self).key() == old(self).key(),
            final(self).file_time == old(self).file_time,
            final(self).file_attr == old(self).file_attr,
            final(self).packed_data == old(self).packed_data,
    {
        if self.deferred.is_none() {
            self.deferred = error;
        }
    }

    /// Adds the next piece, which must belong to the same file: same name,
    /// method and encryption flag, and same unpack version where `streamed`
    /// asks for it.
    fn append(&mut self, entry: &Entry, packed_data: &[u8], streamed: bool) -> (r: Result<
        (),
        Error,
    >)
        ensures
            r == (if entry.name@ != old(self).key().0 {
                Err(Error::InvalidHeader("RAR 1.3 split entry name changed"))
            } else if entry.header.method != old(self).key().1 {
                Err(Error::InvalidHeader("RAR 1.3 split entry compression method changed"))
            } else if streamed && entry.header.unp_ver != old(self).key().3 {
                Err(Error::InvalidHeader("RAR 1.3 split entry unpack version changed"))
            } else if is_encrypted_spec(entry.header) != old(self).key().2 {
                Err(Error::InvalidHeader("RAR 1.3 split entry encryption flag changed"))
            } else {
                Ok::<(), Error>(())
            }),
            final(self).key() == old(self).key(),
            final(self).file_time == old(self).file_time,
            final(self).file_attr == old(self).file_attr,
            final(self).deferred == old(self).deferred,
            r is Ok ==> final(self).packed_data@ == old(self).packed_data@ + packed_data@,
    {
        if !bytes_equal(entry.name.as_slice(), self.name.as_slice()) {
            return Err(Error::InvalidHeader("RAR 1.3 split entry name changed"));
        }
        if entry.header.method != self.method {
            return Err(Error::InvalidHeader("RAR 1.3 split entry compression method changed"));
        }
        if streamed && entry.header.unp_ver != self.unp_ver {
            return Err(Error::InvalidHeader("RAR 1.3 split entry unpack version changed"));
        }
        if entry.is_encrypted() != self.was_encrypted {
            return Err(Error::InvalidHeader("RAR 1.3 split entry encryption flag changed"));
        }
        append_bytes(&mut self.packed_data, packed_data);
        Ok(())
    }

    /// Decodes the gathered pieces and checks them against the last piece's
    /// checksum.
    fn finish(self, final_entry: &Entry, unpack15: &mut Unpack15, solid: bool) -> (r: Result<
        ExtractedEntry,
        Error,
    >)
        requires
            old(unpack15).wf(),
        ensures
            final(unpack15).wf(),
            r matches Ok(x) ==> {
                &&& x.name@ == self.name@
                &&& checksum_of(x.data@) == final_entry.header.file_crc
                &&& x.file_time == self.file_time
                &&& x.file_attr == self.file_attr
                &&& !x.is_directory
                &&& self.method == METHOD_STORE ==> x.data@ == self.packed_data@
            },
            self.method == METHOD_STORE ==> match checksum_result(
                final_entry.header,
                self.packed_data@,
            ) {
                Ok(()) => r is Ok,
                Err(e) => r matches Err(y) && y == e,
            },
            match finish_step(
                PendingView {
                    key: self.key(),
                    file_time: self.file_time,
                    file_attr: self.file_attr,
                    data: self.packed_data@,
                    deferred: None,
                },
                final_entry@,
                old(unpack15).dv(),
                solid,
            ) {
                Some((res, v2)) => result_view(r) == res && (r is Ok ==> final(unpack15).dv() == v2),
                None => true,
            },
    {
        let data = if self.method == METHOD_STORE {
            self.packed_data
        } else {
            match unpack15.decode_member(
                self.packed_data.as_slice(),
                final_entry.header.unp_size as usize,
                solid,
            ) {
                Ok(d) => d,
                Err(e) => {
                    return Err(Error::from_codec(e));
                },
            }
        };
        match final_entry.verify_checksum(data.as_slice()) {
            Ok(()) => {},
            Err(e) => {
                return Err(e);
            },
        }
        Ok(
            ExtractedEntry {
                name: self.name,
                data,
                file_time: self.file_time,
                file_attr: self.file_attr,
                is_directory: false,
            },
        )
    }
}

/// Whether two byte strings are equal.
fn bytes_equal(a: &[u8], b: &[u8]) -> (eq: bool)
    ensures
        eq == (a@ == b@),
{
    if a.len() != b.len() {
        return false;
    }
    let mut i: usize = 0;
    while i < a.len()
        invariant
            a@.len() == b@.len(),
            i <= a@.len(),
            forall|j: int| 0 <= j < i ==> a@[j] == b@[j],
        decreases a@.len() - i,
    {
        if a[i] != b[i] {
            return false;
        }
        i = i + 1;
    }
    assert(a@ =~= b@);
    true
}


/// What the scan knows of the split entry under way.
spec fn pending_view(p: Option<PendingSplit>) -> Option<PendingView> {
    match p {
        Some(p) => Some(
            PendingView {
                key: p.key(),
                file_time: p.file_time,
                file_attr: p.file_attr,
                data: p.packed_data@,
                deferred: p.deferred,
            },
        ),
        None => None,
    }
}

/// The pieces of the volumes before `vi` and the first `ei` entries of volume
/// `vi`, one more entry on.
proof fn lemma_pieces_prefix(volumes: Seq<Archive>, vi: int, ei: int)
    requires
        0 <= vi < volumes.len(),
        0 <= ei < volumes[vi].entries@.len(),
    ensures
        ({
            let base = volume_pieces(volumes.subrange(0, vi));
            let es = archive_pieces(volumes[vi]);
            &&& (base + es.subrange(0, ei + 1)).drop_last() == base + es.subrange(0, ei)
            &&& (base + es.subrange(0, ei + 1)).last() == (
                volumes[vi].input(),
                volumes[vi].entries@[ei]@,
            )
        }),
{
    let base = volume_pieces(volumes.subrange(0, vi));
    let es = archive_pieces(volumes[vi]);
    assert((base + es.subrange(0, ei + 1)).drop_last() =~= base + es.subrange(0, ei));
}

/// Moving on to the next volume.
proof fn lemma_pieces_volume(volumes: Seq<Archive>, vi: int)
    requires
        0 <= vi < volumes.len(),
    ensures
        volume_pieces(volumes.subrange(0, vi)) + archive_pieces(volumes[vi]).subrange(
            0,
            volumes[vi].entries@.len() as int,
        ) == volume_pieces(volumes.subrange(0, vi + 1)),
{
    let s = volumes.subrange(0, vi + 1);
    assert(s.drop_last() =~= volumes.subrange(0, vi));
    let es = archive_pieces(volumes[vi]);
    assert(es.subrange(0, es.len() as int) =~= es);
}

/// The pieces of the first `j` volumes begin the pieces of the whole set.
proof fn lemma_volume_pieces_prefix(volumes: Seq<Archive>, j: int)
    requires
        0 <= j <= volumes.len(),
    ensures
        volume_pieces(volumes.subrange(0, j)).len() <= volume_pieces(volumes).len(),
        volume_pieces(volumes).subrange(0, volume_pieces(volumes.subrange(0, j)).len() as int)
            == volume_pieces(volumes.subrange(0, j)),
    decreases volumes.len() - j,
{
    if j == volumes.len() {
        assert(volumes.subrange(0, j) =~= volumes);
        assert(volume_pieces(volumes).subrange(0, volume_pieces(volumes).len() as int)
            =~= volume_pieces(volumes));
    } else {
        lemma_volume_pieces_prefix(volumes, j + 1);
        let s = volumes.subrange(0, j + 1);
        assert(s.drop_last() =~= volumes.subrange(0, j));
        let a = volume_pieces(volumes.subrange(0, j));
        let b = volume_pieces(s);
        assert(b == a + archive_pieces(volumes[j]));
        assert(b.subrange(0, a.len() as int) =~= a);
        assert(volume_pieces(volumes).subrange(0, a.len() as int) =~= b.subrange(
            0,
            a.len() as int,
        ));
    }
}

/// Entry `ei` of volume `vi` is piece `n - 1` of the whole set, where `n`
/// counts the pieces up to it.
proof fn lemma_volume_position(volumes: Seq<Archive>, vi: int, ei: int)
    requires
        0 <= vi < volumes.len(),
        0 <= ei < volumes[vi].entries@.len(),
    ensures
        ({
            let base = volume_pieces(volumes.subrange(0, vi));
            let es = archive_pieces(volumes[vi]);
            let n = base.len() + ei + 1;
            &&& n <= volume_pieces(volumes).len()
            &&& volume_pieces(volumes).subrange(0, n) == base + es.subrange(0, ei + 1)
            &&& volume_pieces(volumes)[n - 1] == (volumes[vi].input(), volumes[vi].entries@[ei]@)
        }),
{
    let base = volume_pieces(volumes.subrange(0, vi));
    let es = archive_pieces(volumes[vi]);
    let n = base.len() + ei + 1;
    lemma_volume_pieces_prefix(volumes, vi + 1);
    lemma_pieces_volume(volumes, vi);
    lemma_pieces_prefix(volumes, vi, ei);
    let whole = volume_pieces(volumes.subrange(0, vi + 1));
    assert(es.subrange(0, es.len() as int) =~= es);
    assert(whole == base + es);
    assert(whole.subrange(0, n) =~= base + es.subrange(0, ei + 1));
    assert(volume_pieces(volumes).subrange(0, n) =~= whole.subrange(0, n));
    assert(volume_pieces(volumes)[n - 1] == volume_pieces(volumes).subrange(0, n)[n - 1]);
}

/// A scan that fails on a prefix of the pieces fails on them all, with the
/// same error.
proof fn lemma_scan_prefix_err(
    pieces: Seq<(Seq<u8>, EntryView)>,
    k: int,
    password: Option<Seq<u8>>,
    streamed: bool,
)
    requires
        0 <= k <= pieces.len(),
        split_scan(pieces.subrange(0, k), password, streamed) is Err,
    ensures
        split_scan(pieces, password, streamed) == split_scan(
            pieces.subrange(0, k),
            password,
            streamed,
        ),
    decreases pieces.len() - k,
{
    if k == pieces.len() {
        assert(pieces.subrange(0, k) =~= pieces);
    } else {
        let s = pieces.subrange(0, k + 1);
        assert(s.drop_last() =~= pieces.subrange(0, k));
        lemma_scan_prefix_err(pieces, k + 1, password, streamed);
    }
}

/// Where scanning entry `ei` of volume `vi` fails, extracting the whole set
/// fails with the same error; and that entry is a piece of the set.
proof fn lemma_volume_err(
    volumes: Seq<Archive>,
    vi: int,
    ei: int,
    password: Option<Seq<u8>>,
    streamed: bool,
)
    requires
        0 <= vi < volumes.len(),
        0 <= ei < volumes[vi].entries@.len(),
        split_scan(
            volume_pieces(volumes.subrange(0, vi)) + archive_pieces(volumes[vi]).subrange(
                0,
                ei + 1,
            ),
            password,
            streamed,
        ) is Err,
    ensures
        volume_files(volumes, password, streamed) == Err::<Seq<FileOut>, Error>(
            split_scan(
                volume_pieces(volumes.subrange(0, vi)) + archive_pieces(volumes[vi]).subrange(
                    0,
                    ei + 1,
                ),
                password,
                streamed,
            )->Err_0,
        ),
{
    let n = volume_pieces(volumes.subrange(0, vi)).len() + ei + 1;
    lemma_volume_position(volumes, vi, ei);
    lemma_scan_prefix_err(volume_pieces(volumes), n, password, streamed);
}

/// Entry `ei` of volume `vi` extracts without a decoder when every piece of
/// the set does.
proof fn lemma_volume_piece_stored(volumes: Seq<Archive>, vi: int, ei: int)
    requires
        0 <= vi < volumes.len(),
        0 <= ei < volumes[vi].entries@.len(),
        stored_pieces(volume_pieces(volumes)),
    ensures
        stored_piece(volumes[vi].entries@[ei]@.header),
{
    let n = volume_pieces(volumes.subrange(0, vi)).len() + ei + 1;
    lemma_volume_position(volumes, vi, ei);
    assert(stored_piece(volume_pieces(volumes)[n - 1].1.header));
}

/// Extracts every file of a volume set, joining the pieces of split entries.
#[verifier::rlimit(40)]
#[verifier::spinoff_prover]
pub fn extract_volumes(volumes: &[Archive], password: Option<&[u8]>) -> (r: Result<
    Vec<ExtractedEntry>,
    Error,
>)
    ensures
        r matches Ok(xs) ==> volume_files(volumes@, password_view(password), false) matches Ok(
            fs,
        ) && files_match(xs@, fs),
        stored_pieces(volume_pieces(volumes@)) ==> match volume_files(
            volumes@,
            password_view(password),
            false,
        ) {
            Ok(fs) => r matches Ok(xs) && files_match(xs@, fs),
            Err(e) => r matches Err(y) && y == e,
        },
        match vol_result(volumes@, password_view(password), false) {
            Some(Ok(xs)) => r matches Ok(v) && extracted_views(v@) == xs,
            Some(Err(e)) => r matches Err(y) && y == e,
            None => true,
        },
{
    let ghost pw = password_view(password);
    let ghost all = stored_pieces(volume_pieces(volumes@));
    let mut out: Vec<ExtractedEntry> = Vec::new();
    let mut pending: Option<PendingSplit> = None;
    let mut unpack15 = Unpack15::new();
    let ghost mut files: Seq<FileOut> = Seq::empty();
    let mut vi: usize = 0;
    let ghost whole = vol_from(
        volumes@,
        0,
        0,
        VolScan { out: Seq::empty(), pending: None, dec: new_decoder_view() },
        pw,
        false,
    );
    proof {
        assert(volumes@.subrange(0, 0) =~= Seq::<Archive>::empty());
        assert(extracted_views(out@) =~= Seq::<ExtractedView>::empty());
    }
    while vi < volumes.len()
        invariant
            vi <= volumes@.len(),
            pw == password_view(password),
            unpack15.wf(),
            split_scan(volume_pieces(volumes@.subrange(0, vi as int)), pw, false) == Ok::<
                SplitScan,
                Error,
            >(SplitScan { files, pending: pending_view(pending) }),
            files_match(out@, files),
            all == stored_pieces(volume_pieces(volumes@)),
            all ==> (pending matches Some(p) ==> p.method == METHOD_STORE),
            pending matches Some(p) ==> p.deferred is None,
            whole == vol_from(
                volumes@,
                0,
                0,
                VolScan { out: Seq::empty(), pending: None, dec: new_decoder_view() },
                pw,
                false,
            ),
            whole is None || whole == vol_from(
                volumes@,
                vi as int,
                0,
                VolScan { out: extracted_views(out@), pending: pending_view(pending), dec: unpack15.dv() },
                pw,
                false,
            ),
        decreases volumes@.len() - vi,
    {
        let archive = &volumes[vi];
        let ghost base = volume_pieces(volumes@.subrange(0, vi as int));
        let ghost es = archive_pieces(*archive);
        let mut ei: usize = 0;
        proof {
            assert(base + es.subrange(0, 0) =~= base);
        }
        while ei < archive.entries.len()
            invariant
                vi < volumes@.len(),
                pw == password_view(password),
                archive == volumes@[vi as int],
                base == volume_pieces(volumes@.subrange(0, vi as int)),
                es == archive_pieces(*archive),
                ei <= archive.entries@.len(),
                unpack15.wf(),
                split_scan(base + es.subrange(0, ei as int), pw, false) == Ok::<SplitScan, Error>(
                    SplitScan { files, pending: pending_view(pending) },
                ),
                files_match(out@, files),
                all == stored_pieces(volume_pieces(volumes@)),
                all ==> (pending matches Some(p) ==> p.method == METHOD_STORE),
                pending matches Some(p) ==> p.deferred is None,
                whole == vol_from(
                    volumes@,
                    0,
                    0,
                    VolScan { out: Seq::empty(), pending: None, dec: new_decoder_view() },
                    pw,
                    false,
                ),
                whole is None || whole == vol_from(
                    volumes@,
                    vi as int,
                    ei as int,
                    VolScan { out: extracted_views(out@), pending: pending_view(pending), dec: unpack15.dv() },
                    pw,
                    false,
                ),
            decreases archive.entries@.len() - ei,
        {
            let entry = &archive.entries[ei];
            let ghost cur = VolScan {
                out: extracted_views(out@),
                pending: pending_view(pending),
                dec: unpack15.dv(),
            };
            let ghost sv = archive.main.flags & MHD_SOLID != 0;
            proof {
                assert(archive.entries@[ei as int]@ == entry@);
            }
            proof {
                lemma_pieces_prefix(volumes@, vi as int, ei as int);
                if all {
                    lemma_volume_piece_stored(volumes@, vi as int, ei as int);
                }
            }
            let before = entry.is_split_before();
            let after = entry.is_split_after();
            if !before && !after {
                if pending.is_some() {
                    proof {
                        if all {
                            lemma_volume_err(volumes@, vi as int, ei as int, pw, false);
                        }
                    }
                    return Err(
                        Error::InvalidHeader(
                            "RAR 1.3 split entry is interrupted by a regular entry",
                        ),
                    );
                }
                let solid = archive.main.is_solid() && out.len() > 0;
                let x = match entry.extract_with_decoder(archive, password, &mut unpack15, solid) {
                    Ok(x) => x,
                    Err(e) => {
                        proof {
                            if all {
                                lemma_volume_err(volumes@, vi as int, ei as int, pw, false);
                            }
                        }
                        return Err(e);
                    },
                };
                proof {
                    let f = regular_out(archive.input(), entry@, pw)->Ok_0;
                    assert(file_matches(x@, f));
                    files = files.push(f);
                }
                let ghost prev = out@;
                out.push(x);
                proof {
                    assert forall|i: int| 0 <= i < out@.len() implies file_matches(
                        (#[trigger] out@[i])@,
                        files[i],
                    ) by {
                        if i < out@.len() - 1 {
                            assert(out@[i] == prev[i]);
                        }
                    }
                    assert(extracted_views(out@) =~= extracted_views(prev).push(x@));
                }
            } else {
                let data = match entry.decrypt_packed_data(archive, password) {
                    Ok(d) => d,
                    Err(e) => {
                        proof {
                            if all {
                                lemma_volume_err(volumes@, vi as int, ei as int, pw, false);
                            }
                        }
                        return Err(e);
                    },
                };
                match pending {
                    None => {
                        if !before && after {
                            pending = Some(PendingSplit::new(entry, data, None));
                        } else {
                            proof {
                                if all {
                                    lemma_volume_err(volumes@, vi as int, ei as int, pw, false);
                                }
                            }
                            return Err(
                                Error::InvalidHeader("RAR 1.3 split entry flags are inconsistent"),
                            );
                        }
                    },
                    Some(mut current) => {
                        if !before {
                            proof {
                                if all {
                                    lemma_volume_err(volumes@, vi as int, ei as int, pw, false);
                                }
                            }
                            return Err(
                                Error::InvalidHeader("RAR 1.3 split entry flags are inconsistent"),
                            );
                        }
                        match current.append(entry, data.as_slice(), false) {
                            Ok(()) => {},
                            Err(e) => {
                                proof {
                                    if all {
                                        lemma_volume_err(volumes@, vi as int, ei as int, pw, false);
                                    }
                                }
                                return Err(e);
                            },
                        }
                        if after {
                            pending = Some(current);
                        } else {
                            let ghost joined = current.packed_data@;
                            let ghost key = current.key();
                            let solid = archive.main.is_solid() && out.len() > 0;
                            let x = match current.finish(entry, &mut unpack15, solid) {
                                Ok(x) => x,
                                Err(e) => {
                                    proof {
                                        if all {
                                            lemma_volume_err(volumes@, vi as int, ei as int, pw, false);
                                        }
                                    }
                                    return Err(e);
                                },
                            };
                            proof {
                                let f = FileOut {
                                    name: key.0,
                                    file_time: x.file_time,
                                    file_attr: x.file_attr,
                                    is_directory: false,
                                    data: if key.1 == METHOD_STORE {
                                        Some(joined)
                                    } else {
                                        None
                                    },
                                };
                                assert(file_matches(x@, f));
                                files = files.push(f);
                            }
                            let ghost prev = out@;
                            out.push(x);
                            pending = None;
                            proof {
                                assert(extracted_views(out@) =~= extracted_views(prev).push(x@));
                                assert forall|i: int| 0 <= i < out@.len() implies file_matches(
                                    (#[trigger] out@[i])@,
                                    files[i],
                                ) by {
                                    if i < out@.len() - 1 {
                                        assert(out@[i] == prev[i]);
                                    }
                                }
                            }
                        }
                    },
                }
            }
            ei = ei + 1;
        }
        proof {
            lemma_pieces_volume(volumes@, vi as int);
        }
        vi = vi + 1;
    }
    proof {
        assert(volumes@.subrange(0, volumes@.len() as int) =~= volumes@);
    }
    if pending.is_some() {
        return Err(Error::InvalidHeader("RAR 1.3 split entry is incomplete"));
    }
    proof {
        assert(volumes@.subrange(0, volumes@.len() as int) =~= volumes@);
    }
    Ok(out)
}

/// Extracts a volume set; stored and compressed entries alike.
pub fn extract_stored_volumes(volumes: &[Archive], password: Option<&[u8]>) -> (r: Result<
    Vec<ExtractedEntry>,
    Error,
>)
    ensures
        r matches Ok(xs) ==> volume_files(volumes@, password_view(password), false) matches Ok(
            fs,
        ) && files_match(xs@, fs),
        stored_pieces(volume_pieces(volumes@)) ==> match volume_files(
            volumes@,
            password_view(password),
            false,
        ) {
            Ok(fs) => r matches Ok(xs) && files_match(xs@, fs),
            Err(e) => r matches Err(y) && y == e,
        },
{
    extract_volumes(volumes, password)
}


/// Extracts every file of a volume set and hands each, with its metadata, to
/// `sink` as soon as it is complete; stops at the first error, the sink's
/// included. Split entries must also keep their unpack version, and their
/// pieces are read once the entry is complete.
#[verifier::rlimit(40)]
#[verifier::spinoff_prover]
pub fn extract_volumes_to<F>(volumes: &[Archive], password: Option<&[u8]>, sink: F) -> (r:
    Result<(), Error>) where F: FnMut(ExtractedEntryMeta, Vec<u8>) -> Result<(), Error>
    requires
        forall|m: ExtractedEntryMeta, d: Vec<u8>| call_requires(sink, (m, d)),
    ensures
        r is Ok ==> volume_files(volumes@, password_view(password), true) is Ok,
        stored_pieces(volume_pieces(volumes@)) && (forall|
            m: ExtractedEntryMeta,
            d: Vec<u8>,
            res: Result<(), Error>,
        | call_ensures(sink, (m, d), res) ==> res is Ok) ==> match volume_files(
            volumes@,
            password_view(password),
            true,
        ) {
            Ok(_) => r is Ok,
            Err(e) => r == Err::<(), Error>(e),
        },
        r is Ok ==> (volume_files(volumes@, password_view(password), true) matches Ok(fs)
            && forall|i: int| 0 <= i < fs.len() ==> handed_file(sink, #[trigger] fs[i])),
        stored_pieces(volume_pieces(volumes@)) ==> (r matches Err(e) ==> volume_files(
            volumes@,
            password_view(password),
            true,
        ) == Err::<Seq<FileOut>, Error>(e) || exists|m: ExtractedEntryMeta, d: Vec<u8>|
            call_ensures(sink, (m, d), Err::<(), Error>(e))),
        match vol_result(volumes@, password_view(password), true) {
            Some(Ok(xs)) => (r is Ok && forall|i: int|
                0 <= i < xs.len() ==> handed(sink, #[trigger] xs[i])) || sink_failed(sink, r),
            Some(Err(e)) => r == Err::<(), Error>(e) || sink_failed(sink, r),
            None => true,
        },
{
    let ghost pw = password_view(password);
    let ghost all = stored_pieces(volume_pieces(volumes@)) && (forall|
        m: ExtractedEntryMeta,
        d: Vec<u8>,
        res: Result<(), Error>,
    | call_ensures(sink, (m, d), res) ==> res is Ok);
    let ghost st = stored_pieces(volume_pieces(volumes@));
    let mut emit = sink;
    let mut pending: Option<PendingSplit> = None;
    let mut unpack15 = Unpack15::new();
    let mut extracted_any = false;
    let ghost mut files: Seq<FileOut> = Seq::empty();
    let mut vi: usize = 0;
    let ghost whole = vol_from(
        volumes@,
        0,
        0,
        VolScan { out: Seq::empty(), pending: None, dec: new_decoder_view() },
        pw,
        true,
    );
    let ghost mut done: Seq<ExtractedView> = Seq::empty();
    proof {
        assert(volumes@.subrange(0, 0) =~= Seq::<Archive>::empty());
    }
    while vi < volumes.len()
        invariant
            vi <= volumes@.len(),
            pw == password_view(password),
            unpack15.wf(),
            forall|m: ExtractedEntryMeta, d: Vec<u8>| call_requires(sink, (m, d)),
            split_scan(volume_pieces(volumes@.subrange(0, vi as int)), pw, true) == Ok::<
                SplitScan,
                Error,
            >(SplitScan { files, pending: pending_view(pending) }),
            emit == sink,
            st == stored_pieces(volume_pieces(volumes@)),
            forall|j: int| 0 <= j < files.len() ==> handed_file(sink, #[trigger] files[j]),
            all == (stored_pieces(volume_pieces(volumes@)) && (forall|
                m: ExtractedEntryMeta,
                d: Vec<u8>,
                res: Result<(), Error>,
            | call_ensures(sink, (m, d), res) ==> res is Ok)),
            st ==> (pending matches Some(p) ==> p.method == METHOD_STORE),
            whole == vol_from(
                volumes@,
                0,
                0,
                VolScan { out: Seq::empty(), pending: None, dec: new_decoder_view() },
                pw,
                true,
            ),
            whole is None || whole == vol_from(
                volumes@,
                vi as int,
                0,
                VolScan { out: done, pending: pending_view(pending), dec: unpack15.dv() },
                pw,
                true,
            ),
            extracted_any == (done.len() > 0),
            forall|j: int| 0 <= j < done.len() ==> handed(sink, #[trigger] done[j]),
        decreases volumes@.len() - vi,
    {
        let archive = &volumes[vi];
        let ghost base = volume_pieces(volumes@.subrange(0, vi as int));
        let ghost es = archive_pieces(*archive);
        let mut ei: usize = 0;
        proof {
            assert(base + es.subrange(0, 0) =~= base);
        }
        while ei < archive.entries.len()
            invariant
                vi < volumes@.len(),
                pw == password_view(password),
                archive == volumes@[vi as int],
                base == volume_pieces(volumes@.subrange(0, vi as int)),
                es == archive_pieces(*archive),
                ei <= archive.entries@.len(),
                unpack15.wf(),
                forall|m: ExtractedEntryMeta, d: Vec<u8>| call_requires(sink, (m, d)),
                split_scan(base + es.subrange(0, ei as int), pw, true) == Ok::<SplitScan, Error>(
                    SplitScan { files, pending: pending_view(pending) },
                ),
                emit == sink,
                st == stored_pieces(volume_pieces(volumes@)),
                forall|j: int| 0 <= j < files.len() ==> handed_file(sink, #[trigger] files[j]),
                all == (stored_pieces(volume_pieces(volumes@)) && (forall|
                    m: ExtractedEntryMeta,
                    d: Vec<u8>,
                    res: Result<(), Error>,
                | call_ensures(sink, (m, d), res) ==> res is Ok)),
                st ==> (pending matches Some(p) ==> p.method == METHOD_STORE),
                whole == vol_from(
                    volumes@,
                    0,
                    0,
                    VolScan { out: Seq::empty(), pending: None, dec: new_decoder_view() },
                    pw,
                    true,
                ),
                whole is None || whole == vol_from(
                    volumes@,
                    vi as int,
                    ei as int,
                    VolScan { out: done, pending: pending_view(pending), dec: unpack15.dv() },
                    pw,
                    true,
                ),
                extracted_any == (done.len() > 0),
                forall|j: int| 0 <= j < done.len() ==> handed(sink, #[trigger] done[j]),
            decreases archive.entries@.len() - ei,
        {
            let entry = &archive.entries[ei];
            proof {
                assert(archive.entries@[ei as int]@ == entry@);
            }
            proof {
                lemma_pieces_prefix(volumes@, vi as int, ei as int);
                if st {
                    lemma_volume_piece_stored(volumes@, vi as int, ei as int);
                }
            }
            let before = entry.is_split_before();
            let after = entry.is_split_after();
            if !before && !after {
                if pending.is_some() {
                    proof {
                        if st {
                            lemma_volume_err(volumes@, vi as int, ei as int, pw, true);
                        }
                    }
                    return Err(
                        Error::InvalidHeader(
                            "RAR 1.3 split entry is interrupted by a regular entry",
                        ),
                    );
                }
                let solid = archive.main.is_solid() && extracted_any;
                let x = match entry.extract_with_decoder(archive, password, &mut unpack15, solid) {
                    Ok(x) => x,
                    Err(e) => {
                        proof {
                            if st {
                                lemma_volume_err(volumes@, vi as int, ei as int, pw, true);
                            }
                        }
                        return Err(e);
                    },
                };
                let ghost prev_files = files;
                proof {
                    files = files.push(regular_out(archive.input(), entry@, pw)->Ok_0);
                }
                let meta = entry.metadata();
                let ghost gm = meta;
                let ghost gd = x.data;
                let ghost xv = x@;
                let res = emit(meta, x.data);
                proof {
                    assert(call_ensures(sink, (gm, gd), res));
                }
                match res {
                    Ok(()) => {},
                    Err(e) => {
                        proof {
                            assert(call_ensures(sink, (gm, gd), Err::<(), Error>(e)));
                        }
                        return Err(e);
                    },
                }
                proof {
                    assert(handed_file(sink, files.last()));
                    assert forall|j: int| 0 <= j < files.len() implies handed_file(
                        sink,
                        #[trigger] files[j],
                    ) by {
                        if j < files.len() - 1 {
                            assert(files[j] == prev_files[j]);
                        }
                    }
                    assert(handed(sink, xv));
                    let prev_done = done;
                    done = done.push(xv);
                    assert forall|j: int| 0 <= j < done.len() implies handed(
                        sink,
                        #[trigger] done[j],
                    ) by {
                        if j < done.len() - 1 {
                            assert(done[j] == prev_done[j]);
                        }
                    }
                }
                extracted_any = true;
            } else {
                let (data, derr) = match entry.decrypt_packed_data(archive, password) {
                    Ok(d) => (d, None),
                    Err(e) => (Vec::new(), Some(e)),
                };
                match pending {
                    None => {
                        if !before && after {
                            pending = Some(PendingSplit::new(entry, data, derr));
                        } else {
                            proof {
                                if st {
                                    lemma_volume_err(volumes@, vi as int, ei as int, pw, true);
                                }
                            }
                            return Err(
                                Error::InvalidHeader("RAR 1.3 split entry flags are inconsistent"),
                            );
                        }
                    },
                    Some(mut current) => {
                        if !before {
                            proof {
                                if st {
                                    lemma_volume_err(volumes@, vi as int, ei as int, pw, true);
                                }
                            }
                            return Err(
                                Error::InvalidHeader("RAR 1.3 split entry flags are inconsistent"),
                            );
                        }
                        match current.append(entry, data.as_slice(), true) {
                            Ok(()) => {},
                            Err(e) => {
                                proof {
                                    if st {
                                        lemma_volume_err(volumes@, vi as int, ei as int, pw, true);
                                    }
                                }
                                return Err(e);
                            },
                        }
                        current.defer(derr);
                        if after {
                            pending = Some(current);
                        } else {
                            match current.deferred {
                                Some(e) => {
                                    proof {
                                        if st {
                                            lemma_volume_err(volumes@, vi as int, ei as int, pw, true);
                                        }
                                    }
                                    return Err(e);
                                },
                                None => {},
                            }
                            let ghost joined = current.packed_data@;
                            let ghost key = current.key();
                            let ghost time = current.file_time;
                            let ghost attr = current.file_attr;
                            let solid = archive.main.is_solid() && extracted_any;
                            let x = match current.finish(entry, &mut unpack15, solid) {
                                Ok(x) => x,
                                Err(e) => {
                                    proof {
                                        if st {
                                            lemma_volume_err(volumes@, vi as int, ei as int, pw, true);
                                        }
                                    }
                                    return Err(e);
                                },
                            };
                            let ghost prev_files = files;
                            proof {
                                files = files.push(
                                    FileOut {
                                        name: key.0,
                                        file_time: time,
                                        file_attr: attr,
                                        is_directory: false,
                                        data: if key.1 == METHOD_STORE {
                                            Some(joined)
                                        } else {
                                            None
                                        },
                                    },
                                );
                            }
                            let meta = ExtractedEntryMeta {
                                name: x.name,
                                file_time: x.file_time,
                                file_attr: x.file_attr,
                                is_directory: false,
                            };
                            let ghost gm = meta;
                            let ghost gd = x.data;
                            let ghost xv = x@;
                            let res = emit(meta, x.data);
                            proof {
                                assert(call_ensures(sink, (gm, gd), res));
                            }
                            match res {
                                Ok(()) => {},
                                Err(e) => {
                                    proof {
                                        assert(call_ensures(sink, (gm, gd), Err::<(), Error>(e)));
                                    }
                                    return Err(e);
                                },
                            }
                            proof {
                                assert(handed_file(sink, files.last()));
                                assert forall|j: int| 0 <= j < files.len() implies handed_file(
                                    sink,
                                    #[trigger] files[j],
                                ) by {
                                    if j < files.len() - 1 {
                                        assert(files[j] == prev_files[j]);
                                    }
                                }
                                assert(handed(sink, xv));
                                let prev_done = done;
                                done = done.push(xv);
                                assert forall|j: int| 0 <= j < done.len() implies handed(
                                    sink,
                                    #[trigger] done[j],
                                ) by {
                                    if j < done.len() - 1 {
                                        assert(done[j] == prev_done[j]);
                                    }
                                }
                            }
                            extracted_any = true;
                            pending = None;
                        }
                    },
                }
            }
            ei = ei + 1;
        }
        proof {
            lemma_pieces_volume(volumes@, vi as int);
        }
        vi = vi + 1;
    }
    proof {
        assert(volumes@.subrange(0, volumes@.len() as int) =~= volumes@);
    }
    if pending.is_some() {
        return Err(Error::InvalidHeader("RAR 1.3 split entry is incomplete"));
    }
    proof {
        assert(volumes@.subrange(0, volumes@.len() as int) =~= volumes@);
    }
    Ok(())
}

} // verus!
