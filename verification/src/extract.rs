use vstd::prelude::*;

use crate::bytes::{append_bytes, copy_range};
use crate::checksum::checksum_of;
use crate::codec::Unpack15;
use crate::crypto::{comment_key, decrypt_seq, Rar13Cipher};
use crate::entry::{
    checksum_result, decrypted_result, file_comment_result, is_directory_spec, is_split_spec,
    is_stored_spec, password_view, stored_extract_result, ExtractedView,
};
use crate::decoding::{
    lemma_non_solid_ignores_state, member_spec, new_decoder_view, unpack15_spec, DecView,
};
use crate::error::Error;
use crate::rar13::{
    entries_view, field16, Archive, AuthenticityVerification, AuthenticityVerificationStatus,
    Entry, EntryView, ExtractedEntry, ExtractedEntryMeta, MHD_AV, MHD_SOLID, MHD_COMMENT, MHD_PACK_COMMENT, METHOD_STORE,
    read_u16,
};

verus! {

/// A compressed entry was extracted consistently with its header: the name,
/// time and attributes carry over, the data has the unpacked size, and its
/// checksum matches.
pub open spec fn compressed_extract_ok(e: EntryView, x: ExtractedView) -> bool {
    &&& x.name == e.name
    &&& x.data.len() == e.header.unp_size
    &&& checksum_of(x.data) == e.header.file_crc
    &&& x.file_time == e.header.file_time
    &&& x.file_attr == e.header.file_attr
    &&& !x.is_directory
}

/// What extracting one entry may give: stored entries and directories exactly
/// as `stored_extract_result`; compressed entries fail where their data cannot
/// be read or decrypted, and otherwise succeed only consistently.
pub open spec fn extract_allowed(
    input: Seq<u8>,
    e: EntryView,
    password: Option<Seq<u8>>,
    r: Result<ExtractedView, Error>,
) -> bool {
    if is_stored_spec(e.header) || is_directory_spec(e.header) {
        r == stored_extract_result(input, e, password)
    } else {
        match decrypted_result(input, e, password) {
            Err(err) => r == Err::<ExtractedView, Error>(err),
            Ok(_) => r matches Ok(x) ==> compressed_extract_ok(e, x),
        }
    }
}

/// The library's error for a decoding error.
pub open spec fn codec_error(ce: crate::codec::Error) -> Error {
    match ce {
        crate::codec::Error::InvalidData(message) => Error::InvalidHeader(message),
        crate::codec::Error::NeedMoreInput => Error::InvalidHeader("codec input is truncated"),
    }
}

/// What extracting a compressed entry gives once its packed data decoded to
/// `decoded`: the entry with that data where its checksum matches.
pub open spec fn compressed_result(e: EntryView, decoded: Result<Seq<u8>, crate::codec::Error>) -> Result<
    ExtractedView,
    Error,
> {
    match decoded {
        Err(ce) => Err(codec_error(ce)),
        Ok(b) => match checksum_result(e.header, b) {
            Err(x) => Err(x),
            Ok(()) => Ok(
                ExtractedView {
                    name: e.name,
                    data: b,
                    file_time: e.header.file_time,
                    file_attr: e.header.file_attr,
                    is_directory: false,
                },
            ),
        },
    }
}

/// Extracting one entry with a decoder in state `v` (`solid`: continuing its
/// history): the result and the decoder state after it. `None` where decoding
/// passes the machine's bit positions.
pub open spec fn entry_step(
    input: Seq<u8>,
    e: EntryView,
    password: Option<Seq<u8>>,
    v: DecView,
    solid: bool,
) -> Option<(Result<ExtractedView, Error>, DecView)> {
    if is_stored_spec(e.header) || is_directory_spec(e.header) {
        Some((stored_extract_result(input, e, password), v))
    } else {
        match decrypted_result(input, e, password) {
            Err(err) => Some((Err(err), v)),
            Ok(p) => match member_spec(v, p, e.header.unp_size as int, solid) {
                Some(Ok((v2, b))) => Some((compressed_result(e, Ok(b)), v2)),
                Some(Err(ce)) => Some((compressed_result(e, Err(ce)), v)),
                None => None,
            },
        }
    }
}

/// What extracting `entries` in order gives, with one decoder that starts in
/// state `v` and, in a solid archive, carries over once an entry was
/// extracted (`any`): every entry, or the first error.
pub open spec fn extract_all_from(
    input: Seq<u8>,
    entries: Seq<EntryView>,
    password: Option<Seq<u8>>,
    v: DecView,
    solid_archive: bool,
    any: bool,
) -> Option<Result<Seq<ExtractedView>, Error>>
    decreases entries.len(),
{
    if entries.len() == 0 {
        Some(Ok(Seq::empty()))
    } else if is_split_spec(entries[0].header) {
        Some(Err(Error::InvalidHeader("RAR 1.3 split entry requires multivolume extraction")))
    } else {
        match entry_step(input, entries[0], password, v, solid_archive && any) {
            None => None,
            Some((Err(err), _)) => Some(Err(err)),
            Some((Ok(x), v2)) => match extract_all_from(
                input,
                entries.drop_first(),
                password,
                v2,
                solid_archive,
                true,
            ) {
                Some(Ok(xs)) => Some(Ok(seq![x] + xs)),
                other => other,
            },
        }
    }
}

/// An extraction outcome with the entries `xs` extracted before it.
pub open spec fn after_views(
    xs: Seq<ExtractedView>,
    o: Option<Result<Seq<ExtractedView>, Error>>,
) -> Option<Result<Seq<ExtractedView>, Error>> {
    match o {
        Some(Ok(ys)) => Some(Ok(xs + ys)),
        other => other,
    }
}

/// Entries extracted in two stretches are extracted in one.
pub proof fn lemma_after_views_twice(
    a: Seq<ExtractedView>,
    b: Seq<ExtractedView>,
    o: Option<Result<Seq<ExtractedView>, Error>>,
)
    ensures
        after_views(a, after_views(b, o)) == after_views(a + b, o),
        after_views(Seq::empty(), o) == o,
{
    match o {
        Some(Ok(ys)) => {
            assert(a + (b + ys) =~= (a + b) + ys);
            assert(Seq::<ExtractedView>::empty() + ys =~= ys);
        },
        _ => {},
    }
}

/// The views of extracted entries.
pub open spec fn extracted_views(out: Seq<ExtractedEntry>) -> Seq<ExtractedView> {
    out.map_values(|x: ExtractedEntry| x@)
}

/// Every entry is stored or is a directory: extracting them needs no decoder.
pub open spec fn stored_or_directory_only(entries: Seq<EntryView>) -> bool {
    forall|i: int|
        0 <= i < entries.len() ==> is_stored_spec((#[trigger] entries[i]).header)
            || is_directory_spec(entries[i].header)
}

/// The sink was handed `x`, its metadata and its data, and accepted it.
pub open spec fn handed<F: FnMut(ExtractedEntryMeta, Vec<u8>) -> Result<(), Error>>(
    sink: F,
    x: ExtractedView,
) -> bool {
    exists|m: ExtractedEntryMeta, d: Vec<u8>, res: Result<(), Error>|
        #[trigger] call_ensures(sink, (m, d), res) && res is Ok && m.name@ == x.name && m.file_time
            == x.file_time && m.file_attr == x.file_attr && m.is_directory == x.is_directory
            && d@ == x.data
}

/// The sink turned down an entry with the error that `r` reports.
pub open spec fn sink_failed<F: FnMut(ExtractedEntryMeta, Vec<u8>) -> Result<(), Error>>(
    sink: F,
    r: Result<(), Error>,
) -> bool {
    r matches Err(e) && exists|m: ExtractedEntryMeta, d: Vec<u8>|
        #[trigger] call_ensures(sink, (m, d), Err::<(), Error>(e))
}

/// The view of an extraction result.
pub open spec fn result_view(r: Result<ExtractedEntry, Error>) -> Result<ExtractedView, Error> {
    match r {
        Ok(x) => Ok(x@),
        Err(e) => Err(e),
    }
}

/// What extracting every entry of a non-volume archive as stored data gives.
pub open spec fn stored_all_result(
    input: Seq<u8>,
    entries: Seq<EntryView>,
    password: Option<Seq<u8>>,
) -> Result<Seq<ExtractedView>, Error>
    decreases entries.len(),
{
    if entries.len() == 0 {
        Ok(Seq::empty())
    } else {
        match stored_all_result(input, entries.drop_last(), password) {
            Err(e) => Err(e),
            Ok(done) => if is_split_spec(entries.last().header) {
                Err(Error::InvalidHeader("RAR 1.3 split entry requires multivolume extraction"))
            } else {
                match stored_extract_result(input, entries.last(), password) {
                    Err(e) => Err(e),
                    Ok(x) => Ok(done.push(x)),
                }
            },
        }
    }
}

/// The layout of a packed archive comment: the unpacked size and the packed,
/// still encrypted bytes.
pub open spec fn packed_comment_layout(extra: Seq<u8>) -> Result<(u16, Seq<u8>), Error> {
    if extra.len() < 2 {
        Err(Error::TooShort)
    } else if field16(extra, 0) < 2 {
        Err(Error::InvalidHeader("RAR 1.3 packed archive comment is shorter than size field"))
    } else if extra.len() < 4 {
        Err(Error::TooShort)
    } else if 4 + field16(extra, 0) - 2 > extra.len() {
        Err(Error::TooShort)
    } else {
        Ok((field16(extra, 2), extra.subrange(4, 4 + field16(extra, 0) - 2)))
    }
}

/// The six bytes that open a RAR 1.3 authenticity verification block.
pub open spec fn av_prefix() -> Seq<u8> {
    seq![0x1au8, 0x69, 0x6d, 0x02, 0xda, 0xae]
}

/// What reading the authenticity verification block gives: its size and
/// cipher body.
pub open spec fn av_result(extra: Seq<u8>) -> Result<(u16, Seq<u8>), Error> {
    if extra.len() < 2 {
        Err(Error::TooShort)
    } else if field16(extra, 0) < 6 {
        Err(Error::InvalidHeader("RAR 1.3 AV payload is too short"))
    } else if 2 + field16(extra, 0) > extra.len() {
        Err(Error::TooShort)
    } else if extra.subrange(2, 8) != av_prefix() {
        Err(Error::InvalidHeader("RAR 1.3 AV prefix mismatch"))
    } else {
        Ok((field16(extra, 0), extra.subrange(8, 2 + field16(extra, 0))))
    }
}

impl Entry {
    /// Extracts an entry with a caller-held decoder; `solid` continues the
    /// decoder state of the previous member.
    pub fn extract_with_decoder(
        &self,
        archive: &Archive,
        password: Option<&[u8]>,
        unpack15: &mut Unpack15,
        solid: bool,
    ) -> (r: Result<ExtractedEntry, Error>)
        requires
            old(unpack15).wf(),
        ensures
            final(unpack15).wf(),
            extract_allowed(archive.input(), self@, password_view(password), result_view(r)),
            is_stored_spec(self@.header) || is_directory_spec(self@.header) ==> *final(unpack15)
                == *old(unpack15),
            match entry_step(
                archive.input(),
                self@,
                password_view(password),
                old(unpack15).dv(),
                solid,
            ) {
                Some((res, v2)) => result_view(r) == res && (r is Ok ==> final(unpack15).dv() == v2),
                None => true,
            },
    {
        if self.is_stored() || self.is_directory() {
            return self.extract_stored(archive, password);
        }
        let packed = match self.decrypt_packed_data(archive, password) {
            Ok(p) => p,
            Err(e) => {
                return Err(e);
            },
        };
        let data = match unpack15.decode_member(packed.as_slice(), self.header.unp_size as usize, solid) {
            Ok(d) => d,
            Err(e) => {
                return Err(Error::from_codec(e));
            },
        };
        match self.verify_checksum(data.as_slice()) {
            Ok(()) => {},
            Err(e) => {
                return Err(e);
            },
        }
        let name = copy_range(self.name.as_slice(), 0, self.name.len());
        proof {
            assert(self.name@.subrange(0, self.name@.len() as int) =~= self.name@);
        }
        Ok(
            ExtractedEntry {
                name,
                data,
                file_time: self.header.file_time,
                file_attr: self.header.file_attr,
                is_directory: false,
            },
        )
    }

    /// Extracts a single entry on its own (not as part of a solid stream).
    pub fn extract(&self, archive: &Archive, password: Option<&[u8]>) -> (r: Result<
        ExtractedEntry,
        Error,
    >)
        ensures
            extract_allowed(archive.input(), self@, password_view(password), result_view(r)),
            !is_stored_spec(self@.header) && !is_directory_spec(self@.header) ==> match decrypted_result(
                archive.input(),
                self@,
                password_view(password),
            ) {
                Err(err) => result_view(r) == Err::<ExtractedView, Error>(err),
                Ok(p) => match unpack15_spec(p, self@.header.unp_size as int) {
                    Some(d) => result_view(r) == compressed_result(self@, d),
                    None => true,
                },
            },
    {
        let mut unpack15 = Unpack15::new();
        let r = self.extract_with_decoder(archive, password, &mut unpack15, false);
        proof {
            match decrypted_result(archive.input(), self@, password_view(password)) {
                Ok(p) => {
                    lemma_non_solid_ignores_state(
                        new_decoder_view(),
                        new_decoder_view(),
                        p,
                        self@.header.unp_size as int,
                    );
                },
                Err(_) => {},
            }
        }
        r
    }
}

impl Archive {
    /// Extracts every entry as stored data; split entries need the volume set.
    pub fn extract_stored(&self, password: Option<&[u8]>) -> (r: Result<Vec<ExtractedEntry>, Error>)
        ensures
            match stored_all_result(
                self.input(),
                entries_view(self.entries@),
                password_view(password),
            ) {
                Ok(xs) => r matches Ok(v) && v@.len() == xs.len() && forall|i: int|
                    0 <= i < xs.len() ==> (#[trigger] v@[i])@ == xs[i],
                Err(e) => r matches Err(y) && y == e,
            },
    {
        let mut out: Vec<ExtractedEntry> = Vec::new();
        let mut i: usize = 0;
        let ghost ev = entries_view(self.entries@);
        while i < self.entries.len()
            invariant
                i <= self.entries@.len(),
                ev == entries_view(self.entries@),
                stored_all_result(self.input(), ev.subrange(0, i as int), password_view(password))
                    matches Ok(xs) && out@.len() == xs.len() && forall|j: int|
                    0 <= j < xs.len() ==> (#[trigger] out@[j])@ == xs[j],
            decreases self.entries@.len() - i,
        {
            let entry = &self.entries[i];
            proof {
                let s = ev.subrange(0, i + 1);
                assert(s.drop_last() =~= ev.subrange(0, i as int));
                assert(s.last() == entry@);
            }
            if entry.is_split_before() || entry.is_split_after() {
                proof {
                    lemma_stored_all_prefix_err(
                        self.input(),
                        ev,
                        (i + 1) as int,
                        password_view(password),
                    );
                }
                return Err(
                    Error::InvalidHeader("RAR 1.3 split entry requires multivolume extraction"),
                );
            }
            let x = match entry.extract_stored(self, password) {
                Ok(x) => x,
                Err(e) => {
                    proof {
                        lemma_stored_all_prefix_err(
                            self.input(),
                            ev,
                            (i + 1) as int,
                            password_view(password),
                        );
                    }
                    return Err(e);
                },
            };
            out.push(x);
            i = i + 1;
        }
        proof {
            assert(ev.subrange(0, ev.len() as int) =~= ev);
        }
        Ok(out)
    }

    /// Extracts every entry, decompressing with one decoder that carries over
    /// between members of a solid archive. An archive of stored files and
    /// directories extracts exactly as `extract_stored` does.
    pub fn extract(&self, password: Option<&[u8]>) -> (r: Result<Vec<ExtractedEntry>, Error>)
        ensures
            r matches Ok(v) ==> v@.len() == self.entries@.len() && forall|i: int|
                0 <= i < v@.len() ==> !is_split_spec(self.entries@[i].header) && extract_allowed(
                    self.input(),
                    (#[trigger] self.entries@[i])@,
                    password_view(password),
                    Ok(v@[i]@),
                ),
            stored_or_directory_only(entries_view(self.entries@)) ==> match stored_all_result(
                self.input(),
                entries_view(self.entries@),
                password_view(password),
            ) {
                Ok(xs) => r matches Ok(v) && v@.len() == xs.len() && forall|i: int|
                    0 <= i < xs.len() ==> (#[trigger] v@[i])@ == xs[i],
                Err(e) => r matches Err(y) && y == e,
            },
            match extract_all_from(
                self.input(),
                entries_view(self.entries@),
                password_view(password),
                new_decoder_view(),
                self.main.flags & MHD_SOLID != 0,
                false,
            ) {
                Some(Ok(xs)) => r matches Ok(v) && extracted_views(v@) == xs,
                Some(Err(e)) => r matches Err(y) && y == e,
                None => true,
            },
    {
        let mut out: Vec<ExtractedEntry> = Vec::new();
        let mut unpack15 = Unpack15::new();
        let mut i: usize = 0;
        let ghost ev = entries_view(self.entries@);
        let ghost all = stored_or_directory_only(ev);
        let ghost whole = extract_all_from(
            self.input(),
            ev,
            password_view(password),
            new_decoder_view(),
            self.main.flags & MHD_SOLID != 0,
            false,
        );
        proof {
            lemma_after_views_twice(Seq::empty(), Seq::empty(), whole);
            assert(ev.skip(0) =~= ev);
            assert(extracted_views(out@) =~= Seq::<ExtractedView>::empty());
        }
        while i < self.entries.len()
            invariant
                i <= self.entries@.len(),
                unpack15.wf(),
                whole == extract_all_from(
                    self.input(),
                    ev,
                    password_view(password),
                    new_decoder_view(),
                    self.main.flags & MHD_SOLID != 0,
                    false,
                ),
                whole is None || whole == after_views(
                    extracted_views(out@),
                    extract_all_from(
                        self.input(),
                        ev.skip(i as int),
                        password_view(password),
                        unpack15.dv(),
                        self.main.flags & MHD_SOLID != 0,
                        out@.len() != 0,
                    ),
                ),
                out@.len() == i,
                ev == entries_view(self.entries@),
                all == stored_or_directory_only(ev),
                forall|j: int|
                    0 <= j < i ==> !is_split_spec(self.entries@[j].header) && extract_allowed(
                        self.input(),
                        (#[trigger] self.entries@[j])@,
                        password_view(password),
                        Ok(out@[j]@),
                    ),
                all ==> (stored_all_result(
                    self.input(),
                    ev.subrange(0, i as int),
                    password_view(password),
                ) matches Ok(xs) && out@.len() == xs.len() && forall|j: int|
                    0 <= j < xs.len() ==> (#[trigger] out@[j])@ == xs[j]),
            decreases self.entries@.len() - i,
        {
            let entry = &self.entries[i];
            proof {
                let s = ev.subrange(0, i + 1);
                assert(s.drop_last() =~= ev.subrange(0, i as int));
                assert(s.last() == entry@);
                assert(ev.skip(i as int)[0] == entry@);
                assert(ev.skip(i as int).drop_first() =~= ev.skip(i + 1));
            }
            if entry.is_split_before() || entry.is_split_after() {
                proof {
                    if all {
                        lemma_stored_all_prefix_err(
                            self.input(),
                            ev,
                            (i + 1) as int,
                            password_view(password),
                        );
                    }
                }
                return Err(
                    Error::InvalidHeader("RAR 1.3 split entry requires multivolume extraction"),
                );
            }
            let solid = self.main.is_solid() && out.len() != 0;
            let ghost dv0 = unpack15.dv();
            let x = match entry.extract_with_decoder(self, password, &mut unpack15, solid) {
                Ok(x) => x,
                Err(e) => {
                    proof {
                        if all {
                            assert(is_stored_spec(ev[i as int].header) || is_directory_spec(
                                ev[i as int].header,
                            ));
                            lemma_stored_all_prefix_err(
                                self.input(),
                                ev,
                                (i + 1) as int,
                                password_view(password),
                            );
                        }
                    }
                    return Err(e);
                },
            };
            let ghost prev = out@;
            out.push(x);
            proof {
                if whole is Some {
                    let rest = extract_all_from(
                        self.input(),
                        ev.skip(i + 1),
                        password_view(password),
                        unpack15.dv(),
                        self.main.flags & MHD_SOLID != 0,
                        true,
                    );
                    lemma_after_views_twice(extracted_views(prev), seq![x@], rest);
                    assert(extracted_views(out@) =~= extracted_views(prev) + seq![x@]);
                }
                if all {
                    assert(is_stored_spec(ev[i as int].header) || is_directory_spec(
                        ev[i as int].header,
                    ));
                    let xs = stored_all_result(
                        self.input(),
                        ev.subrange(0, i + 1),
                        password_view(password),
                    )->Ok_0;
                    assert forall|j: int| 0 <= j < xs.len() implies (#[trigger] out@[j])@
                        == xs[j] by {
                        if j < i {
                            assert(out@[j] == prev[j]);
                        }
                    }
                }
            }
            i = i + 1;
        }
        proof {
            assert(ev.subrange(0, ev.len() as int) =~= ev);
            assert(ev.skip(i as int) =~= Seq::<EntryView>::empty());
            lemma_after_views_twice(extracted_views(out@), Seq::empty(), Some(Ok(Seq::empty())));
            assert(extracted_views(out@) + Seq::<ExtractedView>::empty() =~= extracted_views(out@));
        }
        Ok(out)
    }

    /// Extracts every entry and hands each, with its metadata, to `sink` as
    /// soon as it is extracted; stops at the first error, the sink's included.
    pub fn extract_to<F>(&self, password: Option<&[u8]>, sink: F) -> (r: Result<(), Error>) where
        F: FnMut(ExtractedEntryMeta, Vec<u8>) -> Result<(), Error>
        requires
            forall|m: ExtractedEntryMeta, d: Vec<u8>| call_requires(sink, (m, d)),
        ensures
            r is Ok ==> forall|i: int|
                0 <= i < self.entries@.len() ==> !is_split_spec(
                    (#[trigger] self.entries@[i]).header,
                ),
            stored_or_directory_only(entries_view(self.entries@)) && (forall|
                m: ExtractedEntryMeta,
                d: Vec<u8>,
                res: Result<(), Error>,
            | call_ensures(sink, (m, d), res) ==> res is Ok) ==> match stored_all_result(
                self.input(),
                entries_view(self.entries@),
                password_view(password),
            ) {
                Ok(_) => r is Ok,
                Err(e) => r == Err::<(), Error>(e),
            },
            stored_or_directory_only(entries_view(self.entries@)) ==> (stored_all_result(
                self.input(),
                entries_view(self.entries@),
                password_view(password),
            ) matches Ok(xs) ==> {
                &&& r is Ok ==> forall|i: int|
                    0 <= i < xs.len() ==> handed(sink, #[trigger] xs[i])
                &&& r matches Err(e) ==> exists|m: ExtractedEntryMeta, d: Vec<u8>|
                    call_ensures(sink, (m, d), Err::<(), Error>(e))
            }),
            match extract_all_from(
                self.input(),
                entries_view(self.entries@),
                password_view(password),
                new_decoder_view(),
                self.main.flags & MHD_SOLID != 0,
                false,
            ) {
                Some(Ok(xs)) => (r is Ok && forall|i: int|
                    0 <= i < xs.len() ==> handed(sink, #[trigger] xs[i])) || sink_failed(sink, r),
                Some(Err(e)) => r == Err::<(), Error>(e) || sink_failed(sink, r),
                None => true,
            },
    {
        let mut unpack15 = Unpack15::new();
        let mut extracted_any = false;
        let mut i: usize = 0;
        let ghost ev = entries_view(self.entries@);
        let mut emit = sink;
        let ghost st = stored_or_directory_only(ev);
        let ghost all = stored_or_directory_only(ev) && (forall|
            m: ExtractedEntryMeta,
            d: Vec<u8>,
            res: Result<(), Error>,
        | call_ensures(sink, (m, d), res) ==> res is Ok);
        let ghost whole = extract_all_from(
            self.input(),
            ev,
            password_view(password),
            new_decoder_view(),
            self.main.flags & MHD_SOLID != 0,
            false,
        );
        let ghost mut done: Seq<ExtractedView> = Seq::empty();
        proof {
            lemma_after_views_twice(Seq::empty(), Seq::empty(), whole);
            assert(ev.skip(0) =~= ev);
        }
        while i < self.entries.len()
            invariant
                whole == extract_all_from(
                    self.input(),
                    ev,
                    password_view(password),
                    new_decoder_view(),
                    self.main.flags & MHD_SOLID != 0,
                    false,
                ),
                whole is None || whole == after_views(
                    done,
                    extract_all_from(
                        self.input(),
                        ev.skip(i as int),
                        password_view(password),
                        unpack15.dv(),
                        self.main.flags & MHD_SOLID != 0,
                        extracted_any,
                    ),
                ),
                forall|j: int| 0 <= j < done.len() ==> handed(sink, #[trigger] done[j]),
                i <= self.entries@.len(),
                unpack15.wf(),
                ev == entries_view(self.entries@),
                emit == sink,
                all == (stored_or_directory_only(ev) && (forall|
                    m: ExtractedEntryMeta,
                    d: Vec<u8>,
                    res: Result<(), Error>,
                | call_ensures(sink, (m, d), res) ==> res is Ok)),
                forall|m: ExtractedEntryMeta, d: Vec<u8>| call_requires(sink, (m, d)),
                forall|j: int| 0 <= j < i ==> !is_split_spec((#[trigger] self.entries@[j]).header),
                st == stored_or_directory_only(ev),
                st ==> (stored_all_result(
                    self.input(),
                    ev.subrange(0, i as int),
                    password_view(password),
                ) matches Ok(xs) && forall|j: int|
                    0 <= j < xs.len() ==> handed(sink, #[trigger] xs[j])),
            decreases self.entries@.len() - i,
        {
            let entry = &self.entries[i];
            proof {
                let s = ev.subrange(0, i + 1);
                assert(s.drop_last() =~= ev.subrange(0, i as int));
                assert(s.last() == entry@);
                assert(ev.skip(i as int)[0] == entry@);
                assert(ev.skip(i as int).drop_first() =~= ev.skip(i + 1));
            }
            if entry.is_split_before() || entry.is_split_after() {
                proof {
                    if st {
                        lemma_stored_all_prefix_err(
                            self.input(),
                            ev,
                            (i + 1) as int,
                            password_view(password),
                        );
                    }
                }
                return Err(
                    Error::InvalidHeader("RAR 1.3 split entry requires multivolume extraction"),
                );
            }
            let solid = self.main.is_solid() && extracted_any;
            let x = match entry.extract_with_decoder(self, password, &mut unpack15, solid) {
                Ok(x) => x,
                Err(e) => {
                    proof {
                        if st {
                            assert(is_stored_spec(ev[i as int].header) || is_directory_spec(
                                ev[i as int].header,
                            ));
                            lemma_stored_all_prefix_err(
                                self.input(),
                                ev,
                                (i + 1) as int,
                                password_view(password),
                            );
                        }
                    }
                    return Err(e);
                },
            };
            proof {
                if st {
                    assert(is_stored_spec(ev[i as int].header) || is_directory_spec(
                        ev[i as int].header,
                    ));
                }
            }
            let meta = entry.metadata();
            let ghost xv = x@;
            let ghost gm = meta;
            let ghost gd = x.data;
            let ghost prev = stored_all_result(
                self.input(),
                ev.subrange(0, i as int),
                password_view(password),
            );
            let res = emit(meta, x.data);
            proof {
                assert(call_ensures(sink, (gm, gd), res));
            }
            match res {
                Ok(()) => {},
                Err(e) => {
                    proof {
                        assert(call_ensures(sink, (gm, gd), Err::<(), Error>(e)));
                    }
                    return Err(e);
                },
            }
            proof {
                assert(handed(sink, xv));
                if whole is Some {
                    let rest = extract_all_from(
                        self.input(),
                        ev.skip(i + 1),
                        password_view(password),
                        unpack15.dv(),
                        self.main.flags & MHD_SOLID != 0,
                        true,
                    );
                    lemma_after_views_twice(done, seq![xv], rest);
                    assert(done + seq![xv] =~= done.push(xv));
                }
                done = done.push(xv);
            }
            proof {
                if st {
                    let xs = stored_all_result(
                        self.input(),
                        ev.subrange(0, i + 1),
                        password_view(password),
                    )->Ok_0;
                    assert(is_stored_spec(ev[i as int].header) || is_directory_spec(
                        ev[i as int].header,
                    ));
                    assert(xv == stored_extract_result(
                        self.input(),
                        entry@,
                        password_view(password),
                    )->Ok_0);
                    assert(gm.name@ == xv.name);
                    assert(gm.is_directory == xv.is_directory);
                    assert(gd@ == xv.data);
                    assert(handed(sink, xv));
                    assert forall|j: int| 0 <= j < xs.len() implies handed(
                        sink,
                        #[trigger] xs[j],
                    ) by {
                        if j < xs.len() - 1 {
                            assert(xs[j] == prev->Ok_0[j]);
                        }
                    }
                }
            }
            extracted_any = true;
            i = i + 1;
        }
        proof {
            assert(ev.subrange(0, ev.len() as int) =~= ev);
            assert(ev.skip(i as int) =~= Seq::<EntryView>::empty());
            assert(done + Seq::<ExtractedView>::empty() =~= done);
        }
        Ok(())
    }

    /// The archive comment: stored plainly, or packed and encrypted under the
    /// fixed comment key.
    pub fn archive_comment(&self) -> (r: Result<Option<Vec<u8>>, Error>)
        ensures
            !(self.main.flags & MHD_COMMENT != 0) ==> r matches Ok(None),
            self.main.flags & MHD_COMMENT != 0 && !(self.main.flags & MHD_PACK_COMMENT != 0)
                ==> match file_comment_result(self.main.extra@) {
                Ok(c) => r matches Ok(Some(v)) && v@ == c,
                Err(e) => r matches Err(x) && x == e,
            },
            self.main.flags & MHD_COMMENT != 0 && self.main.flags & MHD_PACK_COMMENT != 0
                ==> match packed_comment_layout(self.main.extra@) {
                Ok((size, packed)) => match unpack15_spec(
                    decrypt_seq(comment_key(), packed),
                    size as int,
                ) {
                    Some(Ok(b)) => r matches Ok(Some(v)) && v@ == b,
                    Some(Err(ce)) => r matches Err(x) && x == codec_error(ce),
                    None => (r matches Ok(Some(v)) && v@.len() == size) || (r matches Err(x)
                        && x is InvalidHeader),
                },
                Err(e) => r matches Err(x) && x == e,
            },
    {
        if !self.main.has_archive_comment() {
            return Ok(None);
        }
        let extra = self.main.extra.as_slice();
        let length = match read_u16(extra, 0) {
            Ok(l) => l as usize,
            Err(e) => {
                return Err(e);
            },
        };
        if self.main.has_packed_comment() {
            if length < 2 {
                return Err(
                    Error::InvalidHeader(
                        "RAR 1.3 packed archive comment is shorter than size field",
                    ),
                );
            }
            let unpacked_len = match read_u16(extra, 2) {
                Ok(l) => l as usize,
                Err(e) => {
                    return Err(e);
                },
            };
            let packed_end = 4 + (length - 2);
            if packed_end > extra.len() {
                return Err(Error::TooShort);
            }
            let mut packed = copy_range(extra, 4, packed_end);
            let mut cipher = Rar13Cipher::new_comment();
            cipher.decrypt_in_place(&mut packed);
            return match crate::codec::unpack15_decode(packed.as_slice(), unpacked_len) {
                Ok(v) => Ok(Some(v)),
                Err(e) => Err(Error::from_codec(e)),
            };
        }
        if 2 + length > extra.len() {
            return Err(Error::TooShort);
        }
        Ok(Some(copy_range(extra, 2, 2 + length)))
    }

    /// The authenticity verification block, checked for its size and prefix.
    pub fn authenticity_verification(&self) -> (r: Result<Option<AuthenticityVerification>, Error>)
        ensures
            !(self.main.flags & MHD_AV != 0) ==> r matches Ok(None),
            self.main.flags & MHD_AV != 0 ==> match av_result(self.main.extra@) {
                Ok((size, body)) => r matches Ok(Some(av)) && av.size == size && av.prefix@
                    == av_prefix() && av.cipher_body@ == body,
                Err(e) => r matches Err(x) && x == e,
            },
    {
        if !self.main.has_authenticity_verification() {
            return Ok(None);
        }
        let extra = self.main.extra.as_slice();
        let size = match read_u16(extra, 0) {
            Ok(s) => s,
            Err(e) => {
                return Err(e);
            },
        };
        if size < 6 {
            return Err(Error::InvalidHeader("RAR 1.3 AV payload is too short"));
        }
        let payload_end = 2 + size as usize;
        if payload_end > extra.len() {
            return Err(Error::TooShort);
        }
        let prefix: [u8; 6] = [extra[2], extra[3], extra[4], extra[5], extra[6], extra[7]];
        let matches = prefix[0] == 0x1a && prefix[1] == 0x69 && prefix[2] == 0x6d && prefix[3]
            == 0x02 && prefix[4] == 0xda && prefix[5] == 0xae;
        proof {
            let sub = self.main.extra@.subrange(2, 8);
            if matches {
                assert(sub =~= av_prefix());
                assert(prefix@ =~= av_prefix());
            } else {
                if sub == av_prefix() {
                    assert(sub[0] == extra@[2]);
                    assert(sub[1] == extra@[3]);
                    assert(sub[2] == extra@[4]);
                    assert(sub[3] == extra@[5]);
                    assert(sub[4] == extra@[6]);
                    assert(sub[5] == extra@[7]);
                }
            }
        }
        if !matches {
            return Err(Error::InvalidHeader("RAR 1.3 AV prefix mismatch"));
        }
        Ok(
            Some(
                AuthenticityVerification {
                    size,
                    prefix,
                    cipher_body: copy_range(extra, 8, payload_end),
                },
            ),
        )
    }

    /// Whether the authenticity verification block is present and well formed.
    /// Its cipher body is not checked.
    pub fn verify_authenticity_verification(&self) -> (r: Result<
        AuthenticityVerificationStatus,
        Error,
    >)
        ensures
            !(self.main.flags & MHD_AV != 0) ==> r == Ok::<
                AuthenticityVerificationStatus,
                Error,
            >(AuthenticityVerificationStatus::Absent),
            self.main.flags & MHD_AV != 0 ==> match av_result(self.main.extra@) {
                Ok(_) => r == Ok::<AuthenticityVerificationStatus, Error>(
                    AuthenticityVerificationStatus::StructurallyValid,
                ),
                Err(e) => r matches Err(x) && x == e,
            },
    {
        match self.authenticity_verification() {
            Ok(Some(_)) => Ok(AuthenticityVerificationStatus::StructurallyValid),
            Ok(None) => Ok(AuthenticityVerificationStatus::Absent),
            Err(e) => Err(e),
        }
    }
}

/// Once a prefix of the entries fails, the whole extraction fails the same way.
proof fn lemma_stored_all_prefix_err(
    input: Seq<u8>,
    entries: Seq<EntryView>,
    k: int,
    password: Option<Seq<u8>>,
)
    requires
        0 <= k <= entries.len(),
        stored_all_result(input, entries.subrange(0, k), password) is Err,
    ensures
        stored_all_result(input, entries, password) == stored_all_result(
            input,
            entries.subrange(0, k),
            password,
        ),
    decreases entries.len() - k,
{
    if k == entries.len() {
        assert(entries.subrange(0, k) =~= entries);
    } else {
        let s = entries.subrange(0, k + 1);
        assert(s.drop_last() =~= entries.subrange(0, k));
        lemma_stored_all_prefix_err(input, entries, k + 1, password);
    }
}

} // verus!
