use vstd::prelude::*;

use crate::bytes::{le16_bytes, le32_bytes, lemma_le16_roundtrip, lemma_le32_roundtrip};
use crate::checksum::checksum_of;
use crate::crypto::{encrypt_seq, lemma_decrypt_encrypt, password_key};
use crate::extract::{packed_comment_layout, stored_all_result};
use crate::entry::{
    checksum_result, is_directory_spec, is_encrypted_spec, is_split_spec, password_view,
    stored_data_result, stored_extract_result, ExtractedView, decrypted_result,
};
use crate::detect::{first_signature, rar13_signature, signature_at};
use crate::error::Error;
use crate::rar13::{
    archive_result, entries_result, entries_view, field16, field32, file_header_result, Archive,
    ArchiveView, EntryView,
    FileHeader, DEFAULT_UNP_VER, LHD_COMMENT, LHD_PASSWORD, LHD_SPLIT_AFTER, LHD_SPLIT_BEFORE,
    METHOD_STORE, MHD_COMMENT, MHD_PACK_COMMENT, MHD_VOLUME, SFX_SCAN_LIMIT,
};
use crate::volumes::{
    archive_pieces, split_scan, split_step, volume_files, volume_pieces, FileOut, PendingView,
    SplitScan,
};
use crate::writer::{
    comment_extra_ok, main_flags, split_chunks, split_flags, split_result, volume_bytes,
    comment_extra_result, entry_flags, file_comment_extra, file_entry_result, file_record_bytes,
    main_header_bytes, opt_view, stored_body, stored_record, stored_records, StoredEntry,
    compressed_record, compressed_records, FileEntry,
};

verus! {

/// The 21 fixed header bytes of a file record.
spec fn record_head(
    name_len: u8,
    unp_size: u32,
    crc: u16,
    pack_size: u32,
    file_time: u32,
    file_attr: u8,
    flags: u8,
    unp_ver: u8,
    method: u8,
    head_size: u16,
) -> Seq<u8> {
    le32_bytes(pack_size) + le32_bytes(unp_size) + le16_bytes(crc) + le16_bytes(head_size)
        + le32_bytes(file_time) + seq![file_attr, flags, unp_ver, name_len, method]
}

/// A file record read back: its header fields, name and header extension,
/// and where its packed data lies.
#[verifier::spinoff_prover]
#[verifier::rlimit(60)]
proof fn lemma_record_parses(
    name: Seq<u8>,
    unp_size: u32,
    crc: u16,
    packed: Seq<u8>,
    file_time: u32,
    file_attr: u8,
    flags: u8,
    unp_ver: u8,
    method: u8,
    extra: Seq<u8>,
    rest: Seq<u8>,
)
    requires
        name.len() <= 255,
        packed.len() <= u32::MAX,
        21 + name.len() + extra.len() <= 65535,
    ensures
        ({
            let rec = file_record_bytes(
                name,
                unp_size,
                crc,
                packed,
                file_time,
                file_attr,
                flags,
                unp_ver,
                method,
                extra,
            );
            let head_size = (21 + name.len() + extra.len()) as u16;
            &&& rec.len() == 21 + name.len() + extra.len() + packed.len()
            &&& rec.subrange(head_size as int, rec.len() as int) == packed
            &&& file_header_result(rec + rest) == Ok::<(FileHeader, Seq<u8>, Seq<u8>), Error>(
                (
                    FileHeader {
                        flags,
                        pack_size: packed.len() as u32,
                        unp_size,
                        file_crc: crc,
                        file_time,
                        file_attr,
                        unp_ver,
                        method,
                        head_size,
                    },
                    name,
                    extra,
                ),
            )
        }),
{
    let head_size = (21 + name.len() + extra.len()) as u16;
    let pack_size = packed.len() as u32;
    let h = record_head(
        name.len() as u8,
        unp_size,
        crc,
        pack_size,
        file_time,
        file_attr,
        flags,
        unp_ver,
        method,
        head_size,
    );
    let rec = file_record_bytes(
        name,
        unp_size,
        crc,
        packed,
        file_time,
        file_attr,
        flags,
        unp_ver,
        method,
        extra,
    );
    assert(rec =~= h + name + extra + packed);
    let s = rec + rest;
    assert(h.len() == 21);
    assert(s.subrange(0, 21) =~= h);
    assert(s.subrange(21, 21 + name.len() as int) =~= name);
    assert(s.subrange(21 + name.len() as int, head_size as int) =~= extra);
    assert(rec.subrange(head_size as int, rec.len() as int) =~= packed);
    lemma_le32_roundtrip(pack_size);
    lemma_le32_roundtrip(unp_size);
    lemma_le16_roundtrip(crc);
    lemma_le16_roundtrip(head_size);
    lemma_le32_roundtrip(file_time);
    assert(field32(s, 0) == pack_size) by {
        assert(s[0] == h[0] && s[1] == h[1] && s[2] == h[2] && s[3] == h[3]);
    }
    assert(field32(s, 4) == unp_size) by {
        assert(s[4] == h[4] && s[5] == h[5] && s[6] == h[6] && s[7] == h[7]);
    }
    assert(field16(s, 8) == crc) by {
        assert(s[8] == h[8] && s[9] == h[9]);
    }
    assert(field16(s, 10) == head_size) by {
        assert(s[10] == h[10] && s[11] == h[11]);
    }
    assert(field32(s, 12) == file_time) by {
        assert(s[12] == h[12] && s[13] == h[13] && s[14] == h[14] && s[15] == h[15]);
    }
    assert(s[16] == file_attr && s[17] == flags && s[18] == unp_ver && s[19] == name.len()
        && s[20] == method) by {
        assert(s[16] == h[16] && s[17] == h[17] && s[18] == h[18] && s[19] == h[19] && s[20]
            == h[20]);
    }
}


/// A stored entry the writer accepts and whose header size fits its field.
pub open spec fn stored_entry_fits(e: StoredEntry) -> bool {
    &&& file_entry_result(e.name@, e.data@) is Ok
    &&& comment_extra_result(opt_view(e.file_comment)) is Ok
    &&& 21 + e.name@.len() + file_comment_extra(opt_view(e.file_comment)).len() <= 65535
}

/// The header that reading back the record of a stored entry gives.
pub open spec fn stored_header(e: StoredEntry, solid: bool) -> FileHeader {
    FileHeader {
        flags: entry_flags(e.password is Some, e.file_comment is Some, solid),
        pack_size: e.data@.len() as u32,
        unp_size: e.data@.len() as u32,
        file_crc: checksum_of(e.data@),
        file_time: e.file_time,
        file_attr: e.file_attr,
        unp_ver: DEFAULT_UNP_VER,
        method: METHOD_STORE,
        head_size: (21 + e.name@.len() + file_comment_extra(opt_view(e.file_comment)).len()) as u16,
    }
}

/// The entries that reading back the records of stored entries written from
/// offset `base` on gives.
pub open spec fn stored_views(entries: Seq<StoredEntry>, solid: bool, base: int) -> Seq<EntryView>
    decreases entries.len(),
{
    if entries.len() == 0 {
        Seq::empty()
    } else {
        let e = entries[0];
        let h = stored_header(e, solid);
        let start = base + h.head_size;
        seq![
            EntryView {
                header: h,
                name: e.name@,
                extra: file_comment_extra(opt_view(e.file_comment)),
                start,
                end: start + e.data@.len(),
            },
        ] + stored_views(
            entries.drop_first(),
            solid,
            base + stored_record(e, solid).len(),
        )
    }
}

/// The records of a sequence of stored entries are the first record, then
/// the records of the others.
#[verifier::spinoff_prover]
proof fn lemma_records_front(entries: Seq<StoredEntry>, solid: bool)
    requires
        entries.len() > 0,
    ensures
        stored_records(entries, solid) == stored_record(entries[0], solid) + stored_records(
            entries.drop_first(),
            solid,
        ),
    decreases entries.len(),
{
    if entries.len() > 1 {
        lemma_records_front(entries.drop_last(), solid);
        assert(entries.drop_last().drop_first() =~= entries.drop_first().drop_last());
        assert(stored_record(entries[0], solid) + (stored_records(entries.drop_first().drop_last(), solid)
            + stored_record(entries.last(), solid)) =~= stored_record(entries[0], solid)
            + stored_records(entries.drop_last().drop_first(), solid) + stored_record(
            entries.last(),
            solid,
        ));
    } else {
        assert(entries.drop_last() =~= Seq::<StoredEntry>::empty());
        assert(entries.drop_first() =~= Seq::<StoredEntry>::empty());
        assert(Seq::<u8>::empty() + stored_record(entries[0], solid) =~= stored_record(
            entries[0],
            solid,
        ) + Seq::<u8>::empty());
    }
}

/// The record of a stored entry parses back to its header, name and comment
/// extension, with its body behind them.
#[verifier::spinoff_prover]
proof fn lemma_stored_record_parses(e: StoredEntry, solid: bool, rest: Seq<u8>)
    requires
        stored_entry_fits(e),
    ensures
        ({
            let rec = stored_record(e, solid);
            let h = stored_header(e, solid);
            &&& rec.len() == h.head_size + e.data@.len()
            &&& h.pack_size == e.data@.len()
            &&& rec.subrange(h.head_size as int, rec.len() as int) == stored_body(e)
            &&& file_header_result(rec + rest) == Ok::<(FileHeader, Seq<u8>, Seq<u8>), Error>(
                (h, e.name@, file_comment_extra(opt_view(e.file_comment))),
            )
        }),
{
    lemma_record_parses(
        e.name@,
        e.data@.len() as u32,
        checksum_of(e.data@),
        stored_body(e),
        e.file_time,
        e.file_attr,
        entry_flags(e.password is Some, e.file_comment is Some, solid),
        DEFAULT_UNP_VER,
        METHOD_STORE,
        file_comment_extra(opt_view(e.file_comment)),
        rest,
    );
}

/// One step of reading entries: a header that parses at `p`, with its data
/// inside the input, gives its entry before those that follow its data.
#[verifier::spinoff_prover]
proof fn lemma_entries_step(
    a: Seq<u8>,
    p: int,
    h: FileHeader,
    name: Seq<u8>,
    extra: Seq<u8>,
)
    requires
        0 <= p,
        p + 21 <= a.len(),
        a.len() <= usize::MAX,
        file_header_result(a.subrange(p, a.len() as int)) == Ok::<
            (FileHeader, Seq<u8>, Seq<u8>),
            Error,
        >((h, name, extra)),
        p + h.head_size + h.pack_size <= a.len(),
    ensures
        entries_result(a, p, 0) == match entries_result(a, p + h.head_size + h.pack_size, 0) {
            Ok(r) => Ok::<Seq<EntryView>, Error>(
                seq![
                    EntryView {
                        header: h,
                        name,
                        extra,
                        start: p + h.head_size,
                        end: p + h.head_size + h.pack_size,
                    },
                ] + r,
            ),
            Err(e) => Err(e),
        },
{
}

/// Stored records behind any prefix parse back, from the prefix's end on, to
/// the entries of `stored_views`.
#[verifier::rlimit(60)]
#[verifier::spinoff_prover]
proof fn lemma_stored_entries_parse(prefix: Seq<u8>, entries: Seq<StoredEntry>, solid: bool)
    requires
        forall|i: int| 0 <= i < entries.len() ==> stored_entry_fits(#[trigger] entries[i]),
        prefix.len() + stored_records(entries, solid).len() <= usize::MAX,
    ensures
        entries_result(prefix + stored_records(entries, solid), prefix.len() as int, 0) == Ok::<
            Seq<EntryView>,
            Error,
        >(stored_views(entries, solid, prefix.len() as int)),
    decreases entries.len(),
{
    let a = prefix + stored_records(entries, solid);
    let p = prefix.len() as int;
    if entries.len() == 0 {
        assert(a.len() == p);
    } else {
        let e = entries[0];
        let rest = entries.drop_first();
        let rec = stored_record(e, solid);
        let tail = stored_records(rest, solid);
        let h = stored_header(e, solid);
        let x = file_comment_extra(opt_view(e.file_comment));
        lemma_records_front(entries, solid);
        assert(stored_entry_fits(e));
        lemma_stored_record_parses(e, solid, tail);
        assert(a.subrange(p, a.len() as int) =~= rec + tail);
        assert(a =~= (prefix + rec) + tail);
        assert forall|i: int| 0 <= i < rest.len() implies stored_entry_fits(#[trigger] rest[i]) by {
            assert(rest[i] == entries[i + 1]);
        }
        lemma_stored_entries_parse(prefix + rec, rest, solid);
        lemma_entries_step(a, p, h, e.name@, x);
        assert((prefix + rec).len() == p + h.head_size + h.pack_size);
    }
}

/// Reading back a written stored archive finds, at offset 0, the main header
/// that was written and one entry per stored entry, with the header fields,
/// name and comment extension the writer put there and the entry's body as
/// its data.
#[verifier::spinoff_prover]
#[verifier::rlimit(60)]
pub proof fn lemma_stored_archive_parses(
    flags: u8,
    extra: Seq<u8>,
    entries: Seq<StoredEntry>,
    solid: bool,
)
    requires
        7 + extra.len() <= 65535,
        forall|i: int| 0 <= i < entries.len() ==> stored_entry_fits(#[trigger] entries[i]),
        (main_header_bytes(flags, extra) + stored_records(entries, solid)).len() <= usize::MAX,
    ensures
        ({
            let input = main_header_bytes(flags, extra) + stored_records(entries, solid);
            archive_result(input) == Ok::<ArchiveView, Error>(
                ArchiveView {
                    sfx_offset: 0,
                    flags,
                    head_size: (7 + extra.len()) as u16,
                    extra,
                    entries: stored_views(entries, solid, 7 + extra.len() as int),
                    data: input,
                },
            )
        }),
{
    let hdr = main_header_bytes(flags, extra);
    let input = hdr + stored_records(entries, solid);
    let head_size = (7 + extra.len()) as u16;
    assert(hdr.len() == 7 + extra.len());
    assert(input.subrange(0, 4) =~= rar13_signature());
    assert(signature_at(input, 0));
    assert(first_signature(input, SFX_SCAN_LIMIT as int) == Some(0int));
    assert(input.subrange(0, input.len() as int) =~= input);
    lemma_le16_roundtrip(head_size);
    assert(field16(input, 4) == head_size) by {
        assert(input[4] == le16_bytes(head_size)[0]);
        assert(input[5] == le16_bytes(head_size)[1]);
    }
    assert(input[6] == flags);
    assert(input.subrange(7, head_size as int) =~= extra);
    lemma_stored_entries_parse(hdr, entries, solid);
}


/// Where the bodies of stored records behind a prefix lie, and what the
/// entries read back hold.
#[verifier::rlimit(60)]
#[verifier::spinoff_prover]
proof fn lemma_stored_bodies(prefix: Seq<u8>, entries: Seq<StoredEntry>, solid: bool)
    requires
        forall|i: int| 0 <= i < entries.len() ==> stored_entry_fits(#[trigger] entries[i]),
    ensures
        stored_views(entries, solid, prefix.len() as int).len() == entries.len(),
        forall|i: int|
            0 <= i < entries.len() ==> {
                let v = #[trigger] stored_views(entries, solid, prefix.len() as int)[i];
                &&& prefix.len() <= v.start <= v.end <= (prefix + stored_records(entries, solid)).len()
                &&& (prefix + stored_records(entries, solid)).subrange(v.start, v.end) == stored_body(entries[i])
                &&& v.header == stored_header(entries[i], solid)
                &&& v.name == entries[i].name@
                &&& v.extra == file_comment_extra(opt_view(entries[i].file_comment))
            },
    decreases entries.len(),
{
    let a = prefix + stored_records(entries, solid);
    let p = prefix.len() as int;
    if entries.len() > 0 {
        let e = entries[0];
        let rest = entries.drop_first();
        let rec = stored_record(e, solid);
        let tail = stored_records(rest, solid);
        let h = stored_header(e, solid);
        lemma_records_front(entries, solid);
        assert(stored_entry_fits(e));
        lemma_stored_record_parses(e, solid, tail);
        assert(a =~= (prefix + rec) + tail);
        assert forall|i: int| 0 <= i < rest.len() implies stored_entry_fits(#[trigger] rest[i]) by {
            assert(rest[i] == entries[i + 1]);
        }
        lemma_stored_bodies(prefix + rec, rest, solid);
        let views = stored_views(entries, solid, p);
        let tail_views = stored_views(rest, solid, (prefix + rec).len() as int);
        assert(views == seq![views[0]] + tail_views);
        assert forall|i: int| 0 <= i < entries.len() implies {
            let v = #[trigger] stored_views(entries, solid, p)[i];
            &&& p <= v.start <= v.end <= a.len()
            &&& a.subrange(v.start, v.end) == stored_body(entries[i])
            &&& v.header == stored_header(entries[i], solid)
            &&& v.name == entries[i].name@
            &&& v.extra == file_comment_extra(opt_view(entries[i].file_comment))
        } by {
            if i == 0 {
                assert(a.subrange(p + h.head_size, p + h.head_size + h.pack_size) =~= rec.subrange(
                    h.head_size as int,
                    rec.len() as int,
                ));
            } else {
                assert(views[i] == tail_views[i - 1]);
                assert(rest[i - 1] == entries[i]);
            }
        }
    }
}


/// The password and comment bits of written file flags say whether the entry
/// has a password and a comment; the split bits are clear.
#[verifier::spinoff_prover]
proof fn lemma_entry_flag_bits(p: bool, c: bool, solid: bool)
    ensures
        (entry_flags(p, c, solid) & LHD_PASSWORD != 0) == p,
        (entry_flags(p, c, solid) & LHD_COMMENT != 0) == c,
        entry_flags(p, c, solid) & LHD_SPLIT_BEFORE == 0,
        entry_flags(p, c, solid) & LHD_SPLIT_AFTER == 0,
{
    let a: u8 = if p {
        4u8
    } else {
        0u8
    };
    let b: u8 = if c {
        8u8
    } else {
        0u8
    };
    let d: u8 = if solid {
        16u8
    } else {
        0u8
    };
    assert(entry_flags(p, c, solid) == a | b | d);
    assert(((a | b | d) & 4u8 != 0) == (a == 4u8) && ((a | b | d) & 8u8 != 0) == (b == 8u8) && (a
        | b | d) & 1u8 == 0 && (a | b | d) & 2u8 == 0) by (bit_vector)
        requires
            a == 0u8 || a == 4u8,
            b == 0u8 || b == 8u8,
            d == 0u8 || d == 16u8,
    ;
}

/// Every entry of a written stored archive reads back as written: its stored
/// data, decrypted with the password it was written with, is the data that
/// was written; the data passes the checksum; the entry is not split; its
/// password and comment flags say whether it was written with a password and
/// a comment, and its comment reads back; and unless its attributes mark a
/// directory, extracting it gives its name, data, time and attributes.
#[verifier::spinoff_prover]
#[verifier::rlimit(60)]
pub proof fn lemma_stored_entry_reads_back(
    flags: u8,
    extra: Seq<u8>,
    entries: Seq<StoredEntry>,
    solid: bool,
    i: int,
)
    requires
        7 + extra.len() <= 65535,
        forall|j: int| 0 <= j < entries.len() ==> stored_entry_fits(#[trigger] entries[j]),
        (main_header_bytes(flags, extra) + stored_records(entries, solid)).len() <= usize::MAX,
        0 <= i < entries.len(),
    ensures
        ({
            let input = main_header_bytes(flags, extra) + stored_records(entries, solid);
            let e = entries[i];
            let v = stored_views(entries, solid, 7 + extra.len() as int)[i];
            let password = password_view(e.password);
            &&& archive_result(input) matches Ok(a) && a.entries.len() == entries.len()
                && a.entries[i] == v
            &&& v.name == e.name@
            &&& v.header.file_time == e.file_time
            &&& v.header.file_attr == e.file_attr
            &&& v.header.unp_size == e.data@.len()
            &&& stored_data_result(input, v, password) == Ok::<Seq<u8>, Error>(e.data@)
            &&& checksum_result(v.header, e.data@) == Ok::<(), Error>(())
            &&& !is_split_spec(v.header)
            &&& is_encrypted_spec(v.header) == e.password is Some
            &&& (v.header.flags & LHD_COMMENT != 0) == e.file_comment is Some
            &&& e.file_comment matches Some(c) ==> crate::entry::file_comment_result(v.extra)
                == Ok::<Seq<u8>, Error>(c@)
            &&& is_directory_spec(v.header) == (e.file_attr & 0x10 != 0)
            &&& is_directory_spec(v.header) ==> stored_extract_result(input, v, password) == Ok::<
                ExtractedView,
                Error,
            >(
                ExtractedView {
                    name: e.name@,
                    data: Seq::empty(),
                    file_time: e.file_time,
                    file_attr: e.file_attr,
                    is_directory: true,
                },
            )
            &&& !is_directory_spec(v.header) ==> stored_extract_result(input, v, password) == Ok::<
                ExtractedView,
                Error,
            >(
                ExtractedView {
                    name: e.name@,
                    data: e.data@,
                    file_time: e.file_time,
                    file_attr: e.file_attr,
                    is_directory: false,
                },
            )
        }),
{
    let hdr = main_header_bytes(flags, extra);
    let input = hdr + stored_records(entries, solid);
    let e = entries[i];
    assert(stored_entry_fits(e));
    assert(hdr.len() == 7 + extra.len());
    lemma_stored_archive_parses(flags, extra, entries, solid);
    lemma_stored_bodies(hdr, entries, solid);
    let v = stored_views(entries, solid, 7 + extra.len() as int)[i];
    lemma_entry_flag_bits(e.password is Some, e.file_comment is Some, solid);
    match e.password {
        Some(p) => {
            lemma_decrypt_encrypt(password_key(p@), e.data@);
        },
        None => {},
    }
    match e.file_comment {
        Some(c) => {
            let x = file_comment_extra(opt_view(e.file_comment));
            lemma_le16_roundtrip(c@.len() as u16);
            assert(x.subrange(2, 2 + c@.len() as int) =~= c@);
        },
        None => {},
    }
}


/// What extracting written stored entries gives back: each entry's name,
/// time and attributes, and its data, except that an entry whose attributes
/// mark a directory comes back as a directory without data.
pub open spec fn extracted_views(entries: Seq<StoredEntry>) -> Seq<ExtractedView> {
    Seq::new(
        entries.len(),
        |i: int|
            ExtractedView {
                name: entries[i].name@,
                data: if entries[i].file_attr & 0x10 != 0 {
                    Seq::empty()
                } else {
                    entries[i].data@
                },
                file_time: entries[i].file_time,
                file_attr: entries[i].file_attr,
                is_directory: entries[i].file_attr & 0x10 != 0,
            },
    )
}

/// Extracting the first `k` entries of a written stored archive.
#[verifier::spinoff_prover]
#[verifier::rlimit(60)]
proof fn lemma_extracts_prefix(
    flags: u8,
    extra: Seq<u8>,
    entries: Seq<StoredEntry>,
    solid: bool,
    password: Option<Seq<u8>>,
    k: int,
)
    requires
        7 + extra.len() <= 65535,
        forall|j: int| 0 <= j < entries.len() ==> stored_entry_fits(#[trigger] entries[j]),
        (main_header_bytes(flags, extra) + stored_records(entries, solid)).len() <= usize::MAX,
        forall|j: int|
            0 <= j < entries.len() ==> ((#[trigger] entries[j]).password matches Some(p)
                ==> password == Some(p@)),
        0 <= k <= entries.len(),
    ensures
        stored_all_result(
            main_header_bytes(flags, extra) + stored_records(entries, solid),
            stored_views(entries, solid, 7 + extra.len() as int).subrange(0, k),
            password,
        ) == Ok::<Seq<ExtractedView>, Error>(extracted_views(entries).subrange(0, k)),
    decreases k,
{
    let input = main_header_bytes(flags, extra) + stored_records(entries, solid);
    let views = stored_views(entries, solid, 7 + extra.len() as int);
    if k == 0 {
        assert(views.subrange(0, 0) =~= Seq::<EntryView>::empty());
        assert(extracted_views(entries).subrange(0, 0) =~= Seq::<ExtractedView>::empty());
    } else {
        lemma_extracts_prefix(flags, extra, entries, solid, password, k - 1);
        lemma_stored_entry_reads_back(flags, extra, entries, solid, k - 1);
        lemma_stored_bodies(main_header_bytes(flags, extra), entries, solid);
        let e = entries[k - 1];
        let v = views[k - 1];
        if !is_directory_spec(v.header) {
            assert(stored_extract_result(input, v, password) == stored_extract_result(
                input,
                v,
                password_view(e.password),
            ));
        }
        let s = views.subrange(0, k);
        assert(s.drop_last() =~= views.subrange(0, k - 1));
        assert(s.last() == v);
        assert(extracted_views(entries).subrange(0, k - 1).push(extracted_views(entries)[k - 1])
            =~= extracted_views(entries).subrange(0, k));
    }
}

/// Extracting a written stored archive with a password that every encrypted
/// entry was written with gives back every entry as written, in order:
/// entries whose attributes mark a directory come back as directories.
#[verifier::spinoff_prover]
#[verifier::rlimit(60)]
pub proof fn lemma_stored_archive_extracts(
    flags: u8,
    extra: Seq<u8>,
    entries: Seq<StoredEntry>,
    solid: bool,
    password: Option<Seq<u8>>,
)
    requires
        7 + extra.len() <= 65535,
        forall|j: int| 0 <= j < entries.len() ==> stored_entry_fits(#[trigger] entries[j]),
        (main_header_bytes(flags, extra) + stored_records(entries, solid)).len() <= usize::MAX,
        forall|j: int|
            0 <= j < entries.len() ==> ((#[trigger] entries[j]).password matches Some(p)
                ==> password == Some(p@)),
    ensures
        ({
            let input = main_header_bytes(flags, extra) + stored_records(entries, solid);
            archive_result(input) matches Ok(a) && stored_all_result(input, a.entries, password)
                == Ok::<Seq<ExtractedView>, Error>(extracted_views(entries))
        }),
{
    let views = stored_views(entries, solid, 7 + extra.len() as int);
    lemma_stored_archive_parses(flags, extra, entries, solid);
    lemma_stored_bodies(main_header_bytes(flags, extra), entries, solid);
    lemma_extracts_prefix(flags, extra, entries, solid, password, entries.len() as int);
    assert(views.subrange(0, views.len() as int) =~= views);
    assert(extracted_views(entries).subrange(0, entries.len() as int) =~= extracted_views(entries));
}


/// An archive of one file record behind a main header without extension reads
/// back as that header and that one entry.
#[verifier::spinoff_prover]
#[verifier::rlimit(60)]
pub proof fn lemma_single_record_parses(
    main_flags: u8,
    name: Seq<u8>,
    unp_size: u32,
    crc: u16,
    packed: Seq<u8>,
    file_time: u32,
    file_attr: u8,
    flags: u8,
    unp_ver: u8,
    method: u8,
)
    requires
        name.len() <= 255,
        packed.len() <= u32::MAX,
        (main_header_bytes(main_flags, Seq::empty()) + file_record_bytes(
            name,
            unp_size,
            crc,
            packed,
            file_time,
            file_attr,
            flags,
            unp_ver,
            method,
            Seq::empty(),
        )).len() <= usize::MAX,
    ensures
        ({
            let input = main_header_bytes(main_flags, Seq::empty()) + file_record_bytes(
                name,
                unp_size,
                crc,
                packed,
                file_time,
                file_attr,
                flags,
                unp_ver,
                method,
                Seq::empty(),
            );
            let start = 7 + 21 + name.len() as int;
            &&& archive_result(input) == Ok::<ArchiveView, Error>(
                ArchiveView {
                    sfx_offset: 0,
                    flags: main_flags,
                    head_size: 7,
                    extra: Seq::empty(),
                    entries: seq![
                        EntryView {
                            header: FileHeader {
                                flags,
                                pack_size: packed.len() as u32,
                                unp_size,
                                file_crc: crc,
                                file_time,
                                file_attr,
                                unp_ver,
                                method,
                                head_size: (21 + name.len()) as u16,
                            },
                            name,
                            extra: Seq::empty(),
                            start,
                            end: start + packed.len() as int,
                        },
                    ],
                    data: input,
                },
            )
            &&& input.subrange(start, start + packed.len() as int) == packed
        }),
{
    let hdr = main_header_bytes(main_flags, Seq::empty());
    let rec = file_record_bytes(
        name,
        unp_size,
        crc,
        packed,
        file_time,
        file_attr,
        flags,
        unp_ver,
        method,
        Seq::empty(),
    );
    let input = hdr + rec;
    let head_size: u16 = 7;
    assert(hdr.len() == 7);
    assert(input.subrange(0, 4) =~= rar13_signature());
    assert(signature_at(input, 0));
    assert(first_signature(input, SFX_SCAN_LIMIT as int) == Some(0int));
    assert(input.subrange(0, input.len() as int) =~= input);
    lemma_le16_roundtrip(head_size);
    assert(field16(input, 4) == head_size) by {
        assert(input[4] == le16_bytes(head_size)[0]);
        assert(input[5] == le16_bytes(head_size)[1]);
    }
    assert(input[6] == main_flags);
    assert(input.subrange(7, 7) =~= Seq::<u8>::empty());
    lemma_record_parses(
        name,
        unp_size,
        crc,
        packed,
        file_time,
        file_attr,
        flags,
        unp_ver,
        method,
        Seq::empty(),
        Seq::empty(),
    );
    assert(rec + Seq::<u8>::empty() =~= rec);
    assert(input.subrange(7, input.len() as int) =~= rec);
    let h = FileHeader {
        flags,
        pack_size: packed.len() as u32,
        unp_size,
        file_crc: crc,
        file_time,
        file_attr,
        unp_ver,
        method,
        head_size: (21 + name.len()) as u16,
    };
    lemma_entries_step(input, 7, h, name, Seq::empty());
    let start = 7 + 21 + name.len() as int;
    assert(input.subrange(start, start + packed.len() as int) =~= packed);
    assert(seq![
        EntryView {
            header: h,
            name,
            extra: Seq::empty(),
            start,
            end: start + packed.len() as int,
        },
    ] + Seq::<EntryView>::empty() =~= seq![
        EntryView {
            header: h,
            name,
            extra: Seq::empty(),
            start,
            end: start + packed.len() as int,
        },
    ]);
}


/// Chunks joined in order.
pub open spec fn join_chunks(cs: Seq<Seq<u8>>) -> Seq<u8>
    decreases cs.len(),
{
    if cs.len() == 0 {
        Seq::empty()
    } else {
        join_chunks(cs.drop_last()) + cs.last()
    }
}

/// Joining a first chunk and the rest.
#[verifier::spinoff_prover]
proof fn lemma_join_front(a: Seq<u8>, rest: Seq<Seq<u8>>)
    ensures
        join_chunks(seq![a] + rest) == a + join_chunks(rest),
    decreases rest.len(),
{
    let s = seq![a] + rest;
    assert(join_chunks(Seq::<Seq<u8>>::empty()) == Seq::<u8>::empty());
    if rest.len() == 0 {
        assert(s.drop_last() =~= Seq::<Seq<u8>>::empty());
        assert(s.last() == a);
        assert(join_chunks(s) == join_chunks(s.drop_last()) + s.last());
        assert(Seq::<u8>::empty() + a =~= a + Seq::<u8>::empty());
    } else {
        assert(s.drop_last() =~= seq![a] + rest.drop_last());
        assert(s.last() == rest.last());
        lemma_join_front(a, rest.drop_last());
        assert(join_chunks(s) == join_chunks(s.drop_last()) + s.last());
        assert(join_chunks(rest) == join_chunks(rest.drop_last()) + rest.last());
        assert(a + join_chunks(rest.drop_last()) + rest.last() =~= a + (join_chunks(
            rest.drop_last(),
        ) + rest.last()));
    }
}

/// Cutting a payload into volume chunks and joining them gives the payload
/// back; every chunk holds at least one byte and at most `max`, and a payload
/// longer than `max` makes at least two chunks.
#[verifier::spinoff_prover]
pub proof fn lemma_split_chunks_join(packed: Seq<u8>, max: nat)
    requires
        max > 0,
        packed.len() > 0,
    ensures
        join_chunks(split_chunks(packed, max)) == packed,
        forall|i: int|
            0 <= i < split_chunks(packed, max).len() ==> 0 < (#[trigger] split_chunks(
                packed,
                max,
            )[i]).len() <= max,
        packed.len() > max ==> split_chunks(packed, max).len() >= 2,
    decreases packed.len(),
{
    let cs = split_chunks(packed, max);
    if packed.len() <= max {
        assert(cs == seq![packed]);
        assert(seq![packed].drop_last() =~= Seq::<Seq<u8>>::empty());
        assert(join_chunks(Seq::<Seq<u8>>::empty()) == Seq::<u8>::empty());
        assert(join_chunks(cs) == join_chunks(cs.drop_last()) + cs.last());
        assert(Seq::<u8>::empty() + packed =~= packed);
    } else {
        let head = packed.subrange(0, max as int);
        let tail = packed.subrange(max as int, packed.len() as int);
        lemma_split_chunks_join(tail, max);
        lemma_join_front(head, split_chunks(tail, max));
        assert(head + tail =~= packed);
        assert forall|i: int| 0 <= i < cs.len() implies 0 < (#[trigger] cs[i]).len() <= max by {
            if i > 0 {
                assert(cs[i] == split_chunks(tail, max)[i - 1]);
            }
        }
    }
}

/// The split and password bits of the flags of a written volume.
#[verifier::spinoff_prover]
proof fn lemma_split_flag_bits(index: int, count: int, solid: bool)
    ensures
        (split_flags(0, index, count, solid) & LHD_SPLIT_BEFORE != 0) == (index > 0),
        (split_flags(0, index, count, solid) & LHD_SPLIT_AFTER != 0) == (index + 1 < count),
        split_flags(0, index, count, solid) & LHD_PASSWORD == 0,
{
    let b: u8 = if index > 0 {
        1u8
    } else {
        0u8
    };
    let c: u8 = if index + 1 < count {
        2u8
    } else {
        0u8
    };
    let d: u8 = if solid {
        16u8
    } else {
        0u8
    };
    assert(split_flags(0, index, count, solid) == 0u8 | b | c | d);
    assert(((0u8 | b | c | d) & 1u8 != 0) == (b == 1u8) && ((0u8 | b | c | d) & 2u8 != 0) == (c
        == 2u8) && (0u8 | b | c | d) & 4u8 == 0) by (bit_vector)
        requires
            b == 0u8 || b == 1u8,
            c == 0u8 || c == 2u8,
            d == 0u8 || d == 16u8,
    ;
}

/// The bytes of volume `i` of a stored file split into `chunks`.
pub open spec fn stored_volume_bytes(
    name: Seq<u8>,
    data: Seq<u8>,
    chunks: Seq<Seq<u8>>,
    i: int,
    file_time: u32,
    file_attr: u8,
    solid: bool,
) -> Seq<u8> {
    volume_bytes(
        name,
        data,
        chunks[i],
        i,
        chunks.len() as int,
        file_time,
        file_attr,
        METHOD_STORE,
        0,
        solid,
    )
}

/// What the scan of the first `k` volumes of a written stored volume set
/// holds.
pub open spec fn volume_scan_after(
    name: Seq<u8>,
    chunks: Seq<Seq<u8>>,
    k: int,
    file_time: u32,
    file_attr: u8,
) -> SplitScan {
    if k < chunks.len() {
        SplitScan {
            files: Seq::empty(),
            pending: Some(
                PendingView {
                    key: (name, METHOD_STORE, false, DEFAULT_UNP_VER),
                    file_time,
                    file_attr,
                    data: join_chunks(chunks.subrange(0, k)),
                    deferred: None,
                },
            ),
        }
    } else {
        SplitScan {
            files: seq![
                FileOut {
                    name,
                    file_time,
                    file_attr,
                    is_directory: false,
                    data: Some(join_chunks(chunks)),
                },
            ],
            pending: None,
        }
    }
}

/// Volume `i` of a written stored volume set, read back, holds one entry:
/// the file's name, time and attributes, stored, not encrypted, with the split
/// flags of its place in the set, and the chunk as its data.
#[verifier::spinoff_prover]
#[verifier::rlimit(60)]
proof fn lemma_stored_volume_piece(
    name: Seq<u8>,
    data: Seq<u8>,
    chunks: Seq<Seq<u8>>,
    i: int,
    file_time: u32,
    file_attr: u8,
    solid: bool,
    a: Archive,
    password: Option<Seq<u8>>,
)
    requires
        0 < name.len() <= 255,
        0 <= i < chunks.len(),
        chunks[i].len() <= u32::MAX,
        stored_volume_bytes(name, data, chunks, i, file_time, file_attr, solid).len()
            <= usize::MAX,
        a.has_view(
            archive_result(
                stored_volume_bytes(name, data, chunks, i, file_time, file_attr, solid),
            )->Ok_0,
        ),
    ensures
        ({
            let bytes = stored_volume_bytes(name, data, chunks, i, file_time, file_attr, solid);
            let ev = archive_pieces(a)[0].1;
            &&& archive_pieces(a).len() == 1
            &&& archive_pieces(a)[0].0 == bytes
            &&& ev.name == name
            &&& ev.header.file_time == file_time
            &&& ev.header.file_attr == file_attr
            &&& ev.header.method == METHOD_STORE
            &&& ev.header.unp_ver == DEFAULT_UNP_VER
            &&& !is_encrypted_spec(ev.header)
            &&& (ev.header.flags & LHD_SPLIT_BEFORE != 0) == (i > 0)
            &&& (ev.header.flags & LHD_SPLIT_AFTER != 0) == (i + 1 < chunks.len())
            &&& decrypted_result(bytes, ev, password) == Ok::<Seq<u8>, Error>(chunks[i])
            &&& ev.header.file_crc == checksum_of(
                if i + 1 < chunks.len() {
                    chunks[i]
                } else {
                    data
                },
            )
        }),
{
    let n = chunks.len() as int;
    let bytes = stored_volume_bytes(name, data, chunks, i, file_time, file_attr, solid);
    lemma_single_record_parses(
        main_flags(false, solid, MHD_VOLUME),
        name,
        data.len() as u32,
        checksum_of(
            if i + 1 < n {
                chunks[i]
            } else {
                data
            },
        ),
        chunks[i],
        file_time,
        file_attr,
        split_flags(0, i, n, solid),
        DEFAULT_UNP_VER,
        METHOD_STORE,
    );
    lemma_split_flag_bits(i, n, solid);
    let v = archive_result(bytes)->Ok_0;
    let ev = v.entries[0];
    assert(entries_view(a.entries@) == seq![ev]);
    assert(archive_pieces(a) =~= seq![(bytes, ev)]);
}

/// Reading the entry of volume `k - 1` after the volumes before it.
#[verifier::spinoff_prover]
proof fn lemma_volume_step(
    name: Seq<u8>,
    chunks: Seq<Seq<u8>>,
    k: int,
    file_time: u32,
    file_attr: u8,
    bytes: Seq<u8>,
    ev: EntryView,
    password: Option<Seq<u8>>,
    streamed: bool,
)
    requires
        chunks.len() >= 2,
        1 <= k <= chunks.len(),
        ev.name == name,
        ev.header.file_time == file_time,
        ev.header.file_attr == file_attr,
        ev.header.method == METHOD_STORE,
        ev.header.unp_ver == DEFAULT_UNP_VER,
        !is_encrypted_spec(ev.header),
        (ev.header.flags & LHD_SPLIT_BEFORE != 0) == (k > 1),
        (ev.header.flags & LHD_SPLIT_AFTER != 0) == (k < chunks.len()),
        decrypted_result(bytes, ev, password) == Ok::<Seq<u8>, Error>(chunks[k - 1]),
        k == chunks.len() ==> ev.header.file_crc == checksum_of(join_chunks(chunks)),
    ensures
        split_step(
            if k == 1 {
                SplitScan { files: Seq::empty(), pending: None }
            } else {
                volume_scan_after(name, chunks, k - 1, file_time, file_attr)
            },
            bytes,
            ev,
            password,
            streamed,
        ) == Ok::<SplitScan, Error>(volume_scan_after(name, chunks, k, file_time, file_attr)),
{
    assert(join_chunks(Seq::<Seq<u8>>::empty()) == Seq::<u8>::empty());
    let s = chunks.subrange(0, k);
    assert(s.drop_last() =~= chunks.subrange(0, k - 1));
    assert(s.last() == chunks[k - 1]);
    assert(join_chunks(s) == join_chunks(s.drop_last()) + s.last());
    if k == 1 {
        assert(chunks.subrange(0, 0) =~= Seq::<Seq<u8>>::empty());
        assert(Seq::<u8>::empty() + chunks[0] =~= chunks[0]);
    }
    if k == chunks.len() {
        assert(s =~= chunks);
    }
}

/// The first `k` volumes of a written stored volume set, read back, scan to
/// one split entry under way, or to the whole file once all are read.
#[verifier::spinoff_prover]
proof fn lemma_stored_volumes_scan(
    name: Seq<u8>,
    data: Seq<u8>,
    chunks: Seq<Seq<u8>>,
    file_time: u32,
    file_attr: u8,
    solid: bool,
    volumes: Seq<Archive>,
    password: Option<Seq<u8>>,
    streamed: bool,
    k: int,
)
    requires
        0 < name.len() <= 255,
        join_chunks(chunks) == data,
        chunks.len() >= 2,
        forall|i: int| 0 <= i < chunks.len() ==> (#[trigger] chunks[i]).len() <= u32::MAX,
        volumes.len() == chunks.len(),
        forall|i: int|
            0 <= i < chunks.len() ==> stored_volume_bytes(
                name,
                data,
                chunks,
                i,
                file_time,
                file_attr,
                solid,
            ).len() <= usize::MAX,
        forall|i: int|
            0 <= i < chunks.len() ==> (#[trigger] volumes[i]).has_view(
                archive_result(
                    stored_volume_bytes(name, data, chunks, i, file_time, file_attr, solid),
                )->Ok_0,
            ),
        1 <= k <= chunks.len(),
    ensures
        split_scan(volume_pieces(volumes.subrange(0, k)), password, streamed) == Ok::<
            SplitScan,
            Error,
        >(volume_scan_after(name, chunks, k, file_time, file_attr)),
    decreases k,
{
    let i = k - 1;
    let bytes = stored_volume_bytes(name, data, chunks, i, file_time, file_attr, solid);
    let a = volumes[i];
    lemma_stored_volume_piece(name, data, chunks, i, file_time, file_attr, solid, a, password);
    let ev = archive_pieces(a)[0].1;
    assert(archive_pieces(a) =~= seq![(bytes, ev)]);
    let prefix = volumes.subrange(0, k);
    assert(prefix.drop_last() =~= volumes.subrange(0, i));
    let pieces = volume_pieces(prefix);
    assert(pieces == volume_pieces(volumes.subrange(0, i)) + archive_pieces(a));
    assert(pieces.drop_last() =~= volume_pieces(volumes.subrange(0, i)));
    assert(pieces.last() == (bytes, ev));
    if k == 1 {
        assert(volumes.subrange(0, 0) =~= Seq::<Archive>::empty());
    } else {
        lemma_stored_volumes_scan(
            name,
            data,
            chunks,
            file_time,
            file_attr,
            solid,
            volumes,
            password,
            streamed,
            k - 1,
        );
    }
    lemma_volume_step(name, chunks, k, file_time, file_attr, bytes, ev, password, streamed);
}

/// Reading back every volume of a written stored volume set and extracting
/// the set gives back the file as written: its name, time, attributes and
/// data.
#[verifier::spinoff_prover]
pub proof fn lemma_stored_volumes_extract(
    name: Seq<u8>,
    data: Seq<u8>,
    max: nat,
    file_time: u32,
    file_attr: u8,
    solid: bool,
    volumes: Seq<Archive>,
    password: Option<Seq<u8>>,
    streamed: bool,
)
    requires
        file_entry_result(name, data) is Ok,
        split_result(data, max) is Ok,
        volumes.len() == split_chunks(data, max).len(),
        forall|i: int|
            0 <= i < volumes.len() ==> stored_volume_bytes(
                name,
                data,
                split_chunks(data, max),
                i,
                file_time,
                file_attr,
                solid,
            ).len() <= usize::MAX,
        forall|i: int|
            0 <= i < volumes.len() ==> (#[trigger] volumes[i]).has_view(
                archive_result(
                    stored_volume_bytes(
                        name,
                        data,
                        split_chunks(data, max),
                        i,
                        file_time,
                        file_attr,
                        solid,
                    ),
                )->Ok_0,
            ),
    ensures
        volume_files(volumes, password, streamed) == Ok::<Seq<FileOut>, Error>(
            seq![
                FileOut {
                    name,
                    file_time,
                    file_attr,
                    is_directory: false,
                    data: Some(data),
                },
            ],
        ),
{
    let chunks = split_chunks(data, max);
    lemma_split_chunks_join(data, max);
    assert forall|i: int| 0 <= i < chunks.len() implies (#[trigger] chunks[i]).len() <= u32::MAX by {
        assert(0 < chunks[i].len() <= max);
        assert(max < data.len());
    }
    lemma_stored_volumes_scan(
        name,
        data,
        chunks,
        file_time,
        file_attr,
        solid,
        volumes,
        password,
        streamed,
        chunks.len() as int,
    );
    assert(volumes.subrange(0, volumes.len() as int) =~= volumes);
}


/// A compressed entry the writer accepts, whose header size fits its field
/// and whose packed form `plain` fits the 32-bit size field.
pub open spec fn compressed_entry_fits(e: FileEntry, plain: Seq<u8>) -> bool {
    &&& file_entry_result(e.name@, e.data@) is Ok
    &&& comment_extra_result(opt_view(e.file_comment)) is Ok
    &&& 21 + e.name@.len() + file_comment_extra(opt_view(e.file_comment)).len() <= 65535
    &&& plain.len() <= u32::MAX
}

/// The packed bytes of a compressed entry as written: its packed form,
/// encrypted when it has a password.
pub open spec fn compressed_body(e: FileEntry, plain: Seq<u8>) -> Seq<u8> {
    match e.password {
        Some(p) => encrypt_seq(password_key(p@), plain),
        None => plain,
    }
}

/// The header that reading back the record of a compressed entry gives.
pub open spec fn compressed_header(e: FileEntry, solid: bool, plain: Seq<u8>) -> FileHeader {
    FileHeader {
        flags: entry_flags(e.password is Some, e.file_comment is Some, solid),
        pack_size: plain.len() as u32,
        unp_size: e.data@.len() as u32,
        file_crc: checksum_of(e.data@),
        file_time: e.file_time,
        file_attr: e.file_attr,
        unp_ver: DEFAULT_UNP_VER,
        method: 3,
        head_size: (21 + e.name@.len() + file_comment_extra(opt_view(e.file_comment)).len()) as u16,
    }
}

/// The entries that reading back the records of compressed entries written
/// from offset `base` on gives.
pub open spec fn compressed_views(
    entries: Seq<FileEntry>,
    solid: bool,
    packs: Seq<Seq<u8>>,
    base: int,
) -> Seq<EntryView>
    decreases entries.len(),
{
    if entries.len() == 0 {
        Seq::empty()
    } else {
        let e = entries[0];
        let h = compressed_header(e, solid, packs[0]);
        let start = base + h.head_size;
        seq![
            EntryView {
                header: h,
                name: e.name@,
                extra: file_comment_extra(opt_view(e.file_comment)),
                start,
                end: start + packs[0].len(),
            },
        ] + compressed_views(
            entries.drop_first(),
            solid,
            packs.drop_first(),
            base + compressed_record(e, solid, packs[0]).len(),
        )
    }
}

/// The records of compressed entries are the first record, then the records
/// of the others.
#[verifier::spinoff_prover]
proof fn lemma_compressed_front(entries: Seq<FileEntry>, solid: bool, packs: Seq<Seq<u8>>)
    requires
        entries.len() > 0,
        packs.len() == entries.len(),
    ensures
        compressed_records(entries, solid, packs) == compressed_record(
            entries[0],
            solid,
            packs[0],
        ) + compressed_records(entries.drop_first(), solid, packs.drop_first()),
    decreases entries.len(),
{
    let e = entries;
    let p = packs;
    let r0 = compressed_record(e[0], solid, p[0]);
    let rl = compressed_record(e.last(), solid, p.last());
    assert(compressed_records(e, solid, p) == compressed_records(e.drop_last(), solid, p.drop_last())
        + rl);
    if e.len() > 1 {
        let ed = e.drop_last();
        let pd = p.drop_last();
        let ef = e.drop_first();
        let pf = p.drop_first();
        lemma_compressed_front(ed, solid, pd);
        assert(ed[0] == e[0]);
        assert(pd[0] == p[0]);
        assert(ed.drop_first() =~= ef.drop_last());
        assert(pd.drop_first() =~= pf.drop_last());
        assert(compressed_records(ed, solid, pd) == r0 + compressed_records(
            ef.drop_last(),
            solid,
            pf.drop_last(),
        ));
        assert(ef.last() == e.last());
        assert(pf.last() == p.last());
        assert(compressed_records(ef, solid, pf) == compressed_records(
            ef.drop_last(),
            solid,
            pf.drop_last(),
        ) + rl);
        assert(r0 + compressed_records(ef.drop_last(), solid, pf.drop_last()) + rl =~= r0 + (
        compressed_records(ef.drop_last(), solid, pf.drop_last()) + rl));
    } else {
        let ed = e.drop_last();
        assert(ed.len() == 0);
        assert(compressed_records(ed, solid, p.drop_last()) == Seq::<u8>::empty());
        assert(e.drop_first().len() == 0);
        assert(compressed_records(e.drop_first(), solid, p.drop_first()) == Seq::<u8>::empty());
        assert(p.last() == p[0]);
        assert(e.last() == e[0]);
        assert(Seq::<u8>::empty() + r0 =~= r0 + Seq::<u8>::empty());
    }
}

/// The record of a compressed entry parses back to its header, name and
/// comment extension, with its packed bytes behind them.
#[verifier::spinoff_prover]
proof fn lemma_compressed_record_parses(e: FileEntry, solid: bool, plain: Seq<u8>, rest: Seq<u8>)
    requires
        compressed_entry_fits(e, plain),
    ensures
        ({
            let rec = compressed_record(e, solid, plain);
            let h = compressed_header(e, solid, plain);
            &&& rec.len() == h.head_size + plain.len()
            &&& h.pack_size == plain.len()
            &&& rec.subrange(h.head_size as int, rec.len() as int) == compressed_body(e, plain)
            &&& file_header_result(rec + rest) == Ok::<(FileHeader, Seq<u8>, Seq<u8>), Error>(
                (h, e.name@, file_comment_extra(opt_view(e.file_comment))),
            )
        }),
{
    lemma_record_parses(
        e.name@,
        e.data@.len() as u32,
        checksum_of(e.data@),
        compressed_body(e, plain),
        e.file_time,
        e.file_attr,
        entry_flags(e.password is Some, e.file_comment is Some, solid),
        DEFAULT_UNP_VER,
        3,
        file_comment_extra(opt_view(e.file_comment)),
        rest,
    );
}

/// Compressed records behind any prefix parse back, from the prefix's end
/// on, to the entries of `compressed_views`.
#[verifier::rlimit(60)]
#[verifier::spinoff_prover]
proof fn lemma_compressed_entries_parse(
    prefix: Seq<u8>,
    entries: Seq<FileEntry>,
    solid: bool,
    packs: Seq<Seq<u8>>,
)
    requires
        packs.len() == entries.len(),
        forall|i: int|
            0 <= i < entries.len() ==> compressed_entry_fits(#[trigger] entries[i], packs[i]),
        prefix.len() + compressed_records(entries, solid, packs).len() <= usize::MAX,
    ensures
        entries_result(prefix + compressed_records(entries, solid, packs), prefix.len() as int, 0)
            == Ok::<Seq<EntryView>, Error>(
            compressed_views(entries, solid, packs, prefix.len() as int),
        ),
    decreases entries.len(),
{
    let a = prefix + compressed_records(entries, solid, packs);
    let p = prefix.len() as int;
    if entries.len() == 0 {
        assert(a.len() == p);
    } else {
        let e = entries[0];
        let rest = entries.drop_first();
        let prest = packs.drop_first();
        let rec = compressed_record(e, solid, packs[0]);
        let tail = compressed_records(rest, solid, prest);
        let h = compressed_header(e, solid, packs[0]);
        let x = file_comment_extra(opt_view(e.file_comment));
        lemma_compressed_front(entries, solid, packs);
        assert(compressed_entry_fits(e, packs[0]));
        lemma_compressed_record_parses(e, solid, packs[0], tail);
        assert(a.subrange(p, a.len() as int) =~= rec + tail);
        assert(a =~= (prefix + rec) + tail);
        assert forall|i: int| 0 <= i < rest.len() implies compressed_entry_fits(
            #[trigger] rest[i],
            prest[i],
        ) by {
            assert(rest[i] == entries[i + 1]);
            assert(prest[i] == packs[i + 1]);
        }
        lemma_compressed_entries_parse(prefix + rec, rest, solid, prest);
        lemma_entries_step(a, p, h, e.name@, x);
        assert((prefix + rec).len() == p + h.head_size + h.pack_size);
    }
}

/// Reading back a written compressed archive finds, at offset 0, the main
/// header that was written and one entry per file, with the header fields,
/// name and comment extension the writer put there: the file's size,
/// checksum, time and attributes, method 3, and the packed size of the packed
/// form it was written with.
#[verifier::spinoff_prover]
#[verifier::rlimit(60)]
pub proof fn lemma_compressed_archive_parses(
    flags: u8,
    extra: Seq<u8>,
    entries: Seq<FileEntry>,
    solid: bool,
    packs: Seq<Seq<u8>>,
)
    requires
        7 + extra.len() <= 65535,
        packs.len() == entries.len(),
        forall|i: int|
            0 <= i < entries.len() ==> compressed_entry_fits(#[trigger] entries[i], packs[i]),
        (main_header_bytes(flags, extra) + compressed_records(entries, solid, packs)).len()
            <= usize::MAX,
    ensures
        ({
            let input = main_header_bytes(flags, extra) + compressed_records(entries, solid, packs);
            archive_result(input) == Ok::<ArchiveView, Error>(
                ArchiveView {
                    sfx_offset: 0,
                    flags,
                    head_size: (7 + extra.len()) as u16,
                    extra,
                    entries: compressed_views(entries, solid, packs, 7 + extra.len() as int),
                    data: input,
                },
            )
        }),
{
    let hdr = main_header_bytes(flags, extra);
    let input = hdr + compressed_records(entries, solid, packs);
    let head_size = (7 + extra.len()) as u16;
    assert(hdr.len() == 7 + extra.len());
    assert(input.subrange(0, 4) =~= rar13_signature());
    assert(signature_at(input, 0));
    assert(first_signature(input, SFX_SCAN_LIMIT as int) == Some(0int));
    assert(input.subrange(0, input.len() as int) =~= input);
    lemma_le16_roundtrip(head_size);
    assert(field16(input, 4) == head_size) by {
        assert(input[4] == le16_bytes(head_size)[0]);
        assert(input[5] == le16_bytes(head_size)[1]);
    }
    assert(input[6] == flags);
    assert(input.subrange(7, head_size as int) =~= extra);
    lemma_compressed_entries_parse(hdr, entries, solid, packs);
}


/// Where the packed bytes of compressed records behind a prefix lie, and
/// what the entries read back hold.
#[verifier::rlimit(60)]
#[verifier::spinoff_prover]
proof fn lemma_compressed_bodies(
    prefix: Seq<u8>,
    entries: Seq<FileEntry>,
    solid: bool,
    packs: Seq<Seq<u8>>,
)
    requires
        packs.len() == entries.len(),
        forall|i: int|
            0 <= i < entries.len() ==> compressed_entry_fits(#[trigger] entries[i], packs[i]),
    ensures
        compressed_views(entries, solid, packs, prefix.len() as int).len() == entries.len(),
        forall|i: int|
            0 <= i < entries.len() ==> {
                let v = #[trigger] compressed_views(entries, solid, packs, prefix.len() as int)[i];
                &&& prefix.len() <= v.start <= v.end <= (prefix + compressed_records(
                    entries,
                    solid,
                    packs,
                )).len()
                &&& (prefix + compressed_records(entries, solid, packs)).subrange(v.start, v.end)
                    == compressed_body(entries[i], packs[i])
                &&& v.header == compressed_header(entries[i], solid, packs[i])
                &&& v.name == entries[i].name@
                &&& v.extra == file_comment_extra(opt_view(entries[i].file_comment))
            },
    decreases entries.len(),
{
    let a = prefix + compressed_records(entries, solid, packs);
    let p = prefix.len() as int;
    if entries.len() > 0 {
        let e = entries[0];
        let rest = entries.drop_first();
        let prest = packs.drop_first();
        let rec = compressed_record(e, solid, packs[0]);
        let tail = compressed_records(rest, solid, prest);
        let h = compressed_header(e, solid, packs[0]);
        lemma_compressed_front(entries, solid, packs);
        assert(compressed_entry_fits(e, packs[0]));
        lemma_compressed_record_parses(e, solid, packs[0], tail);
        assert(a =~= (prefix + rec) + tail);
        assert forall|i: int| 0 <= i < rest.len() implies compressed_entry_fits(
            #[trigger] rest[i],
            prest[i],
        ) by {
            assert(rest[i] == entries[i + 1]);
            assert(prest[i] == packs[i + 1]);
        }
        lemma_compressed_bodies(prefix + rec, rest, solid, prest);
        let views = compressed_views(entries, solid, packs, p);
        let tail_views = compressed_views(rest, solid, prest, (prefix + rec).len() as int);
        assert(views == seq![views[0]] + tail_views);
        assert forall|i: int| 0 <= i < entries.len() implies {
            let v = #[trigger] compressed_views(entries, solid, packs, p)[i];
            &&& p <= v.start <= v.end <= a.len()
            &&& a.subrange(v.start, v.end) == compressed_body(entries[i], packs[i])
            &&& v.header == compressed_header(entries[i], solid, packs[i])
            &&& v.name == entries[i].name@
            &&& v.extra == file_comment_extra(opt_view(entries[i].file_comment))
        } by {
            if i == 0 {
                assert(a.subrange(p + h.head_size, p + h.head_size + h.pack_size) =~= rec.subrange(
                    h.head_size as int,
                    rec.len() as int,
                ));
            } else {
                assert(views[i] == tail_views[i - 1]);
                assert(rest[i - 1] == entries[i]);
                assert(prest[i - 1] == packs[i]);
            }
        }
    }
}

/// Every entry of a written compressed archive reads back as written: its
/// name, time, attributes, size and checksum are the file's; its method is
/// the compressed one; it is not split; its password and comment flags say
/// whether it was written with a password and a comment, and its comment
/// reads back; and its packed data, decrypted with the password it was
/// written with, is exactly the packed form the encoder produced, which is
/// what the decoder is then handed.
#[verifier::spinoff_prover]
#[verifier::rlimit(60)]
pub proof fn lemma_compressed_entry_reads_back(
    flags: u8,
    extra: Seq<u8>,
    entries: Seq<FileEntry>,
    solid: bool,
    packs: Seq<Seq<u8>>,
    i: int,
)
    requires
        7 + extra.len() <= 65535,
        packs.len() == entries.len(),
        forall|j: int|
            0 <= j < entries.len() ==> compressed_entry_fits(#[trigger] entries[j], packs[j]),
        (main_header_bytes(flags, extra) + compressed_records(entries, solid, packs)).len()
            <= usize::MAX,
        0 <= i < entries.len(),
    ensures
        ({
            let input = main_header_bytes(flags, extra) + compressed_records(entries, solid, packs);
            let e = entries[i];
            let v = compressed_views(entries, solid, packs, 7 + extra.len() as int)[i];
            &&& archive_result(input) matches Ok(a) && a.entries.len() == entries.len()
                && a.entries[i] == v
            &&& v.name == e.name@
            &&& v.header.file_time == e.file_time
            &&& v.header.file_attr == e.file_attr
            &&& v.header.unp_size == e.data@.len()
            &&& v.header.file_crc == checksum_of(e.data@)
            &&& v.header.method == 3
            &&& !is_split_spec(v.header)
            &&& is_encrypted_spec(v.header) == e.password is Some
            &&& (v.header.flags & LHD_COMMENT != 0) == e.file_comment is Some
            &&& e.file_comment matches Some(c) ==> crate::entry::file_comment_result(v.extra)
                == Ok::<Seq<u8>, Error>(c@)
            &&& decrypted_result(input, v, password_view(e.password)) == Ok::<Seq<u8>, Error>(
                packs[i],
            )
        }),
{
    let hdr = main_header_bytes(flags, extra);
    let e = entries[i];
    assert(compressed_entry_fits(e, packs[i]));
    assert(hdr.len() == 7 + extra.len());
    lemma_compressed_archive_parses(flags, extra, entries, solid, packs);
    lemma_compressed_bodies(hdr, entries, solid, packs);
    lemma_entry_flag_bits(e.password is Some, e.file_comment is Some, solid);
    match e.password {
        Some(p) => {
            lemma_decrypt_encrypt(password_key(p@), packs[i]);
        },
        None => {},
    }
    match e.file_comment {
        Some(c) => {
            let x = file_comment_extra(opt_view(e.file_comment));
            lemma_le16_roundtrip(c@.len() as u16);
            assert(x.subrange(2, 2 + c@.len() as int) =~= c@);
        },
        None => {},
    }
}


/// A written archive comment reads back with both comment flags set and a
/// packed comment layout whose unpacked size is the comment's length and
/// whose packed bytes are those the writer put there.
#[verifier::spinoff_prover]
pub proof fn lemma_comment_header_reads_back(comment: Seq<u8>, x: Seq<u8>, solid: bool)
    requires
        comment_extra_ok(comment, x),
        comment.len() <= 65535,
    ensures
        main_flags(true, solid, 0) & MHD_COMMENT != 0,
        main_flags(true, solid, 0) & MHD_PACK_COMMENT != 0,
        main_flags(false, solid, 0) & MHD_COMMENT == 0,
        packed_comment_layout(x) == Ok::<(u16, Seq<u8>), Error>(
            (comment.len() as u16, x.subrange(4, x.len() as int)),
        ),
{
    let d: u8 = if solid {
        8u8
    } else {
        0u8
    };
    assert(main_flags(true, solid, 0) == 0x80u8 | 0u8 | (2u8 | 16u8) | d);
    assert(main_flags(false, solid, 0) == 0x80u8 | 0u8 | 0u8 | d);
    assert((0x80u8 | 0u8 | (2u8 | 16u8) | d) & 2u8 != 0 && (0x80u8 | 0u8 | (2u8 | 16u8) | d) & 16u8
        != 0 && (0x80u8 | 0u8 | 0u8 | d) & 2u8 == 0) by (bit_vector)
        requires
            d == 0u8 || d == 8u8,
    ;
    let n = (x.len() - 2) as u16;
    lemma_le16_roundtrip(n);
    lemma_le16_roundtrip(comment.len() as u16);
    assert(x[0] == le16_bytes(n)[0] && x[1] == le16_bytes(n)[1]) by {
        assert(x.subrange(0, 2)[0] == x[0]);
        assert(x.subrange(0, 2)[1] == x[1]);
    }
    assert(field16(x, 0) == n);
    assert(x[2] == le16_bytes(comment.len() as u16)[0] && x[3] == le16_bytes(
        comment.len() as u16,
    )[1]) by {
        assert(x.subrange(2, 4)[0] == x[2]);
        assert(x.subrange(2, 4)[1] == x[3]);
    }
    assert(field16(x, 2) == comment.len() as u16);
}

} // verus!
