use vstd::prelude::*;

use crate::bytes::{copy_range, sub_slice};
use crate::checksum::{checksum_of, file_checksum};
use crate::crypto::{decrypt_seq, password_key, Rar13Cipher};
use crate::error::{lossy_decode, lossy_text, Error};
use crate::rar13::{
    field16, Archive, ArchiveSource, Entry, EntryView, ExtractedEntry, ExtractedEntryMeta,
    FileHeader, LHD_COMMENT, LHD_PASSWORD, LHD_SPLIT_AFTER, LHD_SPLIT_BEFORE, METHOD_STORE,
    read_u16,
};

verus! {

/// An extracted entry as plain values.
pub struct ExtractedView {
    pub name: Seq<u8>,
    pub data: Seq<u8>,
    pub file_time: u32,
    pub file_attr: u8,
    pub is_directory: bool,
}

impl View for ExtractedEntry {
    type V = ExtractedView;

    open spec fn view(&self) -> ExtractedView {
        ExtractedView {
            name: self.name@,
            data: self.data@,
            file_time: self.file_time,
            file_attr: self.file_attr,
            is_directory: self.is_directory,
        }
    }
}

/// A password as plain bytes.
pub open spec fn password_view(password: Option<&[u8]>) -> Option<Seq<u8>> {
    match password {
        Some(p) => Some(p@),
        None => None,
    }
}

pub open spec fn is_encrypted_spec(h: FileHeader) -> bool {
    h.flags & LHD_PASSWORD != 0
}

pub open spec fn is_split_spec(h: FileHeader) -> bool {
    h.flags & LHD_SPLIT_BEFORE != 0 || h.flags & LHD_SPLIT_AFTER != 0
}

pub open spec fn is_directory_spec(h: FileHeader) -> bool {
    h.file_attr & 0x10 != 0
}

pub open spec fn is_stored_spec(h: FileHeader) -> bool {
    h.method == METHOD_STORE
}

/// The bytes `start..end` of the archive input, or `TooShort` when the range
/// does not lie within it.
pub open spec fn range_result(input: Seq<u8>, start: int, end: int) -> Result<Seq<u8>, Error> {
    if 0 <= start <= end <= input.len() {
        Ok(input.subrange(start, end))
    } else {
        Err(Error::TooShort)
    }
}

/// An entry's packed data, decrypted when the entry is encrypted.
pub open spec fn decrypted_result(input: Seq<u8>, e: EntryView, password: Option<Seq<u8>>) -> Result<
    Seq<u8>,
    Error,
> {
    match range_result(input, e.start, e.end) {
        Err(err) => Err(err),
        Ok(d) => if is_encrypted_spec(e.header) {
            match password {
                None => Err(Error::NeedPassword),
                Some(p) => Ok(decrypt_seq(password_key(p), d)),
            }
        } else {
            Ok(d)
        },
    }
}

/// The data of a stored entry.
pub open spec fn stored_data_result(input: Seq<u8>, e: EntryView, password: Option<Seq<u8>>) -> Result<
    Seq<u8>,
    Error,
> {
    if !is_stored_spec(e.header) {
        Err(Error::InvalidHeader("RAR 1.3 entry is not stored"))
    } else {
        decrypted_result(input, e, password)
    }
}

/// The result of checking `data` against the entry's checksum.
pub open spec fn checksum_result(h: FileHeader, data: Seq<u8>) -> Result<(), Error> {
    if checksum_of(data) == h.file_crc {
        Ok(())
    } else {
        Err(Error::CrcMismatch { expected: h.file_crc, actual: checksum_of(data) })
    }
}

/// What extracting a stored entry or a directory gives.
pub open spec fn stored_extract_result(
    input: Seq<u8>,
    e: EntryView,
    password: Option<Seq<u8>>,
) -> Result<ExtractedView, Error> {
    if is_directory_spec(e.header) {
        Ok(
            ExtractedView {
                name: e.name,
                data: Seq::empty(),
                file_time: e.header.file_time,
                file_attr: e.header.file_attr,
                is_directory: true,
            },
        )
    } else {
        match stored_data_result(input, e, password) {
            Err(err) => Err(err),
            Ok(d) => match checksum_result(e.header, d) {
                Err(err) => Err(err),
                Ok(()) => Ok(
                    ExtractedView {
                        name: e.name,
                        data: d,
                        file_time: e.header.file_time,
                        file_attr: e.header.file_attr,
                        is_directory: false,
                    },
                ),
            },
        }
    }
}

/// The comment in an entry's header extension.
pub open spec fn file_comment_result(extra: Seq<u8>) -> Result<Seq<u8>, Error> {
    if extra.len() < 2 {
        Err(Error::TooShort)
    } else if 2 + field16(extra, 0) > extra.len() {
        Err(Error::TooShort)
    } else {
        Ok(extra.subrange(2, 2 + field16(extra, 0)))
    }
}

impl Archive {
    /// The bytes `start..end` of the archive input.
    pub fn read_range(&self, start: usize, end: usize) -> (r: Result<Vec<u8>, Error>)
        ensures
            match range_result(self.input(), start as int, end as int) {
                Ok(d) => r matches Ok(v) && v@ == d,
                Err(e) => r matches Err(x) && x == e,
            },
    {
        match &self.source {
            ArchiveSource::Memory(data) => {
                if start <= end && end <= data.len() {
                    Ok(copy_range(data.as_slice(), start, end))
                } else {
                    Err(Error::TooShort)
                }
            },
        }
    }
}

impl Entry {
    /// The name, decoded as text with invalid UTF-8 replaced.
    pub fn name_lossy(&self) -> (s: String)
        ensures
            s@ == lossy_decode(self.name@),
            vstd::utf8::valid_utf8(self.name@) ==> s@ == vstd::utf8::decode_utf8(self.name@),
    {
        lossy_text(self.name.as_slice())
    }

    pub fn is_encrypted(&self) -> (b: bool)
        ensures
            b == is_encrypted_spec(self.header),
    {
        self.header.flags & LHD_PASSWORD != 0
    }

    pub fn is_split_before(&self) -> (b: bool)
        ensures
            b == (self.header.flags & LHD_SPLIT_BEFORE != 0),
    {
        self.header.flags & LHD_SPLIT_BEFORE != 0
    }

    pub fn is_split_after(&self) -> (b: bool)
        ensures
            b == (self.header.flags & LHD_SPLIT_AFTER != 0),
    {
        self.header.flags & LHD_SPLIT_AFTER != 0
    }

    pub fn is_directory(&self) -> (b: bool)
        ensures
            b == is_directory_spec(self.header),
    {
        self.header.file_attr & 0x10 != 0
    }

    pub fn has_file_comment(&self) -> (b: bool)
        ensures
            b == (self.header.flags & LHD_COMMENT != 0),
    {
        self.header.flags & LHD_COMMENT != 0
    }

    pub fn is_stored(&self) -> (b: bool)
        ensures
            b == is_stored_spec(self.header),
    {
        self.header.method == METHOD_STORE
    }

    /// The file comment stored in the header extension, if the entry has one.
    pub fn file_comment(&self) -> (r: Result<Option<Vec<u8>>, Error>)
        ensures
            !(self.header.flags & LHD_COMMENT != 0) ==> r matches Ok(None),
            self.header.flags & LHD_COMMENT != 0 ==> match file_comment_result(self.extra@) {
                Ok(c) => r matches Ok(Some(v)) && v@ == c,
                Err(e) => r matches Err(x) && x == e,
            },
    {
        if !self.has_file_comment() {
            return Ok(None);
        }
        let length = match read_u16(self.extra.as_slice(), 0) {
            Ok(l) => l as usize,
            Err(e) => {
                return Err(e);
            },
        };
        if 2 + length > self.extra.len() {
            return Err(Error::TooShort);
        }
        Ok(Some(copy_range(self.extra.as_slice(), 2, 2 + length)))
    }

    /// The packed data, borrowed from the archive input.
    pub fn packed_data<'a>(&self, archive: &'a Archive) -> (r: Result<&'a [u8], Error>)
        ensures
            match range_result(archive.input(), self@.start, self@.end) {
                Ok(d) => r matches Ok(v) && v@ == d,
                Err(e) => r matches Err(x) && x == e,
            },
    {
        match &archive.source {
            ArchiveSource::Memory(data) => {
                let start = self.packed_range.start;
                let end = self.packed_range.end;
                if start <= end && end <= data.len() {
                    Ok(sub_slice(data.as_slice(), start, end))
                } else {
                    Err(Error::TooShort)
                }
            },
        }
    }

    /// The packed data, copied.
    pub fn packed_data_owned(&self, archive: &Archive) -> (r: Result<Vec<u8>, Error>)
        ensures
            match range_result(archive.input(), self@.start, self@.end) {
                Ok(d) => r matches Ok(v) && v@ == d,
                Err(e) => r matches Err(x) && x == e,
            },
    {
        archive.read_range(self.packed_range.start, self.packed_range.end)
    }

    /// Appends the packed data to `out`.
    pub fn write_packed_data(&self, archive: &Archive, out: &mut Vec<u8>) -> (r: Result<
        (),
        Error,
    >)
        ensures
            match range_result(archive.input(), self@.start, self@.end) {
                Ok(d) => r is Ok && final(out)@ == old(out)@ + d,
                Err(e) => r matches Err(x) && x == e && final(out)@ == old(out)@,
            },
    {
        let data = match self.packed_data(archive) {
            Ok(d) => d,
            Err(e) => {
                return Err(e);
            },
        };
        crate::bytes::append_bytes(out, data);
        Ok(())
    }

    /// The packed data, decrypted with `password` when the entry is encrypted.
    pub fn decrypt_packed_data(&self, archive: &Archive, password: Option<&[u8]>) -> (r: Result<
        Vec<u8>,
        Error,
    >)
        ensures
            match decrypted_result(archive.input(), self@, password_view(password)) {
                Ok(d) => r matches Ok(v) && v@ == d,
                Err(e) => r matches Err(x) && x == e,
            },
    {
        let mut data = match self.packed_data_owned(archive) {
            Ok(d) => d,
            Err(e) => {
                return Err(e);
            },
        };
        if self.is_encrypted() {
            let password = match password {
                Some(p) => p,
                None => {
                    return Err(Error::NeedPassword);
                },
            };
            let mut cipher = Rar13Cipher::new(password);
            cipher.decrypt_in_place(&mut data);
        }
        Ok(data)
    }

    /// The data of a stored entry, decrypted with `password` when encrypted.
    pub fn stored_data(&self, archive: &Archive, password: Option<&[u8]>) -> (r: Result<
        Vec<u8>,
        Error,
    >)
        ensures
            match stored_data_result(archive.input(), self@, password_view(password)) {
                Ok(d) => r matches Ok(v) && v@ == d,
                Err(e) => r matches Err(x) && x == e,
            },
    {
        if !self.is_stored() {
            return Err(Error::InvalidHeader("RAR 1.3 entry is not stored"));
        }
        self.decrypt_packed_data(archive, password)
    }

    /// Checks `data` against the entry's checksum.
    pub fn verify_checksum(&self, data: &[u8]) -> (r: Result<(), Error>)
        ensures
            match checksum_result(self.header, data@) {
                Ok(()) => r is Ok,
                Err(e) => r matches Err(x) && x == e,
            },
    {
        let actual = file_checksum(data);
        if actual == self.header.file_crc {
            Ok(())
        } else {
            Err(Error::CrcMismatch { expected: self.header.file_crc, actual })
        }
    }

    /// What is known of the entry before extraction.
    pub fn metadata(&self) -> (m: ExtractedEntryMeta)
        ensures
            m.name@ == self.name@,
            m.file_time == self.header.file_time,
            m.file_attr == self.header.file_attr,
            m.is_directory == is_directory_spec(self.header),
    {
        ExtractedEntryMeta {
            name: copy_range(self.name.as_slice(), 0, self.name.len()),
            file_time: self.header.file_time,
            file_attr: self.header.file_attr,
            is_directory: self.is_directory(),
        }
    }

    /// Extracts a stored entry or a directory, checking the checksum.
    pub fn extract_stored(&self, archive: &Archive, password: Option<&[u8]>) -> (r: Result<
        ExtractedEntry,
        Error,
    >)
        ensures
            match stored_extract_result(archive.input(), self@, password_view(password)) {
                Ok(x) => r matches Ok(v) && v@ == x,
                Err(e) => r matches Err(y) && y == e,
            },
    {
        let name = copy_range(self.name.as_slice(), 0, self.name.len());
        proof {
            assert(self.name@.subrange(0, self.name@.len() as int) =~= self.name@);
        }
        if self.is_directory() {
            return Ok(
                ExtractedEntry {
                    name,
                    data: Vec::new(),
                    file_time: self.header.file_time,
                    file_attr: self.header.file_attr,
                    is_directory: true,
                },
            );
        }
        let data = match self.stored_data(archive, password) {
            Ok(d) => d,
            Err(e) => {
                return Err(e);
            },
        };
        match self.verify_checksum(data.as_slice()) {
            Ok(()) => {},
            Err(e) => {
                return Err(e);
            },
        }
        Ok(
            ExtractedEntry {
                name,
                data,
                file_time: self.header.file_time,
                file_attr: self.header.file_attr,
                is_directory: false,
            },
        )
    }
}

} // verus!
