use vstd::prelude::*;

use crate::version::ArchiveFamily;

verus! {

/// Where an archive signature was found.
#[derive(Debug, Clone, Copy, PartialEq, Eq, Structural)]
pub struct ArchiveSignature {
    pub family: ArchiveFamily,
    pub offset: usize,
    pub length: usize,
}

/// The four marker bytes `RE~^` that open every RAR 1.3/1.4 archive.
pub open spec fn rar13_signature() -> Seq<u8> {
    seq![0x52u8, 0x45u8, 0x7eu8, 0x5eu8]
}

/// `input` holds the signature at `offset`.
pub open spec fn signature_at(input: Seq<u8>, offset: int) -> bool {
    &&& 0 <= offset
    &&& offset + 4 <= input.len()
    &&& input.subrange(offset, offset + 4) == rar13_signature()
}

/// Checks for the signature at `offset`.
pub fn has_signature_at(input: &[u8], offset: usize) -> (found: bool)
    ensures
        found == signature_at(input@, offset as int),
{
    if offset > input.len() || input.len() - offset < 4 {
        return false;
    }
    let found = input[offset] == 0x52 && input[offset + 1] == 0x45 && input[offset + 2] == 0x7e
        && input[offset + 3] == 0x5e;
    proof {
        let sub = input@.subrange(offset as int, offset + 4);
        if found {
            assert(sub =~= rar13_signature());
        } else {
            if sub == rar13_signature() {
                assert(sub[0] == input@[offset as int]);
                assert(sub[1] == input@[offset + 1]);
                assert(sub[2] == input@[offset + 2]);
                assert(sub[3] == input@[offset + 3]);
            }
        }
    }
    found
}

/// Recognizes an archive that starts at the first byte of `input`.
pub fn detect_archive_family(input: &[u8]) -> (sig: Option<ArchiveSignature>)
    ensures
        sig is Some <==> signature_at(input@, 0),
        sig matches Some(s) ==> s == (ArchiveSignature {
            family: ArchiveFamily::Rar13,
            offset: 0,
            length: 4,
        }),
{
    if has_signature_at(input, 0) {
        Some(ArchiveSignature { family: ArchiveFamily::Rar13, offset: 0, length: 4 })
    } else {
        None
    }
}

/// The first offset at or after `o` and below `max_scan` that holds the
/// signature.
pub open spec fn scan_from(input: Seq<u8>, o: int, max_scan: int) -> Option<int>
    decreases input.len() - o,
{
    if o < 0 || o >= max_scan || o >= input.len() {
        None
    } else if signature_at(input, o) {
        Some(o)
    } else {
        scan_from(input, o + 1, max_scan)
    }
}

/// The first offset below `max_scan` that holds the signature.
pub open spec fn first_signature(input: Seq<u8>, max_scan: int) -> Option<int> {
    scan_from(input, 0, max_scan)
}

/// Finds an archive behind a self-extracting stub: the least offset below
/// `max_scan` that holds the signature.
pub fn find_archive_start(input: &[u8], max_scan: usize) -> (sig: Option<ArchiveSignature>)
    ensures
        match sig {
            Some(s) => {
                &&& s.family == ArchiveFamily::Rar13
                &&& s.length == 4
                &&& s.offset < max_scan
                &&& signature_at(input@, s.offset as int)
                &&& forall|p: int| 0 <= p < s.offset ==> !signature_at(input@, p)
            },
            None => forall|p: int| 0 <= p < max_scan ==> !signature_at(input@, p),
        },
        match sig {
            Some(s) => first_signature(input@, max_scan as int) == Some(s.offset as int),
            None => first_signature(input@, max_scan as int) is None,
        },
{
    let mut offset: usize = 0;
    while offset < max_scan && offset < input.len()
        invariant
            offset <= input.len(),
            forall|p: int| 0 <= p < offset ==> !signature_at(input@, p),
            first_signature(input@, max_scan as int) == scan_from(
                input@,
                offset as int,
                max_scan as int,
            ),
        decreases input.len() - offset,
    {
        if has_signature_at(input, offset) {
            return Some(ArchiveSignature { family: ArchiveFamily::Rar13, offset, length: 4 });
        }
        offset = offset + 1;
    }
    None
}

} // verus!
