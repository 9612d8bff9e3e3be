use vstd::prelude::*;

use crate::codec;
use vstd::string::StringSliceAdditionalSpecFns;
use crate::version::ArchiveVersion;

verus! {

/// The result of an archive operation.
pub type Result<T> = std::result::Result<T, Error>;

/// Everything that can go wrong while reading or writing an archive.
#[derive(Debug, PartialEq, Eq)]
pub enum Error {
    TooShort,
    UnsupportedSignature,
    InvalidHeader(&'static str),
    AtArchiveOffset { offset: usize, source: Box<Error> },
    AtEntry { name: Vec<u8>, operation: &'static str, source: Box<Error> },
    UnsupportedVersion(ArchiveVersion),
    UnsupportedFeature { version: ArchiveVersion, feature: &'static str },
    Io(String),
    NeedPassword,
    WrongPasswordOrCorruptData,
    CrcMismatch { expected: u16, actual: u16 },
    Crc32Mismatch { expected: u32, actual: u32 },
    HashMismatch { hash_type: u64 },
}

impl Clone for Error {
    /// A copy of the error, with copies of its context and source.
    fn clone(&self) -> (c: Self)
        ensures
            error_text(c) == error_text(*self),
        decreases self,
    {
        match self {
            Error::TooShort => Error::TooShort,
            Error::UnsupportedSignature => Error::UnsupportedSignature,
            Error::InvalidHeader(m) => Error::InvalidHeader(m),
            Error::AtArchiveOffset { offset, source } => {
                let inner = (**source).clone();
                Error::AtArchiveOffset { offset: *offset, source: Box::new(inner) }
            },
            Error::AtEntry { name, operation, source } => {
                let inner = (**source).clone();
                let copied = name.clone();
                proof {
                    assert(copied@ =~= name@);
                }
                Error::AtEntry { name: copied, operation, source: Box::new(inner) }
            },
            Error::UnsupportedVersion(v) => Error::UnsupportedVersion(*v),
            Error::UnsupportedFeature { version, feature } => Error::UnsupportedFeature {
                version: *version,
                feature,
            },
            Error::Io(m) => Error::Io(m.clone()),
            Error::NeedPassword => Error::NeedPassword,
            Error::WrongPasswordOrCorruptData => Error::WrongPasswordOrCorruptData,
            Error::CrcMismatch { expected, actual } => Error::CrcMismatch {
                expected: *expected,
                actual: *actual,
            },
            Error::Crc32Mismatch { expected, actual } => Error::Crc32Mismatch {
                expected: *expected,
                actual: *actual,
            },
            Error::HashMismatch { hash_type } => Error::HashMismatch { hash_type: *hash_type },
        }
    }
}

/// The ASCII bytes of a piece of message text.
pub open spec fn text(s: &str) -> Seq<u8> {
    s.spec_bytes()
}

/// The lower-case hexadecimal digit for `d < 16`.
pub open spec fn hex_digit(d: nat) -> u8 {
    if d < 10 {
        (0x30 + d) as u8
    } else {
        (0x61 + d - 10) as u8
    }
}

/// The digits of `v` in base `base` (2..=16), most significant first, without
/// leading zeros (a single `0` for zero).
pub open spec fn digits(v: nat, base: nat) -> Seq<u8>
    decreases v,
{
    if base < 2 || v < base {
        seq![hex_digit(v % 16)]
    } else {
        proof {
            assert(v / base < v) by (nonlinear_arith)
                requires
                    v >= base,
                    base >= 2,
            ;
        }
        digits(v / base, base).push(hex_digit(v % base))
    }
}

/// The digits of `v` in `base`, left-padded with `0` to at least `width` digits.
pub open spec fn padded_digits(v: nat, base: nat, width: nat) -> Seq<u8> {
    let d = digits(v, base);
    if d.len() < width {
        Seq::new((width - d.len()) as nat, |i: int| 0x30u8) + d
    } else {
        d
    }
}

/// `0x` followed by the hexadecimal digits of `v`, padded to `width` digits.
pub open spec fn hex_text(v: nat, width: nat) -> Seq<u8> {
    seq![0x30u8, 0x78u8] + padded_digits(v, 16, width)
}

/// The debug name of a format version.
pub open spec fn version_text(v: ArchiveVersion) -> Seq<u8> {
    match v {
        ArchiveVersion::Rar13 => seq![0x52u8, 0x61, 0x72, 0x31, 0x33],
        ArchiveVersion::Rar14 => seq![0x52u8, 0x61, 0x72, 0x31, 0x34],
    }
}

/// The human-readable message of an error, as bytes; for an error about an
/// entry the entry's raw name bytes stand between the quotes.
pub open spec fn error_text(e: Error) -> Seq<u8>
    decreases e,
{
    match e {
        Error::TooShort => text("input is too short"),
        Error::UnsupportedSignature => text("unsupported archive signature"),
        Error::InvalidHeader(msg) => text("invalid header: ") + text(msg),
        Error::AtArchiveOffset { offset, source } => text("at archive offset ") + hex_text(
            offset as nat,
            1,
        ) + text(": ") + error_text(*source),
        Error::AtEntry { name, operation, source } => text("while ") + text(operation) + text(
            " entry '",
        ) + name@ + text("': ") + error_text(*source),
        Error::UnsupportedVersion(version) => text("unsupported version: ") + version_text(
            version,
        ),
        Error::UnsupportedFeature { version, feature } => text("feature ") + text(feature)
            + text(" is not supported by ") + version_text(version),
        Error::Io(message) => text("I/O error: ") + vstd::utf8::encode_utf8(message@),
        Error::NeedPassword => text("a password is required"),
        Error::WrongPasswordOrCorruptData => text("wrong password or corrupt encrypted data"),
        Error::CrcMismatch { expected, actual } => text("checksum mismatch: expected ")
            + hex_text(expected as nat, 4) + text(", got ") + hex_text(actual as nat, 4),
        Error::Crc32Mismatch { expected, actual } => text("checksum mismatch: expected ")
            + hex_text(expected as nat, 8) + text(", got ") + hex_text(actual as nat, 8),
        Error::HashMismatch { hash_type } => text("hash mismatch for hash type ") + digits(
            hash_type as nat,
            10,
        ),
    }
}

/// Appends the digit for `d < 16`.
fn push_digit(out: &mut Vec<u8>, d: u64)
    requires
        d < 16,
    ensures
        final(out)@ == old(out)@.push(hex_digit(d as nat)),
{
    if d < 10 {
        out.push((0x30 + d) as u8);
    } else {
        out.push((0x61 + d - 10) as u8);
    }
}

/// The number of digits of `v` in `base`.
fn digit_count(v: u64, base: u64) -> (n: usize)
    requires
        2 <= base <= 16,
    ensures
        n == digits(v as nat, base as nat).len(),
        1 <= n <= 64,
    decreases v,
{
    if v < base {
        1
    } else {
        assert(v / base < v) by (nonlinear_arith)
            requires
                v >= base,
                base >= 2,
        ;
        let n = digit_count(v / base, base);
        proof {
            assert(digits(v as nat, base as nat) == digits((v / base) as nat, base as nat).push(
                hex_digit((v % base) as nat),
            ));
            lemma_digit_count_bound(v as nat, base as nat);
        }
        n + 1
    }
}

proof fn lemma_digit_count_bound(v: nat, base: nat)
    requires
        2 <= base <= 16,
        v < 0x1_0000_0000_0000_0000,
    ensures
        digits(v, base).len() <= 64,
{
    vstd::arithmetic::power2::lemma2_to64();
    lemma_digit_count_log(v, base, 64);
}

proof fn lemma_digit_count_log(v: nat, base: nat, n: nat)
    requires
        2 <= base <= 16,
        1 <= n,
        v < vstd::arithmetic::power2::pow2(n),
    ensures
        digits(v, base).len() <= n,
    decreases v,
{
    if v < base {
    } else {
        vstd::arithmetic::power2::lemma_pow2_unfold(n);
        let p = vstd::arithmetic::power2::pow2((n - 1) as nat);
        assert(v / base < p) by (nonlinear_arith)
            requires
                v >= base,
                base >= 2,
                v < 2 * p,
        {
            assert(v / base <= v / 2);
        }
        if n == 1 {
            vstd::arithmetic::power2::lemma2_to64();
            assert(false) by (nonlinear_arith)
                requires
                    v >= base,
                    base >= 2,
                    v < 2 * p,
                    p == 1,
            ;
        } else {
            assert(v / base < v) by (nonlinear_arith)
                requires
                    v >= base,
                    base >= 2,
            ;
            lemma_digit_count_log(v / base, base, (n - 1) as nat);
        }
    }
}

/// Appends the digits of `v` in `base`.
fn push_digits(out: &mut Vec<u8>, v: u64, base: u64)
    requires
        2 <= base <= 16,
    ensures
        final(out)@ == old(out)@ + digits(v as nat, base as nat),
    decreases v,
{
    if v < base {
        push_digit(out, v);
        assert(digits(v as nat, base as nat) =~= seq![hex_digit((v % 16) as nat)]);
    } else {
        assert(v / base < v) by (nonlinear_arith)
            requires
                v >= base,
                base >= 2,
        ;
        push_digits(out, v / base, base);
        push_digit(out, v % base);
        assert(digits(v as nat, base as nat) == digits((v / base) as nat, base as nat).push(
            hex_digit((v % base) as nat),
        ));
    }
}

/// Appends `0x` and the hexadecimal digits of `v`, padded to `width` digits.
fn push_hex(out: &mut Vec<u8>, v: u64, width: usize)
    requires
        width <= 16,
    ensures
        final(out)@ == old(out)@ + hex_text(v as nat, width as nat),
{
    let ghost start = out@;
    out.push(0x30);
    out.push(0x78);
    let n = digit_count(v, 16);
    let mut pad: usize = 0;
    if n < width {
        while pad < width - n
            invariant
                n < width,
                pad <= width - n,
                out@ == start + seq![0x30u8, 0x78u8] + Seq::new(pad as nat, |i: int| 0x30u8),
            decreases width - n - pad,
        {
            out.push(0x30);
            pad = pad + 1;
            proof {
                assert(out@ =~= start + seq![0x30u8, 0x78u8] + Seq::new(
                    pad as nat,
                    |i: int| 0x30u8,
                ));
            }
        }
    }
    let ghost mid = out@;
    push_digits(out, v, 16);
    proof {
        let d = digits(v as nat, 16);
        if n < width {
            assert(out@ =~= start + hex_text(v as nat, width as nat));
        } else {
            assert(Seq::new(0, |i: int| 0x30u8) =~= Seq::<u8>::empty());
            assert(out@ =~= start + hex_text(v as nat, width as nat));
        }
    }
}

/// Appends the bytes of a message string.
pub(crate) fn push_text(out: &mut Vec<u8>, s: &str)
    ensures
        final(out)@ == old(out)@ + text(s),
{
    let bytes = s.as_bytes();
    out.extend_from_slice(bytes);
    proof {
        assert(out@ =~= old(out)@ + text(s));
    }
}

/// Appends the debug name of a version.
fn push_version(out: &mut Vec<u8>, v: ArchiveVersion)
    ensures
        final(out)@ == old(out)@ + version_text(v),
{
    out.push(0x52);
    out.push(0x61);
    out.push(0x72);
    out.push(0x31);
    match v {
        ArchiveVersion::Rar13 => out.push(0x33),
        ArchiveVersion::Rar14 => out.push(0x34),
    }
    proof {
        assert(out@ =~= old(out)@ + version_text(v));
    }
}

impl Error {
    /// Wraps this error with the archive offset at which it happened.
    pub fn at_archive_offset(self, offset: usize) -> (e: Error)
        ensures
            e == (Error::AtArchiveOffset { offset, source: Box::new(self) }),
    {
        Error::AtArchiveOffset { offset, source: Box::new(self) }
    }

    /// Wraps this error with the entry and the operation during which it happened.
    pub fn at_entry(self, name: Vec<u8>, operation: &'static str) -> (e: Error)
        ensures
            e == (Error::AtEntry { name, operation, source: Box::new(self) }),
    {
        Error::AtEntry { name, operation, source: Box::new(self) }
    }

    /// The error this one wraps, if it carries context.
    pub fn source(&self) -> (src: Option<&Error>)
        ensures
            match *self {
                Error::AtArchiveOffset { source, .. } => src == Some(&*source),
                Error::AtEntry { source, .. } => src == Some(&*source),
                _ => src is None,
            },
    {
        match self {
            Error::AtArchiveOffset { source, .. } => Some(&**source),
            Error::AtEntry { source, .. } => Some(&**source),
            _ => None,
        }
    }

    /// Appends the message of this error to `out`.
    pub fn write_message(&self, out: &mut Vec<u8>)
        ensures
            final(out)@ == old(out)@ + error_text(*self),
        decreases *self,
    {
        let ghost start = out@;
        match self {
            Error::TooShort => push_text(out, "input is too short"),
            Error::UnsupportedSignature => push_text(out, "unsupported archive signature"),
            Error::InvalidHeader(msg) => {
                push_text(out, "invalid header: ");
                push_text(out, msg);
            },
            Error::AtArchiveOffset { offset, source } => {
                push_text(out, "at archive offset ");
                push_hex(out, *offset as u64, 1);
                push_text(out, ": ");
                source.write_message(out);
            },
            Error::AtEntry { name, operation, source } => {
                push_text(out, "while ");
                push_text(out, operation);
                push_text(out, " entry '");
                out.extend_from_slice(name.as_slice());
                push_text(out, "': ");
                source.write_message(out);
            },
            Error::UnsupportedVersion(version) => {
                push_text(out, "unsupported version: ");
                push_version(out, *version);
            },
            Error::UnsupportedFeature { version, feature } => {
                push_text(out, "feature ");
                push_text(out, feature);
                push_text(out, " is not supported by ");
                push_version(out, *version);
            },
            Error::Io(message) => {
                push_text(out, "I/O error: ");
                push_text(out, message.as_str());
            },
            Error::NeedPassword => push_text(out, "a password is required"),
            Error::WrongPasswordOrCorruptData => push_text(
                out,
                "wrong password or corrupt encrypted data",
            ),
            Error::CrcMismatch { expected, actual } => {
                push_text(out, "checksum mismatch: expected ");
                push_hex(out, *expected as u64, 4);
                push_text(out, ", got ");
                push_hex(out, *actual as u64, 4);
            },
            Error::Crc32Mismatch { expected, actual } => {
                push_text(out, "checksum mismatch: expected ");
                push_hex(out, *expected as u64, 8);
                push_text(out, ", got ");
                push_hex(out, *actual as u64, 8);
            },
            Error::HashMismatch { hash_type } => {
                push_text(out, "hash mismatch for hash type ");
                push_digits(out, *hash_type, 10);
            },
        }
        proof {
            assert(out@ =~= start + error_text(*self));
        }
    }

    /// The message of this error as bytes.
    pub fn message(&self) -> (m: Vec<u8>)
        ensures
            m@ == error_text(*self),
    {
        let mut out: Vec<u8> = Vec::new();
        self.write_message(&mut out);
        proof {
            assert(out@ =~= error_text(*self));
        }
        out
    }

    /// The message of this error as text; where the message is valid UTF-8 the
    /// text decodes exactly those bytes.
    pub fn to_string(&self) -> (s: String)
        ensures
            s@ == lossy_decode(error_text(*self)),
            vstd::utf8::valid_utf8(error_text(*self)) ==> s@ == vstd::utf8::decode_utf8(
                error_text(*self),
            ),
    {
        let bytes = self.message();
        lossy_text(bytes.as_slice())
    }

    /// The archive-level error for a failure of the codec.
    pub fn from_codec(error: codec::Error) -> (e: Error)
        ensures
            e == match error {
                codec::Error::InvalidData(message) => Error::InvalidHeader(message),
                codec::Error::NeedMoreInput => Error::InvalidHeader("codec input is truncated"),
            },
    {
        match error {
            codec::Error::InvalidData(message) => Error::InvalidHeader(message),
            codec::Error::NeedMoreInput => Error::InvalidHeader("codec input is truncated"),
        }
    }
}

/// Wrapping an error in context keeps it as the source, and the message of
/// the wrapped error is the context followed by the message of the source.
pub proof fn lemma_context_keeps_source(
    e: Error,
    offset: usize,
    name: Vec<u8>,
    operation: &'static str,
)
    ensures
        error_text(Error::AtArchiveOffset { offset, source: Box::new(e) }) == text(
            "at archive offset ",
        ) + hex_text(offset as nat, 1) + text(": ") + error_text(e),
        error_text(Error::AtEntry { name, operation, source: Box::new(e) }) == text("while ")
            + text(operation) + text(" entry '") + name@ + text("': ") + error_text(e),
{
}

/// The text `String::from_utf8_lossy` makes of a byte string: a function of
/// the bytes alone.
pub uninterp spec fn lossy_decode(bytes: Seq<u8>) -> Seq<char>;

/// Decodes bytes as UTF-8 text, replacing invalid sequences
/// (`String::from_utf8_lossy`). The result is `lossy_decode` of the bytes; its
/// documentation promises that valid UTF-8 comes back unchanged. What replaces
/// an invalid sequence is left to the name.
#[verifier::external_body]
pub(crate) fn lossy_text(bytes: &[u8]) -> (s: String)
    ensures
        s@ == lossy_decode(bytes@),
        vstd::utf8::valid_utf8(bytes@) ==> s@ == vstd::utf8::decode_utf8(bytes@),
{
    String::from_utf8_lossy(bytes).into_owned()
}

} // verus!
