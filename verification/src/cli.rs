use vstd::prelude::*;

use crate::bytes::copy_bytes;
use crate::error::{lossy_decode, lossy_text, push_text, text};

verus! {

/// Why a number did not parse, in the terms of the standard integer parser.
#[derive(Debug, Clone, Copy, PartialEq, Eq, Structural)]
pub enum NumberError {
    Empty,
    InvalidDigit,
    PosOverflow,
}

/// Why a command line was refused.
#[derive(Debug, Clone, PartialEq, Eq)]
pub enum CliError {
    /// `--password` or `-p` came last, without its value.
    MissingPasswordValue,
    /// The named option came last, without its value.
    MissingOptionValue(&'static str),
    /// The volume size is not a number.
    InvalidNumber(NumberError),
    /// An option the add command does not know, by its position among the
    /// arguments.
    UnknownAddOption(usize),
    /// The add command lacks its archive or its inputs.
    AddUsage,
    /// A solid archive was asked for without compression.
    SolidNeedsCompression,
    /// The add command names an archive but no input.
    NoInputFiles,
    /// A volume set was asked for with more than one input.
    MultivolumeNeedsOneInput,
    /// An entry name leaves the output directory.
    UnsafePath,
    /// An entry name has no component.
    EmptyPath,
    /// Old-style volume names run out after `.r99`.
    TooManyVolumes,
}

/// The usage line of the add command.
pub const ADD_USAGE: &'static str = "usage: oldrar a [--store] [--solid] [--password <password>] [--comment <text>] [--file-comment <text>] [--volume-size <bytes>] <archive> <files...>";

/// The message for a refused command line; an unknown option is quoted from
/// the arguments.
pub open spec fn cli_error_text(e: CliError, args: Seq<Seq<u8>>) -> Seq<u8> {
    match e {
        CliError::MissingPasswordValue => text("missing password value"),
        CliError::MissingOptionValue(option) => text("missing ") + text(option) + text(" value"),
        CliError::InvalidNumber(NumberError::Empty) => text(
            "cannot parse integer from empty string",
        ),
        CliError::InvalidNumber(NumberError::InvalidDigit) => text(
            "invalid digit found in string",
        ),
        CliError::InvalidNumber(NumberError::PosOverflow) => text(
            "number too large to fit in target type",
        ),
        CliError::UnknownAddOption(index) => text("unknown add option: ") + args[index as int],
        CliError::AddUsage => text(ADD_USAGE),
        CliError::SolidNeedsCompression => text("solid RAR 1.4 output requires compression"),
        CliError::NoInputFiles => text("no input files"),
        CliError::MultivolumeNeedsOneInput => text(
            "RAR 1.4 multivolume writer currently supports one input file",
        ),
        CliError::UnsafePath => text("unsafe archive path"),
        CliError::EmptyPath => text("empty archive path"),
        CliError::TooManyVolumes => text(
            "RAR 1.4 old-style volume names only support .r00 through .r99 here",
        ),
    }
}

impl CliError {
    /// The message of this error as bytes.
    pub fn message(&self, args: &[Vec<u8>]) -> (m: Vec<u8>)
        requires
            self matches CliError::UnknownAddOption(index) ==> index < args@.len(),
        ensures
            m@ == cli_error_text(*self, arg_views(args@)),
    {
        let mut out: Vec<u8> = Vec::new();
        match self {
            CliError::MissingPasswordValue => push_text(&mut out, "missing password value"),
            CliError::MissingOptionValue(option) => {
                push_text(&mut out, "missing ");
                push_text(&mut out, option);
                push_text(&mut out, " value");
            },
            CliError::InvalidNumber(NumberError::Empty) => push_text(
                &mut out,
                "cannot parse integer from empty string",
            ),
            CliError::InvalidNumber(NumberError::InvalidDigit) => push_text(
                &mut out,
                "invalid digit found in string",
            ),
            CliError::InvalidNumber(NumberError::PosOverflow) => push_text(
                &mut out,
                "number too large to fit in target type",
            ),
            CliError::UnknownAddOption(index) => {
                push_text(&mut out, "unknown add option: ");
                out.extend_from_slice(args[*index].as_slice());
            },
            CliError::AddUsage => push_text(&mut out, ADD_USAGE),
            CliError::SolidNeedsCompression => push_text(
                &mut out,
                "solid RAR 1.4 output requires compression",
            ),
            CliError::NoInputFiles => push_text(&mut out, "no input files"),
            CliError::MultivolumeNeedsOneInput => push_text(
                &mut out,
                "RAR 1.4 multivolume writer currently supports one input file",
            ),
            CliError::UnsafePath => push_text(&mut out, "unsafe archive path"),
            CliError::EmptyPath => push_text(&mut out, "empty archive path"),
            CliError::TooManyVolumes => push_text(
                &mut out,
                "RAR 1.4 old-style volume names only support .r00 through .r99 here",
            ),
        }
        proof {
            assert(out@ =~= cli_error_text(*self, arg_views(args@)));
        }
        out
    }

    /// The message of this error as text, with invalid UTF-8 in a quoted
    /// argument replaced.
    pub fn to_string(&self, args: &[Vec<u8>]) -> (s: String)
        requires
            self matches CliError::UnknownAddOption(index) ==> index < args@.len(),
        ensures
            s@ == lossy_decode(cli_error_text(*self, arg_views(args@))),
    {
        let bytes = self.message(args);
        lossy_text(bytes.as_slice())
    }
}

/// Optional bytes as plain values.
pub open spec fn opt_bytes(o: Option<Vec<u8>>) -> Option<Seq<u8>> {
    match o {
        Some(v) => Some(v@),
        None => None,
    }
}

/// The bytes of each argument.
pub open spec fn arg_views(args: Seq<Vec<u8>>) -> Seq<Seq<u8>> {
    args.map_values(|a: Vec<u8>| a@)
}

pub open spec fn password_word() -> Seq<u8> {
    seq![45u8, 45, 112, 97, 115, 115, 119, 111, 114, 100]
}

pub open spec fn short_password_word() -> Seq<u8> {
    seq![45u8, 112]
}

pub open spec fn store_word() -> Seq<u8> {
    seq![45u8, 45, 115, 116, 111, 114, 101]
}

pub open spec fn solid_word() -> Seq<u8> {
    seq![45u8, 45, 115, 111, 108, 105, 100]
}

pub open spec fn comment_word() -> Seq<u8> {
    seq![45u8, 45, 99, 111, 109, 109, 101, 110, 116]
}

pub open spec fn file_comment_word() -> Seq<u8> {
    seq![45u8, 45, 102, 105, 108, 101, 45, 99, 111, 109, 109, 101, 110, 116]
}

pub open spec fn volume_size_word() -> Seq<u8> {
    seq![45u8, 45, 118, 111, 108, 117, 109, 101, 45, 115, 105, 122, 101]
}

/// Taking the password options out of the arguments from `i` on, with the
/// password `p` and the other arguments `rest` found before `i`; the last
/// password given wins.
pub open spec fn password_scan(
    args: Seq<Seq<u8>>,
    i: int,
    p: Option<Seq<u8>>,
    rest: Seq<Seq<u8>>,
) -> Result<(Option<Seq<u8>>, Seq<Seq<u8>>), CliError>
    decreases args.len() - i,
{
    if i < 0 || i >= args.len() {
        Ok((p, rest))
    } else if args[i] == password_word() || args[i] == short_password_word() {
        if i + 1 >= args.len() {
            Err(CliError::MissingPasswordValue)
        } else {
            password_scan(args, i + 2, Some(args[i + 1]), rest)
        }
    } else {
        password_scan(args, i + 1, p, rest.push(args[i]))
    }
}

/// Whether two byte strings are equal.
fn same_bytes(a: &[u8], b: &[u8]) -> (eq: bool)
    ensures
        eq == (a@ == b@),
{
    if a.len() != b.len() {
        return false;
    }
    let mut i: usize = 0;
    while i < a.len()
        invariant
            a@.len() == b@.len(),
            i <= a@.len(),
            forall|j: int| 0 <= j < i ==> a@[j] == b@[j],
        decreases a@.len() - i,
    {
        if a[i] != b[i] {
            return false;
        }
        i = i + 1;
    }
    assert(a@ =~= b@);
    true
}

/// Takes `--password <value>` and `-p <value>` out of the arguments.
pub fn parse_password(args: &[Vec<u8>]) -> (r: Result<(Option<Vec<u8>>, Vec<Vec<u8>>), CliError>)
    ensures
        match password_scan(arg_views(args@), 0, None, Seq::empty()) {
            Ok((p, rest)) => r matches Ok((q, v)) && opt_bytes(q) == p && arg_views(v@) == rest,
            Err(e) => r == Err::<(Option<Vec<u8>>, Vec<Vec<u8>>), CliError>(e),
        },
{
    let long: [u8; 10] = [45, 45, 112, 97, 115, 115, 119, 111, 114, 100];
    let short: [u8; 2] = [45, 112];
    assert(long@ =~= password_word());
    assert(short@ =~= short_password_word());
    let ghost a = arg_views(args@);
    let mut password: Option<Vec<u8>> = None;
    let mut rest: Vec<Vec<u8>> = Vec::new();
    let mut i: usize = 0;
    assert(arg_views(rest@) =~= Seq::<Seq<u8>>::empty());
    while i < args.len()
        invariant
            a == arg_views(args@),
            long@ == password_word(),
            short@ == short_password_word(),
            i <= args@.len(),
            password_scan(a, 0, None, Seq::empty()) == password_scan(
                a,
                i as int,
                opt_bytes(password),
                arg_views(rest@),
            ),
        decreases args@.len() - i,
    {
        let arg = args[i].as_slice();
        assert(arg@ == a[i as int]);
        if same_bytes(arg, &long) || same_bytes(arg, &short) {
            if i + 1 >= args.len() {
                return Err(CliError::MissingPasswordValue);
            }
            let value = copy_bytes(args[i + 1].as_slice());
            assert(value@ == a[i + 1]);
            password = Some(value);
            i = i + 2;
        } else {
            let ghost before = arg_views(rest@);
            rest.push(copy_bytes(arg));
            assert(arg_views(rest@) =~= before.push(a[i as int]));
            i = i + 1;
        }
    }
    Ok((password, rest))
}

/// The decimal digits of `s` from `i` on, after the value `acc` of those
/// before; fails on a non-digit or once the value passes `usize::MAX`.
pub open spec fn digits_scan(s: Seq<u8>, i: int, acc: nat) -> Result<nat, NumberError>
    decreases s.len() - i,
{
    if i < 0 || i >= s.len() {
        Ok(acc)
    } else if !(48 <= s[i] <= 57) {
        Err(NumberError::InvalidDigit)
    } else if acc * 10 + (s[i] - 48) > usize::MAX {
        Err(NumberError::PosOverflow)
    } else {
        digits_scan(s, i + 1, (acc * 10 + (s[i] - 48)) as nat)
    }
}

/// What parsing `s` as an unsigned decimal number gives: an optional `+`
/// followed by at least one digit.
pub open spec fn number_result(s: Seq<u8>) -> Result<nat, NumberError> {
    if s.len() == 0 {
        Err(NumberError::Empty)
    } else if (s[0] == 43 || s[0] == 45) && s.len() == 1 {
        Err(NumberError::InvalidDigit)
    } else if s[0] == 43 {
        digits_scan(s, 1, 0)
    } else {
        digits_scan(s, 0, 0)
    }
}

/// Parses an unsigned decimal number.
pub fn parse_usize(s: &[u8]) -> (r: Result<usize, NumberError>)
    ensures
        match number_result(s@) {
            Ok(v) => r == Ok::<usize, NumberError>(v as usize),
            Err(e) => r == Err::<usize, NumberError>(e),
        },
        r matches Ok(v) ==> number_result(s@) == Ok::<nat, NumberError>(v as nat),
{
    if s.len() == 0 {
        return Err(NumberError::Empty);
    }
    if (s[0] == 43 || s[0] == 45) && s.len() == 1 {
        return Err(NumberError::InvalidDigit);
    }
    let mut i: usize = if s[0] == 43 {
        1
    } else {
        0
    };
    let mut acc: usize = 0;
    while i < s.len()
        invariant
            i <= s@.len(),
            number_result(s@) == digits_scan(s@, i as int, acc as nat),
        decreases s@.len() - i,
    {
        let b = s[i];
        if b < 48 || b > 57 {
            return Err(NumberError::InvalidDigit);
        }
        let digit = (b - 48) as usize;
        let next = match acc.checked_mul(10) {
            Some(m) => m.checked_add(digit),
            None => None,
        };
        match next {
            Some(n) => {
                acc = n;
            },
            None => {
                assert(acc * 10 + digit > usize::MAX);
                return Err(NumberError::PosOverflow);
            },
        }
        i = i + 1;
    }
    Ok(acc)
}


/// The options of the add command read so far.
pub struct AddState {
    pub store: bool,
    pub solid: bool,
    pub comment: Option<Seq<u8>>,
    pub file_comment: Option<Seq<u8>>,
    pub volume: Option<nat>,
}

/// Reading the add command's options from argument `i` on; they end at the
/// first argument that is not an option, which names the archive.
pub open spec fn add_scan(args: Seq<Seq<u8>>, i: int, st: AddState) -> Result<
    (AddState, int),
    CliError,
>
    decreases args.len() - i,
{
    if i < 0 || i >= args.len() {
        Ok((st, i))
    } else if args[i] == store_word() {
        add_scan(
            args,
            i + 1,
            AddState {
                store: true,
                solid: st.solid,
                comment: st.comment,
                file_comment: st.file_comment,
                volume: st.volume,
            },
        )
    } else if args[i] == solid_word() {
        add_scan(
            args,
            i + 1,
            AddState {
                store: st.store,
                solid: true,
                comment: st.comment,
                file_comment: st.file_comment,
                volume: st.volume,
            },
        )
    } else if args[i] == comment_word() {
        if i + 1 >= args.len() {
            Err(CliError::MissingOptionValue("--comment"))
        } else {
            add_scan(
                args,
                i + 2,
                AddState {
                    store: st.store,
                    solid: st.solid,
                    comment: Some(args[i + 1]),
                    file_comment: st.file_comment,
                    volume: st.volume,
                },
            )
        }
    } else if args[i] == file_comment_word() {
        if i + 1 >= args.len() {
            Err(CliError::MissingOptionValue("--file-comment"))
        } else {
            add_scan(
                args,
                i + 2,
                AddState {
                    store: st.store,
                    solid: st.solid,
                    comment: st.comment,
                    file_comment: Some(args[i + 1]),
                    volume: st.volume,
                },
            )
        }
    } else if args[i] == volume_size_word() {
        if i + 1 >= args.len() {
            Err(CliError::MissingOptionValue("--volume-size"))
        } else {
            match number_result(args[i + 1]) {
                Err(e) => Err(CliError::InvalidNumber(e)),
                Ok(v) => add_scan(
                    args,
                    i + 2,
                    AddState {
                        store: st.store,
                        solid: st.solid,
                        comment: st.comment,
                        file_comment: st.file_comment,
                        volume: Some(v),
                    },
                ),
            }
        }
    } else if args[i].len() > 0 && args[i][0] == 45 {
        Err(CliError::UnknownAddOption(i as usize))
    } else {
        Ok((st, i))
    }
}

/// What the add command's arguments ask for: the options, the archive path
/// and the input paths, or why they are refused.
pub open spec fn add_plan_result(args: Seq<Seq<u8>>) -> Result<
    (AddState, Seq<u8>, Seq<Seq<u8>>),
    CliError,
> {
    if args.len() < 2 {
        Err(CliError::AddUsage)
    } else {
        match add_scan(
            args,
            0,
            AddState { store: false, solid: false, comment: None, file_comment: None, volume: None },
        ) {
            Err(e) => Err(e),
            Ok((st, i)) => if args.len() <= i {
                Err(CliError::AddUsage)
            } else if st.solid && st.store {
                Err(CliError::SolidNeedsCompression)
            } else if args.len() == i + 1 {
                Err(CliError::NoInputFiles)
            } else if st.volume is Some && args.len() != i + 2 {
                Err(CliError::MultivolumeNeedsOneInput)
            } else {
                Ok((st, args[i], args.subrange(i + 1, args.len() as int)))
            },
        }
    }
}

/// `--file-comment` before the archive gives its value to the files' comment
/// and leaves the archive comment unset; `--comment` does the reverse. Any
/// value, archive path and inputs.
pub proof fn lemma_comment_options(v: Seq<u8>, path: Seq<u8>, inputs: Seq<Seq<u8>>)
    requires
        !(path.len() > 0 && path[0] == 45),
        inputs.len() >= 1,
    ensures
        add_plan_result(seq![file_comment_word(), v, path] + inputs) == Ok::<
            (AddState, Seq<u8>, Seq<Seq<u8>>),
            CliError,
        >(
            (
                AddState {
                    store: false,
                    solid: false,
                    comment: None,
                    file_comment: Some(v),
                    volume: None,
                },
                path,
                inputs,
            ),
        ),
        add_plan_result(seq![comment_word(), v, path] + inputs) == Ok::<
            (AddState, Seq<u8>, Seq<Seq<u8>>),
            CliError,
        >(
            (
                AddState {
                    store: false,
                    solid: false,
                    comment: Some(v),
                    file_comment: None,
                    volume: None,
                },
                path,
                inputs,
            ),
        ),
{
    let start = AddState { store: false, solid: false, comment: None, file_comment: None, volume: None };
    let a = seq![file_comment_word(), v, path] + inputs;
    let b = seq![comment_word(), v, path] + inputs;
    assert(a[0] == file_comment_word() && a[1] == v && a[2] == path);
    assert(b[0] == comment_word() && b[1] == v && b[2] == path);
    assert(file_comment_word() != store_word()) by {
        assert(file_comment_word().len() != store_word().len());
    }
    assert(file_comment_word() != solid_word()) by {
        assert(file_comment_word().len() != solid_word().len());
    }
    assert(file_comment_word() != comment_word()) by {
        assert(file_comment_word().len() != comment_word().len());
    }
    assert(comment_word() != store_word()) by {
        assert(comment_word().len() != store_word().len());
    }
    assert(comment_word() != solid_word()) by {
        assert(comment_word().len() != solid_word().len());
    }
    if path == store_word() {
        assert(path[0] == 45);
    }
    if path == solid_word() {
        assert(path[0] == 45);
    }
    if path == comment_word() {
        assert(path[0] == 45);
    }
    if path == file_comment_word() {
        assert(path[0] == 45);
    }
    if path == volume_size_word() {
        assert(path[0] == 45);
    }
    assert(a.subrange(3, a.len() as int) =~= inputs);
    assert(b.subrange(3, b.len() as int) =~= inputs);
    let st_a = AddState { file_comment: Some(v), ..start };
    let st_b = AddState { comment: Some(v), ..start };
    assert(add_scan(a, 2, st_a) == Ok::<(AddState, int), CliError>((st_a, 2)));
    assert(add_scan(a, 0, start) == add_scan(a, 2, st_a));
    assert(add_scan(b, 2, st_b) == Ok::<(AddState, int), CliError>((st_b, 2)));
    assert(add_scan(b, 0, start) == add_scan(b, 2, st_b));
}

/// What the add command is asked to do.
pub struct AddPlan {
    pub store: bool,
    pub solid: bool,
    pub archive_comment: Option<Vec<u8>>,
    pub file_comment: Option<Vec<u8>>,
    pub volume_size: Option<usize>,
    pub archive_path: Vec<u8>,
    pub inputs: Vec<Vec<u8>>,
}

impl AddPlan {
    /// The plan holds the options, archive path and inputs given.
    pub open spec fn holds(&self, st: AddState, path: Seq<u8>, inputs: Seq<Seq<u8>>) -> bool {
        &&& self.store == st.store
        &&& self.solid == st.solid
        &&& opt_bytes(self.archive_comment) == st.comment
        &&& opt_bytes(self.file_comment) == st.file_comment
        &&& match self.volume_size {
            Some(v) => st.volume == Some(v as nat),
            None => st.volume is None,
        }
        &&& self.archive_path@ == path
        &&& arg_views(self.inputs@) == inputs
    }
}

/// Reads the add command's options, archive path and input paths.
pub fn plan_add(args: &[Vec<u8>]) -> (r: Result<AddPlan, CliError>)
    ensures
        match add_plan_result(arg_views(args@)) {
            Ok((st, path, inputs)) => r matches Ok(plan) && plan.holds(st, path, inputs),
            Err(e) => r == Err::<AddPlan, CliError>(e),
        },
{
    let ghost a = arg_views(args@);
    if args.len() < 2 {
        return Err(CliError::AddUsage);
    }
    let store_w: [u8; 7] = [45, 45, 115, 116, 111, 114, 101];
    let solid_w: [u8; 7] = [45, 45, 115, 111, 108, 105, 100];
    let comment_w: [u8; 9] = [45, 45, 99, 111, 109, 109, 101, 110, 116];
    let file_comment_w: [u8; 14] = [45, 45, 102, 105, 108, 101, 45, 99, 111, 109, 109, 101, 110, 116];
    let volume_w: [u8; 13] = [45, 45, 118, 111, 108, 117, 109, 101, 45, 115, 105, 122, 101];
    assert(store_w@ =~= store_word());
    assert(solid_w@ =~= solid_word());
    assert(comment_w@ =~= comment_word());
    assert(file_comment_w@ =~= file_comment_word());
    assert(volume_w@ =~= volume_size_word());
    let mut store = false;
    let mut solid = false;
    let mut archive_comment: Option<Vec<u8>> = None;
    let mut file_comment: Option<Vec<u8>> = None;
    let mut volume_size: Option<usize> = None;
    let mut i: usize = 0;
    let ghost start = AddState {
        store: false,
        solid: false,
        comment: None,
        file_comment: None,
        volume: None,
    };
    assert(a.len() == args@.len());
    loop
        invariant
            a == arg_views(args@),
            a.len() == args@.len(),
            start == (AddState {
                store: false,
                solid: false,
                comment: None,
                file_comment: None,
                volume: None,
            }),
            args@.len() >= 2,
            i <= args@.len(),
            store_w@ == store_word(),
            solid_w@ == solid_word(),
            comment_w@ == comment_word(),
            file_comment_w@ == file_comment_word(),
            volume_w@ == volume_size_word(),
            add_scan(a, 0, start) == add_scan(
                a,
                i as int,
                AddState {
                    store,
                    solid,
                    comment: opt_bytes(archive_comment),
                    file_comment: opt_bytes(file_comment),
                    volume: match volume_size {
                        Some(v) => Some(v as nat),
                        None => None,
                    },
                },
            ),
        ensures
            i <= args@.len(),
            add_scan(a, 0, start) == Ok::<(AddState, int), CliError>(
                (
                    AddState {
                        store,
                        solid,
                        comment: opt_bytes(archive_comment),
                        file_comment: opt_bytes(file_comment),
                        volume: match volume_size {
                            Some(v) => Some(v as nat),
                            None => None,
                        },
                    },
                    i as int,
                ),
            ),
        decreases args@.len() - i,
    {
        if i >= args.len() {
            break ;
        }
        let arg = args[i].as_slice();
        assert(arg@ == a[i as int]);
        if same_bytes(arg, &store_w) {
            store = true;
            i = i + 1;
        } else if same_bytes(arg, &solid_w) {
            solid = true;
            i = i + 1;
        } else if same_bytes(arg, &comment_w) {
            if i + 1 >= args.len() {
                return Err(CliError::MissingOptionValue("--comment"));
            }
            let value = copy_bytes(args[i + 1].as_slice());
            assert(value@ == a[i + 1]);
            archive_comment = Some(value);
            i = i + 2;
        } else if same_bytes(arg, &file_comment_w) {
            if i + 1 >= args.len() {
                return Err(CliError::MissingOptionValue("--file-comment"));
            }
            let value = copy_bytes(args[i + 1].as_slice());
            assert(value@ == a[i + 1]);
            file_comment = Some(value);
            i = i + 2;
        } else if same_bytes(arg, &volume_w) {
            if i + 1 >= args.len() {
                return Err(CliError::MissingOptionValue("--volume-size"));
            }
            assert(args[i + 1 as int]@ == a[i + 1]);
            let v = match parse_usize(args[i + 1].as_slice()) {
                Ok(v) => v,
                Err(e) => {
                    return Err(CliError::InvalidNumber(e));
                },
            };
            volume_size = Some(v);
            i = i + 2;
        } else if arg.len() > 0 && arg[0] == 45 {
            return Err(CliError::UnknownAddOption(i));
        } else {
            break ;
        }
    }
    if args.len() <= i {
        return Err(CliError::AddUsage);
    }
    if solid && store {
        return Err(CliError::SolidNeedsCompression);
    }
    if args.len() == i + 1 {
        return Err(CliError::NoInputFiles);
    }
    if volume_size.is_some() && args.len() != i + 2 {
        return Err(CliError::MultivolumeNeedsOneInput);
    }
    let archive_path = copy_bytes(args[i].as_slice());
    let mut inputs: Vec<Vec<u8>> = Vec::new();
    let mut k: usize = i + 1;
    assert(arg_views(inputs@) =~= a.subrange(i + 1, i + 1));
    while k < args.len()
        invariant
            a == arg_views(args@),
            i + 1 <= k <= args@.len(),
            arg_views(inputs@) == a.subrange(i + 1, k as int),
        decreases args@.len() - k,
    {
        let ghost before = arg_views(inputs@);
        let c = copy_bytes(args[k].as_slice());
        assert(c@ == a[k as int]);
        inputs.push(c);
        assert(arg_views(inputs@) =~= before.push(a[k as int]));
        assert(a.subrange(i + 1, k + 1) =~= a.subrange(i + 1, k as int).push(a[k as int]));
        k = k + 1;
    }
    Ok(AddPlan { store, solid, archive_comment, file_comment, volume_size, archive_path, inputs })
}


/// A path separator: `/`, or the backslash that old archives write.
pub open spec fn is_separator(b: u8) -> bool {
    b == 47 || b == 92
}

/// Adding one component of an entry name: empty components and `.` are
/// dropped, `..` is refused.
pub open spec fn add_component(part: Seq<u8>, parts: Seq<Seq<u8>>) -> Result<Seq<Seq<u8>>, CliError> {
    if part.len() == 0 || part == seq![46u8] {
        Ok(parts)
    } else if part == seq![46u8, 46u8] {
        Err(CliError::UnsafePath)
    } else {
        Ok(parts.push(part))
    }
}

/// Splitting an entry name into components from byte `i` on, with the
/// component `cur` under way and the components `parts` before it.
pub open spec fn components_scan(
    name: Seq<u8>,
    i: int,
    cur: Seq<u8>,
    parts: Seq<Seq<u8>>,
) -> Result<Seq<Seq<u8>>, CliError>
    decreases name.len() - i,
{
    if i < 0 || i >= name.len() {
        add_component(cur, parts)
    } else if is_separator(name[i]) {
        match add_component(cur, parts) {
            Err(e) => Err(e),
            Ok(p) => components_scan(name, i + 1, Seq::empty(), p),
        }
    } else {
        components_scan(name, i + 1, cur.push(name[i]), parts)
    }
}

/// The path components under which an entry is extracted, or why its name
/// would leave the output directory.
pub open spec fn components_result(name: Seq<u8>) -> Result<Seq<Seq<u8>>, CliError> {
    if name.len() > 0 && is_separator(name[0]) {
        Err(CliError::UnsafePath)
    } else {
        match components_scan(name, 0, Seq::empty(), Seq::empty()) {
            Err(e) => Err(e),
            Ok(parts) => if parts.len() == 0 {
                Err(CliError::EmptyPath)
            } else {
                Ok(parts)
            },
        }
    }
}

/// A component that stays where it is put: not empty, not `.` or `..`, and
/// without separators.
pub open spec fn safe_component(part: Seq<u8>) -> bool {
    &&& part.len() > 0
    &&& part != seq![46u8]
    &&& part != seq![46u8, 46u8]
    &&& forall|k: int| 0 <= k < part.len() ==> !is_separator(#[trigger] part[k])
}

/// Every component found by a scan is safe.
proof fn lemma_components_safe(name: Seq<u8>, i: int, cur: Seq<u8>, parts: Seq<Seq<u8>>)
    requires
        0 <= i <= name.len(),
        forall|k: int| 0 <= k < cur.len() ==> !is_separator(#[trigger] cur[k]),
        forall|j: int| 0 <= j < parts.len() ==> safe_component(#[trigger] parts[j]),
    ensures
        components_scan(name, i, cur, parts) matches Ok(ps) ==> forall|j: int|
            0 <= j < ps.len() ==> safe_component(#[trigger] ps[j]),
    decreases name.len() - i,
{
    if i < name.len() {
        if is_separator(name[i]) {
            match add_component(cur, parts) {
                Ok(p) => {
                    assert forall|j: int| 0 <= j < p.len() implies safe_component(#[trigger] p[j]) by {
                        if j == parts.len() {
                            assert(p[j] == cur);
                        } else {
                            assert(p[j] == parts[j]);
                        }
                    }
                    lemma_components_safe(name, i + 1, Seq::empty(), p);
                },
                Err(_) => {},
            }
        } else {
            let c = cur.push(name[i]);
            assert forall|k: int| 0 <= k < c.len() implies !is_separator(#[trigger] c[k]) by {
                if k < cur.len() {
                    assert(c[k] == cur[k]);
                }
            }
            lemma_components_safe(name, i + 1, c, parts);
        }
    } else {
        match add_component(cur, parts) {
            Ok(p) => {
                assert forall|j: int| 0 <= j < p.len() implies safe_component(#[trigger] p[j]) by {
                    if j == parts.len() {
                        assert(p[j] == cur);
                    } else {
                        assert(p[j] == parts[j]);
                    }
                }
            },
            Err(_) => {},
        }
    }
}

/// Adds a finished component to `parts`.
fn push_component(cur: Vec<u8>, parts: &mut Vec<Vec<u8>>) -> (r: Result<(), CliError>)
    ensures
        match add_component(cur@, arg_views(old(parts)@)) {
            Ok(p) => r is Ok && arg_views(final(parts)@) == p,
            Err(e) => r == Err::<(), CliError>(e),
        },
{
    let ghost before = arg_views(parts@);
    if cur.len() == 0 || (cur.len() == 1 && cur[0] == 46) {
        proof {
            if cur@.len() == 1 {
                assert(cur@ =~= seq![46u8]);
            }
        }
        return Ok(());
    }
    if cur.len() == 2 && cur[0] == 46 && cur[1] == 46 {
        assert(cur@ =~= seq![46u8, 46u8]);
        return Err(CliError::UnsafePath);
    }
    proof {
        if cur@ == seq![46u8] {
            assert(cur@[0] == 46);
        }
        if cur@ == seq![46u8, 46u8] {
            assert(cur@[0] == 46 && cur@[1] == 46);
        }
    }
    parts.push(cur);
    assert(arg_views(parts@) =~= before.push(cur@));
    Ok(())
}

/// The components under which an entry named `name` is extracted. Names
/// that start at the root or climb out with `..` are refused, so every
/// component returned is safe.
pub fn output_components(name: &[u8]) -> (r: Result<Vec<Vec<u8>>, CliError>)
    ensures
        match components_result(name@) {
            Ok(parts) => r matches Ok(v) && arg_views(v@) == parts,
            Err(e) => r == Err::<Vec<Vec<u8>>, CliError>(e),
        },
        r matches Ok(v) ==> v@.len() > 0 && forall|j: int|
            0 <= j < v@.len() ==> safe_component(#[trigger] v@[j]@),
{
    if name.len() > 0 && (name[0] == 47 || name[0] == 92) {
        return Err(CliError::UnsafePath);
    }
    let mut parts: Vec<Vec<u8>> = Vec::new();
    let mut cur: Vec<u8> = Vec::new();
    let mut i: usize = 0;
    assert(arg_views(parts@) =~= Seq::<Seq<u8>>::empty());
    assert(cur@ =~= Seq::<u8>::empty());
    proof {
        lemma_components_safe(name@, 0, Seq::empty(), Seq::empty());
    }
    while i < name.len()
        invariant
            i <= name@.len(),
            components_scan(name@, 0, Seq::empty(), Seq::empty()) == components_scan(
                name@,
                i as int,
                cur@,
                arg_views(parts@),
            ),
        decreases name@.len() - i,
    {
        let b = name[i];
        if b == 47 || b == 92 {
            let finished = cur;
            cur = Vec::new();
            match push_component(finished, &mut parts) {
                Ok(()) => {},
                Err(e) => {
                    return Err(e);
                },
            }
            assert(cur@ =~= Seq::<u8>::empty());
        } else {
            cur.push(b);
        }
        i = i + 1;
    }
    match push_component(cur, &mut parts) {
        Ok(()) => {},
        Err(e) => {
            return Err(e);
        },
    }
    if parts.len() == 0 {
        return Err(CliError::EmptyPath);
    }
    proof {
        assert forall|j: int| 0 <= j < parts@.len() implies safe_component(#[trigger] parts@[j]@) by {
            assert(parts@[j]@ == arg_views(parts@)[j]);
        }
    }
    Ok(parts)
}

/// The extension of volume `index` of a set: none for the first volume,
/// then `r00` to `r99`.
pub open spec fn volume_extension_result(index: nat) -> Result<Option<Seq<u8>>, CliError> {
    if index == 0 {
        Ok(None)
    } else if index > 100 {
        Err(CliError::TooManyVolumes)
    } else {
        Ok(
            Some(
                seq![
                    114u8,
                    (48 + (index - 1) / 10) as u8,
                    (48 + (index - 1) % 10) as u8,
                ],
            ),
        )
    }
}

/// Volume `index`, from 1 to 100, is named by `r` and two decimal digits
/// that read `index - 1`; the first volume has no extension and volumes past
/// the hundredth are refused.
pub proof fn lemma_volume_extension_digits(index: nat)
    ensures
        index == 0 ==> volume_extension_result(index) == Ok::<Option<Seq<u8>>, CliError>(None),
        index > 100 ==> volume_extension_result(index) == Err::<Option<Seq<u8>>, CliError>(
            CliError::TooManyVolumes,
        ),
        1 <= index <= 100 ==> (volume_extension_result(index) matches Ok(Some(e)) && e.len() == 3
            && e[0] == 114 && 48 <= e[1] <= 57 && 48 <= e[2] <= 57 && (e[1] - 48) * 10 + (e[2]
            - 48) == index - 1),
{
}

/// Distinct volumes get distinct extensions.
pub proof fn lemma_volume_extension_distinct(i: nat, j: nat)
    requires
        i != j,
    ensures
        volume_extension_result(i) is Ok && volume_extension_result(j) is Ok
            ==> volume_extension_result(i) != volume_extension_result(j),
{
    lemma_volume_extension_digits(i);
    lemma_volume_extension_digits(j);
    if 1 <= i <= 100 && 1 <= j <= 100 {
        let ei = volume_extension_result(i)->Ok_0->Some_0;
        let ej = volume_extension_result(j)->Ok_0->Some_0;
        if ei == ej {
            assert(ei[1] == ej[1] && ei[2] == ej[2]);
        }
    }
}

/// The extension of volume `index` of a set.
pub fn volume_extension(index: usize) -> (r: Result<Option<Vec<u8>>, CliError>)
    ensures
        match volume_extension_result(index as nat) {
            Ok(ext) => r matches Ok(e) && opt_bytes(e) == ext,
            Err(e) => r == Err::<Option<Vec<u8>>, CliError>(e),
        },
{
    if index == 0 {
        return Ok(None);
    }
    if index > 100 {
        return Err(CliError::TooManyVolumes);
    }
    let n = index - 1;
    let mut ext: Vec<u8> = Vec::new();
    ext.push(114);
    ext.push((48 + n / 10) as u8);
    ext.push((48 + n % 10) as u8);
    assert(ext@ =~= seq![114u8, (48 + n / 10) as u8, (48 + n % 10) as u8]);
    Ok(Some(ext))
}

} // verus!
