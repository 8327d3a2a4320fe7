//! Command-line arguments, the usage text, and the messages of the errors the
//! program reports.

use vstd::prelude::*;
use vstd::string::{StringExecFns, StringSliceAdditionalSpecFns};
use vstd::utf8::*;

use crate::normalize::{is_ascii_whitespace_byte, whitespace_len};
use crate::text::str_slice;

verus! {

broadcast use vstd::utf8::group_utf8_lib;

/// The name the program goes by when its own name is not available.
pub open spec fn default_program() -> Seq<char> {
    "git-range-diff-better"@
}

/// The usage text for a program called `program`.
pub open spec fn usage_text(program: Seq<char>) -> Seq<char> {
    "Usage: "@ + program + " <before-push-range> <after-push-range>\n\nExample:\n  "@ + program
        + " abc123..def456 fed789..012345\n\nEach range is passed directly to `git diff --no-color --no-ext-diff <range>`."@
}

/// The message for arguments that are not valid UTF-8.
pub open spec fn invalid_arguments_text(program: Seq<char>) -> Seq<char> {
    "arguments must be valid UTF-8\n\n"@ + usage_text(program)
}

/// The usage text of the program.
pub fn usage(program: &str) -> (r: String)
    ensures
        r@ == usage_text(program@),
{
    let mut text = String::from_str("Usage: ");
    text.append(program);
    text.append(" <before-push-range> <after-push-range>\n\nExample:\n  ");
    text.append(program);
    text.append(
        " abc123..def456 fed789..012345\n\nEach range is passed directly to `git diff --no-color --no-ext-diff <range>`.",
    );
    text
}

/// An error that ends the program.
pub enum AppError {
    /// Help was asked for; holds the usage text.
    Help(String),
    /// The arguments were wrong; holds the message.
    Usage(String),
    /// `git diff` ran and failed.
    GitDiffFailed { range: String, status: String, stderr: String },
    /// `git diff` could not be run; `source` describes why.
    GitDiffIo { range: String, source: String },
    /// The output could not be written; `source` describes why.
    Output(String),
}

/// The two commit ranges to compare.
pub struct Options {
    pub before_range: String,
    pub after_range: String,
}

/// The program name among the arguments (`None` stands for an argument that
/// is not valid UTF-8).
pub open spec fn program_of(args: Seq<Option<String>>) -> Seq<char> {
    if args.len() > 0 && args[0] is Some {
        args[0]->0@
    } else {
        default_program()
    }
}

/// Whether some argument after the program name is not valid UTF-8.
pub open spec fn has_invalid_argument(args: Seq<Option<String>>) -> bool {
    exists|k: int| 1 <= k < args.len() && #[trigger] args[k] is None
}

/// Whether some argument after the program name asks for help.
pub open spec fn asks_for_help(args: Seq<Option<String>>) -> bool {
    exists|k: int|
        1 <= k < args.len() && #[trigger] args[k] is Some && (args[k]->0@ == "-h"@ || args[k]->0@
            == "--help"@)
}

impl Options {
    /// Reads the two ranges from the arguments (the first argument being the
    /// program name). An argument that is not valid UTF-8 gives a usage error;
    /// otherwise `-h` or `--help` anywhere gives the help text; otherwise
    /// anything but exactly two ranges gives a usage error.
    pub fn parse(args: Vec<Option<String>>) -> (r: Result<Options, AppError>)
        ensures
            match r {
                Ok(o) => {
                    &&& !has_invalid_argument(args@)
                    &&& !asks_for_help(args@)
                    &&& args@.len() == 3
                    &&& o.before_range@ == args@[1]->0@
                    &&& o.after_range@ == args@[2]->0@
                },
                Err(AppError::Usage(m)) => {
                    ||| has_invalid_argument(args@) && m@ == invalid_arguments_text(program_of(args@))
                    ||| !has_invalid_argument(args@) && !asks_for_help(args@) && args@.len() != 3
                        && m@ == usage_text(program_of(args@))
                },
                Err(AppError::Help(m)) => {
                    &&& !has_invalid_argument(args@)
                    &&& asks_for_help(args@)
                    &&& m@ == usage_text(program_of(args@))
                },
                Err(_) => false,
            },
    {
        let program = if args.len() > 0 {
            match &args[0] {
                Some(name) => name.clone(),
                None => String::from_str("git-range-diff-better"),
            }
        } else {
            String::from_str("git-range-diff-better")
        };
        let ghost prog = program_of(args@);
        let mut k: usize = 1;
        while k < args.len()
            invariant
                1 <= k,
                program@ == prog,
                prog == program_of(args@),
                forall|m: int| 1 <= m < k && m < args@.len() ==> !(#[trigger] args@[m] is None),
            decreases args@.len() - k,
        {
            if args[k].is_none() {
                let mut message = String::from_str("arguments must be valid UTF-8\n\n");
                let text = usage(program.as_str());
                message.append(text.as_str());
                proof {
                    assert(args@[k as int] is None);
                    assert(has_invalid_argument(args@));
                    assert(message@ =~= invalid_arguments_text(prog));
                }
                return Err(AppError::Usage(message));
            }
            k = k + 1;
        }
        let help = String::from_str("-h");
        let long_help = String::from_str("--help");
        let mut k: usize = 1;
        while k < args.len()
            invariant
                1 <= k,
                program@ == prog,
                prog == program_of(args@),
                help@ == "-h"@,
                long_help@ == "--help"@,
                !has_invalid_argument(args@),
                forall|m: int|
                    1 <= m < k && m < args@.len() ==> #[trigger] args@[m] is Some && args@[m]->0@
                        != "-h"@ && args@[m]->0@ != "--help"@,
            decreases args@.len() - k,
        {
            match &args[k] {
                Some(arg) => {
                    if *arg == help || *arg == long_help {
                        proof {
                            assert(args@[k as int] is Some && args@[k as int]->0 == *arg);
                            assert(asks_for_help(args@));
                        }
                        return Err(AppError::Help(usage(program.as_str())));
                    }
                },
                None => {
                    proof {
                        assert(args@[k as int] is None);
                    }
                },
            }
            k = k + 1;
        }
        if args.len() != 3 {
            return Err(AppError::Usage(usage(program.as_str())));
        }
        let before_range = match &args[1] {
            Some(arg) => arg.clone(),
            None => String::new(),
        };
        let after_range = match &args[2] {
            Some(arg) => arg.clone(),
            None => String::new(),
        };
        proof {
            assert(args@[1] is Some);
            assert(args@[2] is Some);
        }
        Ok(Options { before_range, after_range })
    }
}


/// The length in bytes of the whitespace character that ends at offset `e`,
/// or 0 when the character ending there is not whitespace (see
/// `whitespace_len` for the characters).
pub open spec fn trailing_whitespace_len(b: Seq<u8>, e: int) -> int {
    if e < 1 || e > b.len() {
        0
    } else if is_ascii_whitespace_byte(b[e - 1]) {
        1
    } else if e >= 2 && whitespace_len(b, e - 2) == 2 {
        2
    } else if e >= 3 && whitespace_len(b, e - 3) == 3 {
        3
    } else {
        0
    }
}

/// The end of `b[..e]` once trailing whitespace is removed.
pub open spec fn trim_end_len(b: Seq<u8>, e: int) -> int
    decreases e,
{
    if e > 0 && trailing_whitespace_len(b, e) > 0 {
        trim_end_len(b, e - trailing_whitespace_len(b, e))
    } else {
        e
    }
}

/// `b` without its trailing whitespace.
pub open spec fn trim_end_bytes(b: Seq<u8>) -> Seq<u8> {
    b.subrange(0, trim_end_len(b, b.len() as int))
}

proof fn lemma_trim_end_len_bounds(b: Seq<u8>, e: int)
    requires
        0 <= e <= b.len(),
    ensures
        0 <= trim_end_len(b, e) <= e,
    decreases e,
{
    if e > 0 && trailing_whitespace_len(b, e) > 0 {
        lemma_trim_end_len_bounds(b, e - trailing_whitespace_len(b, e));
    }
}

/// `s` without its trailing whitespace.
pub fn trim_end(s: &str) -> (r: &str)
    ensures
        r.spec_bytes() == trim_end_bytes(s.spec_bytes()),
{
    let b = s.as_bytes();
    let ghost sb = s.spec_bytes();
    let n = b.len();
    let mut e = n;
    proof {
        assert(valid_utf8(sb));
        is_char_boundary_start_end_of_seq(sb);
    }
    while e > 0
        invariant
            b@ == sb,
            sb == s.spec_bytes(),
            valid_utf8(sb),
            n == sb.len(),
            e <= n,
            is_char_boundary(sb, e as int),
            trim_end_len(sb, e as int) == trim_end_len(sb, n as int),
        decreases e,
    {
        let last = b[e - 1];
        let w: usize = if last == 0x09 || last == 0x0a || last == 0x0b || last == 0x0c || last == 0x0d
            || last == 0x20 {
            1
        } else if e >= 2 && b[e - 2] == 0xc2 && (last == 0x85 || last == 0xa0) {
            2
        } else if e >= 3 && ((b[e - 3] == 0xe1 && b[e - 2] == 0x9a && last == 0x80) || (b[e - 3]
            == 0xe2 && b[e - 2] == 0x80 && ((0x80 <= last && last <= 0x8a) || last == 0xa8 || last
            == 0xa9 || last == 0xaf)) || (b[e - 3] == 0xe2 && b[e - 2] == 0x81 && last == 0x9f) || (
        b[e - 3] == 0xe3 && b[e - 2] == 0x80 && last == 0x80)) {
            3
        } else {
            0
        };
        proof {
            assert(w == trailing_whitespace_len(sb, e as int));
        }
        if w == 0 {
            proof {
                lemma_trim_end_len_bounds(sb, e as int);
            }
            return str_slice(s, 0, e);
        }
        proof {
            let start = e - w;
            is_char_boundary_iff_not_is_continuation_byte(sb, start);
        }
        e = e - w;
    }
    proof {
        is_char_boundary_start_end_of_seq(sb);
    }
    str_slice(s, 0, 0)
}

proof fn lemma_trailing_whitespace_len_extend(b: Seq<u8>, x: Seq<u8>, e: int)
    requires
        0 <= e <= b.len(),
    ensures
        trailing_whitespace_len(b + x, e) == trailing_whitespace_len(b, e),
{
    let c = b + x;
    if e >= 1 {
        assert(c[e - 1] == b[e - 1]);
    }
    if e >= 2 {
        assert(c[e - 2] == b[e - 2]);
    }
    if e >= 3 {
        assert(c[e - 3] == b[e - 3]);
    }
}

proof fn lemma_trim_end_len_extend(b: Seq<u8>, x: Seq<u8>, e: int)
    requires
        0 <= e <= b.len(),
    ensures
        trim_end_len(b + x, e) == trim_end_len(b, e),
    decreases e,
{
    lemma_trailing_whitespace_len_extend(b, x, e);
    if e > 0 && trailing_whitespace_len(b, e) > 0 {
        lemma_trim_end_len_extend(b, x, e - trailing_whitespace_len(b, e));
    }
}

/// Trimming keeps a prefix of the text; appending a tab, line feed, vertical
/// tab, form feed, carriage return or space does not change what trimming
/// gives; and a text that ends in a printable ASCII character other than
/// space is left as it is.
pub proof fn law_trim_end(b: Seq<u8>, x: u8)
    requires
        x == 0x09 || x == 0x0a || x == 0x0b || x == 0x0c || x == 0x0d || x == 0x20,
    ensures
        trim_end_bytes(b).len() <= b.len(),
        trim_end_bytes(b) == b.subrange(0, trim_end_bytes(b).len() as int),
        trim_end_bytes(b.push(x)) == trim_end_bytes(b),
        b.len() > 0 && 0x21 <= b.last() <= 0x7e ==> trim_end_bytes(b) == b,
{
    let n = b.len() as int;
    lemma_trim_end_len_bounds(b, n);
    let c = b.push(x);
    assert(c =~= b + seq![x]);
    assert(c[n] == x);
    assert(trailing_whitespace_len(c, n + 1) == 1);
    lemma_trim_end_len_extend(b, seq![x], n);
    assert(trim_end_len(c, n + 1) == trim_end_len(c, n));
    lemma_trim_end_len_bounds(c, n + 1);
    assert(c.subrange(0, trim_end_len(b, n)) =~= b.subrange(0, trim_end_len(b, n)));
    if n > 0 && 0x21 <= b.last() <= 0x7e {
        assert(trailing_whitespace_len(b, n) == 0);
        assert(b.subrange(0, n) =~= b);
    }
}

/// The message that reports an error.
pub open spec fn message_text(e: AppError) -> Seq<char> {
    match e {
        AppError::Help(m) => m@,
        AppError::Usage(m) => m@,
        AppError::GitDiffFailed { range, status, stderr } => "git diff failed for range `"@
            + range@ + "` with status "@ + status@ + "\n"@ + decode_utf8(
            trim_end_bytes(encode_utf8(stderr@)),
        ),
        AppError::GitDiffIo { range, source } => "failed to run git diff for range `"@ + range@
            + "`: "@ + source@,
        AppError::Output(source) => "failed to write output: "@ + source@,
    }
}

/// The exit status for an error: 0 for help, 2 for a usage error, 1 otherwise.
pub open spec fn exit_status(e: AppError) -> u8 {
    match e {
        AppError::Help(_) => 0,
        AppError::Usage(_) => 2,
        _ => 1,
    }
}

impl AppError {
    /// The message that reports this error.
    pub fn message(&self) -> (r: String)
        ensures
            r@ == message_text(*self),
    {
        match self {
            AppError::Help(m) => m.clone(),
            AppError::Usage(m) => m.clone(),
            AppError::GitDiffFailed { range, status, stderr } => {
                let mut text = String::from_str("git diff failed for range `");
                text.append(range.as_str());
                text.append("` with status ");
                text.append(status.as_str());
                text.append("\n");
                let trimmed = trim_end(stderr.as_str());
                text.append(trimmed);
                proof {
                    assert(trimmed@ == decode_utf8(trimmed.spec_bytes()));
                }
                text
            },
            AppError::GitDiffIo { range, source } => {
                let mut text = String::from_str("failed to run git diff for range `");
                text.append(range.as_str());
                text.append("`: ");
                text.append(source.as_str());
                text
            },
            AppError::Output(source) => {
                let mut text = String::from_str("failed to write output: ");
                text.append(source.as_str());
                text
            },
        }
    }

    /// The status the program exits with after reporting this error.
    pub fn exit_code(&self) -> (r: u8)
        ensures
            r == exit_status(*self),
    {
        match self {
            AppError::Help(_) => 0,
            AppError::Usage(_) => 2,
            _ => 1,
        }
    }
}

} // verus!
