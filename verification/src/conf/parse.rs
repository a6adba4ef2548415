//! Reading the command line: the option table, the messages, and how the
//! tokens of the command line make the configuration or the errors.
use vstd::prelude::*;
use vstd::string::StringSliceAdditionalSpecFns;
use vstd::utf8::*;
use crate::run::texts_of;
use crate::conf::{value_or, CmdOptConf, COLOR_END, COLOR_START};
use crate::util::opt_around_num::{around_error_text, parse_u8_spec, OptAroundNum};
use crate::util::opt_color_when::{color_when_error_text, color_when_of, OptColorWhen};
use crate::util::opt_color_when::str_equal;
use flood_tide::{Arg, Lex, Opt};
use ArgKind::{No, Yes};

verus! {

/// The name of the program.
pub const PROGRAM_NAME: &'static str = "aki-mline";

/// The version of the program.
pub const PROGRAM_VERSION: &'static str = "0.1.0";

/// The description in the help text.
pub const DESCRIPTIONS_TEXT: &'static str = "\nmatch line, regex text filter like a grep.\n";

/// The options in the help text.
pub const OPTIONS_TEXT: &'static str = "Options:\n      --around <num>    around output. printing the match, prev and the next lines.\n      --color <when>    use markers to highlight the matching strings\n  -e, --exp <exp>       regular expression\n  -s, --str <string>    simple string match\n  -i, --inverse         output non-matching lines.\n\n  -H, --help        display this help and exit\n  -V, --version     display version information and exit\n  -X <x-options>    x options. try -X help\n";

/// The option parameters in the help text.
pub const PARAMS_TEXT: &'static str = "Option Parameters:\n  <when>    'always', 'never', or 'auto'\n  <exp>     regular expression\n  <string>  simple string, non regular expression\n";

/// The environment variables in the help text.
pub const ENV_TEXT: &'static str = "Environments:\n  AKI_MLINE_COLOR_SEQ_ST    color start sequence specified by ansi\n  AKI_MLINE_COLOR_SEQ_ED    color end sequence specified by ansi\n";

/// The text of `-X help`.
pub const X_HELP_TEXT: &'static str = "Options:\n  -X rust-version-info     display rust version info and exit";


/// The version line.
pub open spec fn version_text() -> Seq<char> {
    PROGRAM_NAME@ + " "@ + PROGRAM_VERSION@
}

/// The usage line for `program`.
pub open spec fn usage_text(program: Seq<char>) -> Seq<char> {
    "Usage:\n  "@ + program + " [options]"@
}

/// The help text: the version, the usage, the description, the options,
/// their parameters and the environment, one after the other.
pub open spec fn help_text() -> Seq<char> {
    version_text() + "\n"@ + "\n"@ + usage_text(PROGRAM_NAME@) + "\n"@ + DESCRIPTIONS_TEXT@ + "\n"@
        + OPTIONS_TEXT@ + "\n"@ + PARAMS_TEXT@ + "\n"@ + ENV_TEXT@
}

/// The version message: the program name and version.
pub fn version_message(_program: &str) -> (r: String)
    ensures
        r@ == version_text(),
{
    let mut s = String::new();
    s.append(PROGRAM_NAME);
    s.append(" ");
    s.append(PROGRAM_VERSION);
    s
}

/// The usage message for `program`.
pub fn usage_message(program: &str) -> (r: String)
    ensures
        r@ == usage_text(program@),
{
    let mut s = String::new();
    s.append("Usage:\n  ");
    s.append(program);
    s.append(" [options]");
    s
}

/// The help message.
pub fn help_message(program: &str) -> (r: String)
    ensures
        r@ == help_text(),
{
    let mut s = version_message(program);
    s.append("\n");
    s.append("\n");
    let u = usage_message(PROGRAM_NAME);
    s.append(u.as_str());
    s.append("\n");
    s.append(DESCRIPTIONS_TEXT);
    s.append("\n");
    s.append(OPTIONS_TEXT);
    s.append("\n");
    s.append(PARAMS_TEXT);
    s.append("\n");
    s.append(ENV_TEXT);
    s
}

/// Whether an option takes an argument.
#[derive(Debug, Clone, Copy, PartialEq, Eq)]
pub enum ArgKind {
    /// The option is a flag.
    No,
    /// The option takes an argument.
    Yes,
}

/// One row of the option table: short name (0 for none), long name, whether
/// it takes an argument, and its number.
#[derive(Debug)]
pub struct OptSpec {
    pub sho: u8,
    pub lon: String,
    pub has: ArgKind,
    pub num: u8,
}

/// A row seen as plain values.
pub open spec fn opt_spec_view(o: OptSpec) -> (u8, Seq<char>, ArgKind, u8) {
    (o.sho, o.lon@, o.has, o.num)
}

/// The numbers of the options.
pub const OPT_X: u8 = 1;
pub const OPT_AROUND: u8 = 2;
pub const OPT_COLOR: u8 = 3;
pub const OPT_EXP: u8 = 4;
pub const OPT_HELP: u8 = 5;
pub const OPT_INVERSE: u8 = 6;
pub const OPT_STR: u8 = 7;
pub const OPT_VERSION: u8 = 8;

/// The option table, ordered by long name as the lexer's search needs.
pub open spec fn opt_table_spec() -> Seq<(u8, Seq<char>, ArgKind, u8)> {
    seq![
        (88u8, ""@, ArgKind::Yes, OPT_X),
        (0u8, "around"@, ArgKind::Yes, OPT_AROUND),
        (0u8, "color"@, ArgKind::Yes, OPT_COLOR),
        (101u8, "exp"@, ArgKind::Yes, OPT_EXP),
        (72u8, "help"@, ArgKind::No, OPT_HELP),
        (105u8, "inverse"@, ArgKind::No, OPT_INVERSE),
        (115u8, "str"@, ArgKind::Yes, OPT_STR),
        (86u8, "version"@, ArgKind::No, OPT_VERSION),
    ]
}

/// The short names with the rows they name, ordered by short name.
pub open spec fn sho_idx_spec() -> Seq<(u8, usize)> {
    seq![(72u8, 4usize), (86u8, 7usize), (88u8, 0usize), (101u8, 3usize), (105u8, 5usize), (115u8, 6usize)]
}

/// One row of the option table.
fn opt_row(sho: u8, lon: &str, has: ArgKind, num: u8) -> (r: OptSpec)
    ensures
        opt_spec_view(r) == (sho, lon@, has, num),
{
    let mut l = String::new();
    l.append(lon);
    OptSpec { sho, lon: l, has, num }
}

/// The option table.
pub fn opt_table() -> (r: Vec<OptSpec>)
    ensures
        r@.map_values(|o: OptSpec| opt_spec_view(o)) == opt_table_spec(),
{
    let mut v: Vec<OptSpec> = Vec::new();
    v.push(opt_row(88, "", ArgKind::Yes, OPT_X));
    v.push(opt_row(0, "around", ArgKind::Yes, OPT_AROUND));
    v.push(opt_row(0, "color", ArgKind::Yes, OPT_COLOR));
    v.push(opt_row(101, "exp", ArgKind::Yes, OPT_EXP));
    v.push(opt_row(72, "help", ArgKind::No, OPT_HELP));
    v.push(opt_row(105, "inverse", ArgKind::No, OPT_INVERSE));
    v.push(opt_row(115, "str", ArgKind::Yes, OPT_STR));
    v.push(opt_row(86, "version", ArgKind::No, OPT_VERSION));
    assert(v@.map_values(|o: OptSpec| opt_spec_view(o)) =~= opt_table_spec());
    v
}

/// The short-name index of the option table.
pub fn sho_idx() -> (r: Vec<(u8, usize)>)
    ensures
        r@ == sho_idx_spec(),
{
    let v = vec![(72u8, 4usize), (86u8, 7usize), (88u8, 0usize), (101u8, 3usize), (105u8, 5usize), (115u8, 6usize)];
    assert(v@ =~= sho_idx_spec());
    v
}

/// The tokens of a command line: each option met (its number and its
/// argument, if any) and the free arguments.
#[derive(Debug)]
pub struct LexTokens {
    pub namevals: Vec<(u8, Option<String>)>,
    pub free: Vec<String>,
}

/// An optional string seen as its characters.
pub open spec fn opt_text(o: Option<String>) -> Option<Seq<char>> {
    match o {
        Some(s) => Some(s@),
        None => None,
    }
}

/// The tokens seen as plain values.
pub open spec fn tokens_view(t: LexTokens) -> (Seq<(u8, Option<Seq<char>>)>, Seq<Seq<char>>) {
    (t.namevals@.map_values(|nv: (u8, Option<String>)| (nv.0, opt_text(nv.1))), texts_of(t.free@))
}

/// What `flood_tide`'s lexer makes of the arguments with the given option
/// table and short-name index: the tokens, or the texts of the errors it
/// reports, in order.
pub uninterp spec fn flood_tide_lex(
    table: Seq<(u8, Seq<char>, ArgKind, u8)>,
    sho_idx: Seq<(u8, usize)>,
    args: Seq<Seq<char>>,
) -> Result<(Seq<(u8, Option<Seq<char>>)>, Seq<Seq<char>>), Seq<Seq<char>>>;

/// Whether a short name of the table takes an argument (`None` when the
/// table has no such short name).
pub open spec fn short_takes_arg(b: u8) -> Option<bool> {
    if b == 72 || b == 86 || b == 105 {
        Some(false)
    } else if b == 88 || b == 101 || b == 115 {
        Some(true)
    } else {
        None
    }
}

/// Whether a long name of the table takes an argument.
pub open spec fn long_takes_arg(name: Seq<u8>) -> Option<bool> {
    if name == encode_utf8("help"@) || name == encode_utf8("inverse"@) || name == encode_utf8("version"@) {
        Some(false)
    } else if name == encode_utf8(""@) || name == encode_utf8("around"@) || name == encode_utf8("color"@)
        || name == encode_utf8("exp"@) || name == encode_utf8("str"@) {
        Some(true)
    } else {
        None
    }
}

/// How the lexer reads the cluster of short names `t` (the bytes after a
/// single `-`) from byte `j` on: `None` when it reaches a byte that does not
/// start an ASCII character (where its byte slicing panics), else whether
/// the cluster ends with an option that takes the next argument.
pub open spec fn cluster_scan(t: Seq<u8>, j: int) -> Option<bool>
    decreases t.len() - j,
{
    if j < 0 || j >= t.len() {
        Some(false)
    } else if t[j] >= 128 {
        None
    } else if short_takes_arg(t[j]) == Some(true) {
        Some(j == t.len() - 1)
    } else {
        cluster_scan(t, j + 1)
    }
}

/// Whether a long option (the bytes after `--`) takes the next argument.
pub open spec fn long_takes_next(t: Seq<u8>) -> bool {
    !t.contains(61u8) && long_takes_arg(t) == Some(true)
}

/// The lexer reads the arguments from the `i`-th on without panicking.
pub open spec fn args_lex_safe_from(args: Seq<Seq<u8>>, i: int) -> bool
    decreases args.len() + 1 - i,
{
    if i < 0 || i >= args.len() {
        true
    } else {
        let a = args[i];
        if a == seq![45u8, 45u8] {
            true
        } else if a.len() == 0 || a[0] != 45 {
            args_lex_safe_from(args, i + 1)
        } else if a.len() >= 2 && a[1] == 45 {
            args_lex_safe_from(args, if long_takes_next(a.skip(2)) { i + 2 } else { i + 1 })
        } else {
            match cluster_scan(a.skip(1), 0) {
                None => false,
                Some(next) => args_lex_safe_from(args, if next { i + 2 } else { i + 1 }),
            }
        }
    }
}

/// The bytes of each argument.
pub open spec fn args_bytes(args: Seq<Seq<char>>) -> Seq<Seq<u8>> {
    args.map_values(|a: Seq<char>| encode_utf8(a))
}

/// The lexer reads the arguments without panicking: no cluster of short
/// names it reads holds a character other than ASCII before the option that
/// ends it.
pub open spec fn args_lex_safe(args: Seq<Seq<char>>) -> bool {
    args_lex_safe_from(args_bytes(args), 0)
}

/// Runs `flood_tide::Lex::tokens_from` with the option table on the
/// arguments, giving a refusal as the texts its errors display, one per
/// error. The contract claims that the result is the named lexer result of
/// the table, index and arguments (tokens, or error texts). Inputs on which
/// the lexer's byte slicing of a short-name cluster panics are left out.
#[verifier::external_body]
fn lex_args(table: &Vec<OptSpec>, sho_idx: &Vec<(u8, usize)>, args: &Vec<String>) -> (r: Result<LexTokens, Vec<String>>)
    requires
        table@.map_values(|o: OptSpec| opt_spec_view(o)) == opt_table_spec(),
        sho_idx@ == sho_idx_spec(),
        args_lex_safe(texts_of(args@)),
    ensures
        flood_tide_lex(table@.map_values(|o: OptSpec| opt_spec_view(o)), sho_idx@, texts_of(args@)) == match r {
            Ok(t) => Ok(tokens_view(t)),
            Err(e) => Err(texts_of(e@)),
        },
{
    let opts: Vec<_> = table.iter().map(|o| Opt { sho: o.sho, lon: &o.lon, has: match o.has {
        No => Arg::No,
        Yes => Arg::Yes
    }, num: o.num }).collect();
    let args: Vec<&str> = args.iter().map(String::as_str).collect();
    Lex::create_with(&opts, sho_idx).tokens_from(&args).map(|t| LexTokens {
        namevals: t.namevals.iter().map(|nv| (nv.opt.num, nv.val.map(String::from))).collect(),
        free: t.free.iter().map(ToString::to_string).collect()
    }).map_err(|e| e.iter().map(ToString::to_string).collect())
}

/// Whether the standard output is a terminal (`atty::is`). Nothing is
/// claimed of the result: it depends on where the output goes.
#[verifier::external_body]
pub fn stdout_is_terminal() -> (r: bool) {
    atty::is(atty::Stream::Stdout)
}

/// Whether the bytes hold `=`.
fn has_equals(b: &[u8], from: usize) -> (r: bool)
    requires
        from <= b@.len(),
    ensures
        r == b@.skip(from as int).contains(61u8),
{
    let n = b.len();
    let mut i = from;
    while i < n
        invariant
            n == b@.len(),
            from <= i <= n,
            forall|k: int| from <= k < i ==> b@[k] != 61u8,
        decreases n - i,
    {
        if b[i] == 61 {
            assert(b@.skip(from as int)[i - from] == 61u8);
            return true;
        }
        i = i + 1;
    }
    assert forall|k: int| 0 <= k < b@.skip(from as int).len() implies b@.skip(from as int)[k] != 61u8 by {
        assert(b@.skip(from as int)[k] == b@[k + from]);
    }
    false
}

/// Whether the bytes of `b` from `from` on are those of `lit`.
fn bytes_equal_from(b: &[u8], from: usize, lit: &str) -> (r: bool)
    requires
        from <= b@.len(),
    ensures
        r == (b@.skip(from as int) == lit.spec_bytes()),
{
    let l = lit.as_bytes();
    let n = b.len();
    if n - from != l.len() {
        assert(b@.skip(from as int).len() != l@.len());
        return false;
    }
    let mut i: usize = 0;
    while i < l.len()
        invariant
            n == b@.len(),
            from <= n,
            n - from == l@.len(),
            l@ == lit.spec_bytes(),
            i <= l@.len(),
            forall|k: int| 0 <= k < i ==> b@[from + k] == l@[k],
        decreases l@.len() - i,
    {
        if b[from + i] != l[i] {
            assert(b@.skip(from as int)[i as int] != l@[i as int]);
            return false;
        }
        i = i + 1;
    }
    assert(b@.skip(from as int) =~= l@);
    true
}

/// Whether the long name after `--` in `b` takes an argument in the table.
fn long_takes_arg_exec(b: &[u8]) -> (r: Option<bool>)
    requires
        2 <= b@.len(),
    ensures
        r == long_takes_arg(b@.skip(2)),
{
    if bytes_equal_from(b, 2, "help") || bytes_equal_from(b, 2, "inverse") || bytes_equal_from(b, 2, "version") {
        Some(false)
    } else if bytes_equal_from(b, 2, "") || bytes_equal_from(b, 2, "around") || bytes_equal_from(b, 2, "color")
        || bytes_equal_from(b, 2, "exp") || bytes_equal_from(b, 2, "str") {
        Some(true)
    } else {
        None
    }
}

/// Whether a short name takes an argument in the option table.
fn short_takes_arg_exec(b: u8) -> (r: Option<bool>)
    ensures
        r == short_takes_arg(b),
{
    if b == 72 || b == 86 || b == 105 {
        Some(false)
    } else if b == 88 || b == 101 || b == 115 {
        Some(true)
    } else {
        None
    }
}

/// How the lexer reads the short-name cluster after the `-` of `a`.
fn cluster_scan_exec(a: &[u8]) -> (r: Option<bool>)
    requires
        a@.len() >= 1,
    ensures
        r == cluster_scan(a@.skip(1), 0),
{
    let n = a.len();
    let ghost t = a@.skip(1);
    let mut j: usize = 1;
    while j < n
        invariant
            n == a@.len(),
            1 <= j <= n,
            t == a@.skip(1),
            cluster_scan(t, 0) == cluster_scan(t, j - 1),
        decreases n - j,
    {
        let c = a[j];
        assert(t[j - 1] == c);
        if c >= 128 {
            return None;
        }
        if let Some(true) = short_takes_arg_exec(c) {
            return Some(j == n - 1);
        }
        j = j + 1;
    }
    Some(false)
}

/// Whether the lexer reads the arguments without panicking.
pub fn check_args_lex_safe(args: &Vec<String>) -> (r: bool)
    ensures
        r == args_lex_safe(texts_of(args@)),
{
    let ghost ab = args_bytes(texts_of(args@));
    let n = args.len();
    let mut i: usize = 0;
    while i < n
        invariant
            n == args@.len(),
            ab == args_bytes(texts_of(args@)),
            ab.len() == n,
            i <= n + 1,
            args_lex_safe(texts_of(args@)) == args_lex_safe_from(ab, i as int),
        decreases n + 1 - i,
    {
        let a: &str = args[i].as_str();
        let b = a.as_bytes();
        assert(ab[i as int] == b@);
        if b.len() == 2 && b[0] == 45 && b[1] == 45 {
            assert(b@ =~= seq![45u8, 45u8]);
            return true;
        }
        assert(b@ != seq![45u8, 45u8]);
        if b.len() == 0 || b[0] != 45 {
            assert(args_lex_safe_from(ab, i as int) == args_lex_safe_from(ab, i + 1));
            i = i + 1;
        } else if b.len() >= 2 && b[1] == 45 {
            let takes = if has_equals(b, 2) {
                false
            } else {
                match long_takes_arg_exec(b) {
                    Some(t) => t,
                    None => false,
                }
            };
            assert(takes == long_takes_next(b@.skip(2)));
            let ghost old_i = i;
            if takes {
                i = if i + 1 < n { i + 2 } else { n };
            } else {
                i = i + 1;
            }
            assert(args_lex_safe_from(ab, old_i as int)
                == args_lex_safe_from(ab, if takes { old_i + 2 } else { old_i + 1 }));
            assert(args_lex_safe_from(ab, old_i + 2) == args_lex_safe_from(ab, i as int) || !takes || old_i + 1 < n);
            assert(args_lex_safe_from(ab, old_i as int) == args_lex_safe_from(ab, i as int));
        } else {
            match cluster_scan_exec(b) {
                None => {
                    return false;
                },
                Some(next) => {
                    let ghost old_i = i;
                    if next {
                        i = if i + 1 < n { i + 2 } else { n };
                    } else {
                        i = i + 1;
                    }
                    assert(args_lex_safe_from(ab, old_i as int)
                        == args_lex_safe_from(ab, if next { old_i + 2 } else { old_i + 1 }));
                    assert(args_lex_safe_from(ab, old_i + 2) == args_lex_safe_from(ab, i as int) || !next || old_i + 1 < n);
                    assert(args_lex_safe_from(ab, old_i as int) == args_lex_safe_from(ab, i as int));
                },
            }
        }
    }
    true
}

/// An error (or a message to print instead of running) found in the
/// command line.
#[derive(Debug)]
pub enum OptErr {
    /// The help text was asked for.
    HelpMessage(String),
    /// The version was asked for.
    VersionMessage(String),
    /// A needed option is missing.
    MissingOption(String),
    /// An option lacks its argument.
    MissingOptionArgument(String),
    /// An option's argument is refused: the option and the reason.
    InvalidOptionArgument(String, String),
    /// A free argument was given.
    UnexpectedArgument(String),
}

/// An `OptErr` seen as plain values.
pub enum OptErrView {
    HelpMessage(Seq<char>),
    VersionMessage(Seq<char>),
    MissingOption(Seq<char>),
    MissingOptionArgument(Seq<char>),
    InvalidOptionArgument(Seq<char>, Seq<char>),
    UnexpectedArgument(Seq<char>),
}

/// The plain view of an error.
pub open spec fn err_view(e: OptErr) -> OptErrView {
    match e {
        OptErr::HelpMessage(s) => OptErrView::HelpMessage(s@),
        OptErr::VersionMessage(s) => OptErrView::VersionMessage(s@),
        OptErr::MissingOption(s) => OptErrView::MissingOption(s@),
        OptErr::MissingOptionArgument(s) => OptErrView::MissingOptionArgument(s@),
        OptErr::InvalidOptionArgument(a, b) => OptErrView::InvalidOptionArgument(a@, b@),
        OptErr::UnexpectedArgument(s) => OptErrView::UnexpectedArgument(s@),
    }
}

/// The plain views of errors.
pub open spec fn errs_view(v: Seq<OptErr>) -> Seq<OptErrView> {
    v.map_values(|e: OptErr| err_view(e))
}

/// The line an error prints.
pub open spec fn err_text(e: OptErrView) -> Seq<char> {
    match e {
        OptErrView::HelpMessage(s) => s,
        OptErrView::VersionMessage(s) => s,
        OptErrView::MissingOption(s) => "Missing option: "@ + s,
        OptErrView::MissingOptionArgument(s) => "Missing option argument: "@ + s,
        OptErrView::InvalidOptionArgument(a, b) => "Invalid option argument: "@ + a + ": "@ + b,
        OptErrView::UnexpectedArgument(s) => "Unexpected argument: "@ + s,
    }
}

/// A copy of `s`.
fn string_of(s: &str) -> (r: String)
    ensures
        r@ == s@,
{
    let mut r = String::new();
    r.append(s);
    r
}

impl OptErr {
    /// The line the error prints.
    pub fn message(&self) -> (r: String)
        ensures
            r@ == err_text(err_view(*self)),
    {
        let mut r = String::new();
        match self {
            OptErr::HelpMessage(s) => r.append(s.as_str()),
            OptErr::VersionMessage(s) => r.append(s.as_str()),
            OptErr::MissingOption(s) => {
                r.append("Missing option: ");
                r.append(s.as_str());
            },
            OptErr::MissingOptionArgument(s) => {
                r.append("Missing option argument: ");
                r.append(s.as_str());
            },
            OptErr::InvalidOptionArgument(a, b) => {
                r.append("Invalid option argument: ");
                r.append(a.as_str());
                r.append(": ");
                r.append(b.as_str());
            },
            OptErr::UnexpectedArgument(s) => {
                r.append("Unexpected argument: ");
                r.append(s.as_str());
            },
        }
        r
    }

    /// Whether the error is the help or the version message.
    pub fn is_help_or_version(&self) -> (r: bool)
        ensures
            r == (err_view(*self) is HelpMessage || err_view(*self) is VersionMessage),
    {
        match self {
            OptErr::HelpMessage(_) => true,
            OptErr::VersionMessage(_) => true,
            _ => false,
        }
    }
}

/// The errors of a command line: the texts of those the lexer reported (if
/// it failed), then those found in reading the options.
#[derive(Debug)]
pub struct OptErrors {
    pub lex: Option<Vec<String>>,
    pub errs: Vec<OptErr>,
}

/// The configuration as plain values.
pub struct CmdOptView {
    pub color: OptColorWhen,
    pub exp: Seq<Seq<char>>,
    pub strs: Seq<Seq<char>>,
    pub around: u8,
    pub inverse: bool,
    pub help: bool,
    pub version: bool,
    pub xopts: Seq<Seq<char>>,
}

/// The plain view of a configuration.
pub open spec fn conf_view(c: CmdOptConf) -> CmdOptView {
    CmdOptView {
        color: c.opt_color,
        exp: texts_of(c.opt_exp@),
        strs: texts_of(c.opt_str@),
        around: c.opt_around.0,
        inverse: c.flg_inverse,
        help: c.flg_help,
        version: c.flg_version,
        xopts: texts_of(c.opt_uc_x@),
    }
}

/// The configuration before any option.
pub open spec fn initial_view() -> CmdOptView {
    CmdOptView {
        color: OptColorWhen::Auto,
        exp: Seq::empty(),
        strs: Seq::empty(),
        around: 0,
        inverse: false,
        help: false,
        version: false,
        xopts: Seq::empty(),
    }
}

/// The x options that `-X` accepts.
pub open spec fn is_x_option(s: Seq<char>) -> bool {
    s == "help"@ || s == "rust-version-info"@
}

/// What one option with its argument does to the configuration, and the
/// error it gives, if any.
pub open spec fn apply_option(c: CmdOptView, num: u8, val: Option<Seq<char>>) -> (CmdOptView, Option<OptErrView>) {
    if num == OPT_COLOR {
        match val {
            Some(s) => match color_when_of(s) {
                Some(w) => (CmdOptView { color: w, ..c }, None),
                None => (c, Some(OptErrView::InvalidOptionArgument("color"@, color_when_error_text(s)))),
            },
            None => (CmdOptView { color: OptColorWhen::Auto, ..c }, None),
        }
    } else if num == OPT_EXP {
        match val {
            Some(s) => (CmdOptView { exp: c.exp.push(s), ..c }, None),
            None => (c, Some(OptErrView::MissingOptionArgument("exp"@))),
        }
    } else if num == OPT_STR {
        match val {
            Some(s) => (CmdOptView { strs: c.strs.push(s), ..c }, None),
            None => (c, Some(OptErrView::MissingOptionArgument("str"@))),
        }
    } else if num == OPT_AROUND {
        match val {
            Some(s) => match parse_u8_spec(encode_utf8(s)) {
                Ok(v) => (CmdOptView { around: v, ..c }, None),
                Err(k) => (c, Some(OptErrView::InvalidOptionArgument("around"@, around_error_text(s, k)))),
            },
            None => (c, Some(OptErrView::MissingOptionArgument("around"@))),
        }
    } else if num == OPT_INVERSE {
        (CmdOptView { inverse: true, ..c }, None)
    } else if num == OPT_HELP {
        (CmdOptView { help: true, ..c }, None)
    } else if num == OPT_VERSION {
        (CmdOptView { version: true, ..c }, None)
    } else if num == OPT_X {
        match val {
            Some(s) => if is_x_option(s) {
                (CmdOptView { xopts: c.xopts.push(s), ..c }, None)
            } else {
                (c, Some(OptErrView::InvalidOptionArgument("X"@, color_when_error_text(s))))
            },
            None => (c, Some(OptErrView::MissingOptionArgument("X"@))),
        }
    } else {
        (c, None)
    }
}

/// The error of an option as a sequence of at most one error.
pub open spec fn opt_err_seq(e: Option<OptErrView>) -> Seq<OptErrView> {
    match e {
        Some(x) => seq![x],
        None => Seq::empty(),
    }
}

/// The options applied in order, stopping after the one that asks for help
/// or the version; with the errors met.
pub open spec fn apply_all(c: CmdOptView, nvs: Seq<(u8, Option<Seq<char>>)>) -> (CmdOptView, Seq<OptErrView>)
    decreases nvs.len(),
{
    if nvs.len() == 0 {
        (c, Seq::empty())
    } else {
        let step = apply_option(c, nvs[0].0, nvs[0].1);
        if step.0.help || step.0.version {
            (step.0, opt_err_seq(step.1))
        } else {
            let rest = apply_all(step.0, nvs.drop_first());
            (rest.0, opt_err_seq(step.1) + rest.1)
        }
    }
}

/// The text an x option prints; `rust_info` is the Rust version
/// information that `rust-version-info` shows.
pub open spec fn x_option_text(s: Seq<char>, rust_info: Seq<char>) -> Seq<char> {
    if s == "help"@ {
        X_HELP_TEXT@
    } else {
        rust_info
    }
}

/// The text printed for the x options: that of the first one, which is
/// the one acted on.
pub open spec fn x_text(xs: Seq<Seq<char>>, rust_info: Seq<char>) -> Seq<char> {
    if xs.len() == 0 {
        Seq::empty()
    } else {
        x_option_text(xs[0], rust_info)
    }
}

/// The errors for missing patterns: both `-e` and `-s` are named when
/// neither is given.
pub open spec fn missing_pattern_errs(c: CmdOptView) -> Seq<OptErrView> {
    if c.exp.len() == 0 && c.strs.len() == 0 {
        seq![OptErrView::MissingOption("e"@), OptErrView::MissingOption("s"@)]
    } else {
        Seq::empty()
    }
}

/// The error for free arguments: the first one is named.
pub open spec fn free_errs(free: Seq<Seq<char>>) -> Seq<OptErrView> {
    if free.len() > 0 {
        seq![OptErrView::UnexpectedArgument(free[0])]
    } else {
        Seq::empty()
    }
}

/// How the command line ends: the configuration (with `auto` colors
/// resolved by whether the output is a terminal), or the errors, with the
/// texts of the lexer's errors when it failed (they then come first).
pub open spec fn cmdopts_outcome(
    lexed: Result<(Seq<(u8, Option<Seq<char>>)>, Seq<Seq<char>>), Seq<Seq<char>>>,
    is_tty: bool,
    rust_info: Seq<char>,
) -> Result<CmdOptView, (Option<Seq<Seq<char>>>, Seq<OptErrView>)> {
    match lexed {
        Err(lex_errs) => Err((Some(lex_errs), missing_pattern_errs(initial_view()))),
        Ok(t) => {
            let applied = apply_all(initial_view(), t.0);
            let c = applied.0;
            if c.help {
                Err((None, seq![OptErrView::HelpMessage(help_text())]))
            } else if c.version {
                Err((None, seq![OptErrView::VersionMessage(version_text())]))
            } else if c.xopts.len() > 0 {
                Err((None, seq![OptErrView::HelpMessage(x_text(c.xopts, rust_info))]))
            } else {
                let errs = applied.1 + missing_pattern_errs(c) + free_errs(t.1);
                if errs.len() > 0 {
                    Err((None, errs))
                } else {
                    Ok(CmdOptView {
                        color: if c.color == OptColorWhen::Auto {
                            if is_tty { OptColorWhen::Always } else { OptColorWhen::Never }
                        } else {
                            c.color
                        },
                        ..c
                    })
                }
            }
        },
    }
}

/// The fields that reading options leaves as they are.
pub open spec fn same_fixed_fields(a: CmdOptConf, b: CmdOptConf) -> bool {
    &&& a.prog_name@ == b.prog_name@
    &&& a.opt_color_seq_start@ == b.opt_color_seq_start@
    &&& a.opt_color_seq_end@ == b.opt_color_seq_end@
    &&& a.arg_params@ == b.arg_params@
}

/// Pushes a string and relates the views.
fn push_text(v: &mut Vec<String>, s: String)
    ensures
        texts_of(final(v)@) == texts_of(old(v)@).push(s@),
{
    let ghost before = v@;
    v.push(s);
    assert(texts_of(v@) =~= texts_of(before).push(s@));
}

/// The message for a word that names no value: `can not parse '<word>'`.
fn cannot_parse_message(s: &str) -> (r: String)
    ensures
        r@ == color_when_error_text(s@),
{
    let mut e = String::new();
    e.append("can not parse '");
    e.append(s);
    e.append("'");
    e
}

/// Applies one option with its argument to the configuration.
pub fn parse_match(conf: &mut CmdOptConf, num: u8, val: Option<String>) -> (r: Result<(), OptErr>)
    ensures
        (conf_view(*final(conf)), match r {
            Ok(_) => None,
            Err(e) => Some(err_view(e)),
        }) == apply_option(conf_view(*old(conf)), num, opt_text(val)),
        same_fixed_fields(*final(conf), *old(conf)),
{
    if num == OPT_COLOR {
        match val {
            Some(s) => match OptColorWhen::parse(s.as_str()) {
                Ok(c) => {
                    conf.opt_color = c;
                    Ok(())
                },
                Err(m) => Err(OptErr::InvalidOptionArgument(string_of("color"), m)),
            },
            None => {
                conf.opt_color = OptColorWhen::Auto;
                Ok(())
            },
        }
    } else if num == OPT_EXP {
        match val {
            Some(s) => {
                push_text(&mut conf.opt_exp, s);
                Ok(())
            },
            None => Err(OptErr::MissingOptionArgument(string_of("exp"))),
        }
    } else if num == OPT_STR {
        match val {
            Some(s) => {
                push_text(&mut conf.opt_str, s);
                Ok(())
            },
            None => Err(OptErr::MissingOptionArgument(string_of("str"))),
        }
    } else if num == OPT_AROUND {
        match val {
            Some(s) => match OptAroundNum::parse(s.as_str()) {
                Ok(n) => {
                    conf.opt_around = n;
                    Ok(())
                },
                Err(e) => Err(OptErr::InvalidOptionArgument(string_of("around"), e.to_string())),
            },
            None => Err(OptErr::MissingOptionArgument(string_of("around"))),
        }
    } else if num == OPT_INVERSE {
        conf.flg_inverse = true;
        Ok(())
    } else if num == OPT_HELP {
        conf.flg_help = true;
        Ok(())
    } else if num == OPT_VERSION {
        conf.flg_version = true;
        Ok(())
    } else if num == OPT_X {
        match val {
            Some(s) => {
                if str_equal(s.as_str(), "help") || str_equal(s.as_str(), "rust-version-info") {
                    push_text(&mut conf.opt_uc_x, s);
                    Ok(())
                } else {
                    Err(OptErr::InvalidOptionArgument(string_of("X"), cannot_parse_message(s.as_str())))
                }
            },
            None => Err(OptErr::MissingOptionArgument(string_of("X"))),
        }
    } else {
        Ok(())
    }
}

/// A copy of an optional string.
fn clone_opt(v: &Option<String>) -> (r: Option<String>)
    ensures
        opt_text(r) == opt_text(*v),
{
    match v {
        Some(s) => Some(s.clone()),
        None => None,
    }
}

/// The tokens seen as plain values.
pub open spec fn namevals_view(v: Seq<(u8, Option<String>)>) -> Seq<(u8, Option<Seq<char>>)> {
    v.map_values(|nv: (u8, Option<String>)| (nv.0, opt_text(nv.1)))
}

/// Applies the options in order, stopping after the one that asks for help
/// or the version; returns the errors met.
pub fn parse_my_style(conf: &mut CmdOptConf, namevals: &Vec<(u8, Option<String>)>) -> (errs: Vec<OptErr>)
    ensures
        (conf_view(*final(conf)), errs_view(errs@)) == apply_all(conf_view(*old(conf)), namevals_view(namevals@)),
        same_fixed_fields(*final(conf), *old(conf)),
{
    let ghost c0 = conf_view(*conf);
    let ghost nvs = namevals_view(namevals@);
    let mut errs: Vec<OptErr> = Vec::new();
    let n = namevals.len();
    let mut i: usize = 0;
    assert(nvs.skip(0) =~= nvs);
    assert(errs_view(errs@) + apply_all(conf_view(*conf), nvs.skip(0)).1 =~= apply_all(c0, nvs).1);
    while i < n
        invariant
            n == namevals@.len(),
            nvs == namevals_view(namevals@),
            i <= n,
            c0 == conf_view(*old(conf)),
            apply_all(c0, nvs).0 == apply_all(conf_view(*conf), nvs.skip(i as int)).0,
            apply_all(c0, nvs).1 == errs_view(errs@) + apply_all(conf_view(*conf), nvs.skip(i as int)).1,
            same_fixed_fields(*conf, *old(conf)),
        decreases n - i,
    {
        let ghost ci = conf_view(*conf);
        let ghost before = errs@;
        let num = namevals[i].0;
        let val = clone_opt(&namevals[i].1);
        let ghost gv = opt_text(val);
        let r = parse_match(conf, num, val);
        let ghost step = apply_option(ci, num, gv);
        proof {
            let rest = nvs.skip(i as int);
            assert(nvs[i as int] == (num, gv));
            assert(rest[0] == nvs[i as int]);
            assert(rest.drop_first() =~= nvs.skip(i + 1));
            assert(conf_view(*conf) == step.0);
        }
        match r {
            Ok(_) => {},
            Err(e) => {
                errs.push(e);
            },
        }
        assert(errs_view(errs@) =~= errs_view(before) + opt_err_seq(match r {
            Ok(_) => None,
            Err(e) => Some(err_view(e)),
        }));
        if conf.flg_help || conf.flg_version {
            assert(apply_all(ci, nvs.skip(i as int)) == (step.0, opt_err_seq(step.1)));
            assert(errs_view(before) + opt_err_seq(step.1) == errs_view(errs@));
            assert(apply_all(c0, nvs).0 == conf_view(*conf));
            assert(apply_all(c0, nvs).1 == errs_view(errs@));
            assert(c0 == conf_view(*old(conf)));
            return errs;
        }
        proof {
            let rest = apply_all(step.0, nvs.skip(i + 1));
            assert(apply_all(ci, nvs.skip(i as int)) == (rest.0, opt_err_seq(step.1) + rest.1));
            assert(errs_view(before) + (opt_err_seq(step.1) + rest.1) =~= errs_view(errs@) + rest.1);
        }
        i = i + 1;
    }
    assert(nvs.skip(n as int) =~= Seq::<(u8, Option<Seq<char>>)>::empty());
    assert(errs_view(errs@) + Seq::<OptErrView>::empty() =~= errs_view(errs@));
    errs
}

/// The text printed for the x options: that of the first one, with
/// `rust_info` as the Rust version information.
pub fn x_message(xs: &Vec<String>, rust_info: &str) -> (r: String)
    ensures
        r@ == x_text(texts_of(xs@), rust_info@),
{
    let mut r = String::new();
    if xs.len() > 0 {
        if str_equal(xs[0].as_str(), "help") {
            r.append(X_HELP_TEXT);
        } else {
            r.append(rust_info);
        }
    }
    r
}

/// The color sequence from the environment, or the default.
pub open spec fn env_color(v: Option<String>, default: Seq<char>) -> Seq<char> {
    value_or(opt_text(v), default)
}

/// The texts of the lexer's errors, if it failed.
pub open spec fn lex_texts(o: Option<Vec<String>>) -> Option<Seq<Seq<char>>> {
    match o {
        Some(v) => Some(texts_of(v@)),
        None => None,
    }
}

/// What `parse_cmdopts_with` returns: the configuration or the errors that
/// `cmdopts_outcome` gives for the lexer's result on the arguments.
pub open spec fn parse_result_ok(
    r: Result<CmdOptConf, OptErrors>,
    prog: Seq<char>,
    args: Seq<Seq<char>>,
    color_st: Option<String>,
    color_ed: Option<String>,
    is_tty: bool,
    rust_info: Seq<char>,
) -> bool {
    match cmdopts_outcome(flood_tide_lex(opt_table_spec(), sho_idx_spec(), args), is_tty, rust_info) {
        Ok(v) => r matches Ok(c) && {
            &&& conf_view(c) == v
            &&& c.prog_name@ == prog
            &&& c.opt_color_seq_start@ == env_color(color_st, COLOR_START@)
            &&& c.opt_color_seq_end@ == env_color(color_ed, COLOR_END@)
            &&& c.arg_params@.len() == 0
        },
        Err(p) => r matches Err(e) && lex_texts(e.lex) == p.0 && errs_view(e.errs@) == p.1,
    }
}

/// Reads the command line, given whether the standard output is a
/// terminal (which decides `--color auto`), the color sequences the
/// environment sets, and the Rust version information that
/// `-X rust-version-info` shows.
pub fn parse_cmdopts_with(
    a_prog_name: &str,
    args: &Vec<String>,
    color_st: Option<String>,
    color_ed: Option<String>,
    stdout_is_tty: bool,
    rust_info: &str,
) -> (r: Result<CmdOptConf, OptErrors>)
    requires
        args_lex_safe(texts_of(args@)),
    ensures
        parse_result_ok(r, a_prog_name@, texts_of(args@), color_st, color_ed, stdout_is_tty, rust_info@),
{
    let ghost gst = color_st;
    let ghost ged = color_ed;
    let mut conf = CmdOptConf::create(a_prog_name, color_st, color_ed);
    assert(conf_view(conf) == initial_view()) by {
        assert(texts_of(conf.opt_exp@) =~= Seq::<Seq<char>>::empty());
        assert(texts_of(conf.opt_str@) =~= Seq::<Seq<char>>::empty());
        assert(texts_of(conf.opt_uc_x@) =~= Seq::<Seq<char>>::empty());
    }
    assert(conf.opt_color_seq_start@ == env_color(gst, COLOR_START@));
    let table = opt_table();
    let sho = sho_idx();
    let lexed = lex_args(&table, &sho, args);
    let tokens = match lexed {
        Ok(t) => t,
        Err(lex_errs) => {
            let errs = vec![OptErr::MissingOption(string_of("e")), OptErr::MissingOption(string_of("s"))];
            assert(errs_view(errs@) =~= missing_pattern_errs(initial_view()));
            return Err(OptErrors { lex: Some(lex_errs), errs });
        },
    };
    let mut errs = parse_my_style(&mut conf, &tokens.namevals);
    let ghost applied = apply_all(initial_view(), namevals_view(tokens.namevals@));
    assert(tokens_view(tokens).0 == namevals_view(tokens.namevals@));
    if conf.flg_help {
        let v = vec![OptErr::HelpMessage(help_message(conf.prog_name.as_str()))];
        assert(errs_view(v@) =~= seq![OptErrView::HelpMessage(help_text())]);
        return Err(OptErrors { lex: None, errs: v });
    }
    if conf.flg_version {
        let v = vec![OptErr::VersionMessage(version_message(conf.prog_name.as_str()))];
        assert(errs_view(v@) =~= seq![OptErrView::VersionMessage(version_text())]);
        return Err(OptErrors { lex: None, errs: v });
    }
    if conf.opt_uc_x.len() > 0 {
        let v = vec![OptErr::HelpMessage(x_message(&conf.opt_uc_x, rust_info))];
        assert(errs_view(v@) =~= seq![OptErrView::HelpMessage(x_text(texts_of(conf.opt_uc_x@), rust_info@))]);
        return Err(OptErrors { lex: None, errs: v });
    }
    let ghost e0 = errs@;
    if conf.opt_exp.len() == 0 && conf.opt_str.len() == 0 {
        errs.push(OptErr::MissingOption(string_of("e")));
        errs.push(OptErr::MissingOption(string_of("s")));
    }
    assert(errs_view(errs@) =~= errs_view(e0) + missing_pattern_errs(conf_view(conf)));
    let ghost e1 = errs@;
    if let OptColorWhen::Auto = conf.opt_color {
        conf.opt_color = if stdout_is_tty { OptColorWhen::Always } else { OptColorWhen::Never };
    }
    if tokens.free.len() > 0 {
        errs.push(OptErr::UnexpectedArgument(tokens.free[0].clone()));
    }
    assert(errs_view(errs@) =~= errs_view(e1) + free_errs(texts_of(tokens.free@)));
    if errs.len() > 0 {
        return Err(OptErrors { lex: None, errs });
    }
    assert(errs_view(errs@).len() == 0);
    Ok(conf)
}

/// Reads the command line: as `parse_cmdopts_with`, asking whether the
/// standard output is a terminal.
pub fn parse_cmdopts(
    a_prog_name: &str,
    args: &Vec<String>,
    color_st: Option<String>,
    color_ed: Option<String>,
    rust_info: &str,
) -> (r: Result<CmdOptConf, OptErrors>)
    requires
        args_lex_safe(texts_of(args@)),
    ensures
        exists|is_tty: bool| parse_result_ok(r, a_prog_name@, texts_of(args@), color_st, color_ed, is_tty, rust_info@),
{
    let tty = stdout_is_terminal();
    let r = parse_cmdopts_with(a_prog_name, args, color_st, color_ed, tty, rust_info);
    assert(parse_result_ok(r, a_prog_name@, texts_of(args@), color_st, color_ed, tty, rust_info@));
    r
}

/// The options are read up to the first that asks for the help or the
/// version, and the flag it sets is the one left set.
proof fn lemma_first_help_or_version(c: CmdOptView, nvs: Seq<(u8, Option<Seq<char>>)>, i: int)
    requires
        !c.help,
        !c.version,
        0 <= i < nvs.len(),
        nvs[i].0 == OPT_HELP || nvs[i].0 == OPT_VERSION,
        forall|j: int| 0 <= j < i ==> (#[trigger] nvs[j]).0 != OPT_HELP && nvs[j].0 != OPT_VERSION,
    ensures
        apply_all(c, nvs).0.help == (nvs[i].0 == OPT_HELP),
        apply_all(c, nvs).0.version == (nvs[i].0 == OPT_VERSION),
    decreases i,
{
    let step = apply_option(c, nvs[0].0, nvs[0].1);
    if i > 0 {
        assert(nvs[0].0 != OPT_HELP && nvs[0].0 != OPT_VERSION);
        assert(!step.0.help && !step.0.version);
        let rest = nvs.drop_first();
        assert forall|j: int| 0 <= j < i - 1 implies (#[trigger] rest[j]).0 != OPT_HELP && rest[j].0 != OPT_VERSION by {
            assert(rest[j] == nvs[j + 1]);
        }
        lemma_first_help_or_version(step.0, rest, i - 1);
    }
}

/// When the first of `-H` and `-V` given is `-H`, the command line gives
/// the help text and nothing else, whatever errors the other options hold.
pub proof fn law_help_wins(nvs: Seq<(u8, Option<Seq<char>>)>, free: Seq<Seq<char>>, is_tty: bool, rust_info: Seq<char>, i: int)
    requires
        0 <= i < nvs.len(),
        nvs[i].0 == OPT_HELP,
        forall|j: int| 0 <= j < i ==> (#[trigger] nvs[j]).0 != OPT_HELP && nvs[j].0 != OPT_VERSION,
    ensures
        cmdopts_outcome(Ok((nvs, free)), is_tty, rust_info) == Err::<CmdOptView, (Option<Seq<Seq<char>>>, Seq<OptErrView>)>(
            (None, seq![OptErrView::HelpMessage(help_text())]),
        ),
{
    lemma_first_help_or_version(initial_view(), nvs, i);
}

/// When the first of `-H` and `-V` given is `-V`, the command line gives
/// the version line and nothing else, whatever errors the other options hold.
pub proof fn law_version_wins(nvs: Seq<(u8, Option<Seq<char>>)>, free: Seq<Seq<char>>, is_tty: bool, rust_info: Seq<char>, i: int)
    requires
        0 <= i < nvs.len(),
        nvs[i].0 == OPT_VERSION,
        forall|j: int| 0 <= j < i ==> (#[trigger] nvs[j]).0 != OPT_HELP && nvs[j].0 != OPT_VERSION,
    ensures
        cmdopts_outcome(Ok((nvs, free)), is_tty, rust_info) == Err::<CmdOptView, (Option<Seq<Seq<char>>>, Seq<OptErrView>)>(
            (None, seq![OptErrView::VersionMessage(version_text())]),
        ),
{
    lemma_first_help_or_version(initial_view(), nvs, i);
}

/// The arguments of the tokens of option `num`, in command-line order.
pub open spec fn option_values(nvs: Seq<(u8, Option<Seq<char>>)>, num: u8) -> Seq<Seq<char>>
    decreases nvs.len(),
{
    if nvs.len() == 0 {
        Seq::empty()
    } else {
        let head: Seq<Seq<char>> = if nvs[0].0 == num && nvs[0].1 is Some {
            seq![nvs[0].1.unwrap()]
        } else {
            Seq::empty()
        };
        head + option_values(nvs.drop_first(), num)
    }
}

/// The color the last `--color` token asks for (`auto` when it has no
/// argument), if there is such a token.
pub open spec fn last_color(nvs: Seq<(u8, Option<Seq<char>>)>) -> Option<OptColorWhen>
    decreases nvs.len(),
{
    if nvs.len() == 0 {
        None
    } else {
        let rest = last_color(nvs.drop_first());
        if rest is Some {
            rest
        } else if nvs[0].0 == OPT_COLOR {
            match nvs[0].1 {
                None => Some(OptColorWhen::Auto),
                Some(v) => color_when_of(v),
            }
        } else {
            None
        }
    }
}

/// Reading the options without help or version collects every argument of
/// `-e` and of `-s` in order, and, when no option was refused, leaves the
/// color of the last `--color`.
proof fn lemma_apply_all_values(c: CmdOptView, nvs: Seq<(u8, Option<Seq<char>>)>)
    requires
        !c.help,
        !c.version,
        !apply_all(c, nvs).0.help,
        !apply_all(c, nvs).0.version,
    ensures
        apply_all(c, nvs).0.exp == c.exp + option_values(nvs, OPT_EXP),
        apply_all(c, nvs).0.strs == c.strs + option_values(nvs, OPT_STR),
        apply_all(c, nvs).1.len() == 0 ==> apply_all(c, nvs).0.color == match last_color(nvs) {
            Some(w) => w,
            None => c.color,
        },
    decreases nvs.len(),
{
    if nvs.len() == 0 {
        assert(c.exp + Seq::<Seq<char>>::empty() =~= c.exp);
        assert(c.strs + Seq::<Seq<char>>::empty() =~= c.strs);
    } else {
        let step = apply_option(c, nvs[0].0, nvs[0].1);
        assert(!step.0.help && !step.0.version);
        let rest = nvs.drop_first();
        lemma_apply_all_values(step.0, rest);
        let hd_e: Seq<Seq<char>> = if nvs[0].0 == OPT_EXP && nvs[0].1 is Some { seq![nvs[0].1.unwrap()] } else { Seq::empty() };
        let hd_s: Seq<Seq<char>> = if nvs[0].0 == OPT_STR && nvs[0].1 is Some { seq![nvs[0].1.unwrap()] } else { Seq::empty() };
        assert(step.0.exp == c.exp + hd_e);
        assert(step.0.strs == c.strs + hd_s);
        assert(c.exp + hd_e + option_values(rest, OPT_EXP) =~= c.exp + (hd_e + option_values(rest, OPT_EXP)));
        assert(c.strs + hd_s + option_values(rest, OPT_STR) =~= c.strs + (hd_s + option_values(rest, OPT_STR)));
    }
}

/// Every `-e` and every `-s` argument is kept, in command-line order: when
/// the command line is accepted, its patterns are exactly the arguments of
/// the `-e` tokens and its plain strings exactly those of the `-s` tokens.
pub proof fn law_patterns_are_the_arguments(
    nvs: Seq<(u8, Option<Seq<char>>)>,
    free: Seq<Seq<char>>,
    is_tty: bool,
    rust_info: Seq<char>,
)
    ensures
        cmdopts_outcome(Ok((nvs, free)), is_tty, rust_info) matches Ok(v) ==> {
            &&& v.exp == option_values(nvs, OPT_EXP)
            &&& v.strs == option_values(nvs, OPT_STR)
        },
{
    let applied = apply_all(initial_view(), nvs);
    if !applied.0.help && !applied.0.version {
        lemma_apply_all_values(initial_view(), nvs);
        assert(Seq::<Seq<char>>::empty() + option_values(nvs, OPT_EXP) =~= option_values(nvs, OPT_EXP));
        assert(Seq::<Seq<char>>::empty() + option_values(nvs, OPT_STR) =~= option_values(nvs, OPT_STR));
    }
}

/// `--color always` and `--color never` hold whatever the terminal is; only
/// `auto` (or no `--color`) is decided by it: colors when the standard
/// output is a terminal, none otherwise. The last `--color` given counts.
pub proof fn law_color_choice(
    nvs: Seq<(u8, Option<Seq<char>>)>,
    free: Seq<Seq<char>>,
    is_tty: bool,
    rust_info: Seq<char>,
)
    ensures
        cmdopts_outcome(Ok((nvs, free)), is_tty, rust_info) matches Ok(v) ==> v.color == match last_color(nvs) {
            Some(OptColorWhen::Always) => OptColorWhen::Always,
            Some(OptColorWhen::Never) => OptColorWhen::Never,
            _ => if is_tty { OptColorWhen::Always } else { OptColorWhen::Never },
        },
{
    let applied = apply_all(initial_view(), nvs);
    if !applied.0.help && !applied.0.version {
        lemma_apply_all_values(initial_view(), nvs);
    }
}

} // verus!
