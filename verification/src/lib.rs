//! Match line: a regex text filter in the manner of `grep`.
//!
//! The library reads the command line into a configuration, and then
//! decides, line by line, which input lines are printed, which byte ranges
//! of them are highlighted, and which context lines surround a match.
//! Reading the input and writing the output is left to the caller.
pub mod conf;
pub mod docs;
pub mod highlight;
pub mod matcher;
pub mod ranges;
pub mod run;
pub mod util;

pub use conf::parse::{parse_cmdopts, parse_cmdopts_with, parse_my_style, OptErr, OptErrors};
pub use conf::{CmdOptConf, EnvConf};
pub use run::{run_lines, MatchProc, MlineError};
pub use util::opt_around_num::{OptAroundNum, OptAroundNumParseError};
pub use util::opt_color_when::OptColorWhen;

use vstd::prelude::*;
use conf::parse::{err_text, errs_view};
use run::texts_of;

verus! {

/// The hint printed after the errors of a command line.
pub const TRY_HELP_MSG: &'static str = "Try --help for help.";

/// The lines joined into one text, a newline between each two.
pub open spec fn joined_lines(ls: Seq<Seq<char>>) -> Seq<char>
    decreases ls.len(),
{
    if ls.len() == 0 {
        Seq::empty()
    } else if ls.len() == 1 {
        ls[0]
    } else {
        joined_lines(ls.drop_last()) + "\n"@ + ls.last()
    }
}

/// The lines of a refused command line: the texts of the lexer's errors
/// (when it failed), then the text of each other error.
pub open spec fn error_lines(e: OptErrors) -> Seq<Seq<char>> {
    let lex_lines: Seq<Seq<char>> = match e.lex {
        Some(v) => texts_of(v@),
        None => Seq::empty(),
    };
    lex_lines + errs_view(e.errs@).map_values(|x: conf::parse::OptErrView| err_text(x))
}

/// Appends `line` to the joined lines `done`.
fn append_line(r: &mut String, any: bool, line: &str, Ghost(done): Ghost<Seq<Seq<char>>>)
    requires
        old(r)@ == joined_lines(done),
        any == (done.len() > 0),
    ensures
        final(r)@ == joined_lines(done.push(line@)),
{
    if any {
        r.append("\n");
    }
    r.append(line);
    assert(done.push(line@).drop_last() =~= done);
}

/// The message printed instead of running when the command line asks for
/// the help or the version: the first such message among the errors.
pub fn help_or_version(errs: &OptErrors) -> (r: Option<String>)
    ensures
        match r {
            Some(m) => exists|k: int|
                0 <= k < errs.errs@.len() && (errs_view(errs.errs@)[k] is HelpMessage
                    || errs_view(errs.errs@)[k] is VersionMessage) && m@ == err_text(errs_view(errs.errs@)[k])
                    && forall|j: int| 0 <= j < k ==> !(errs_view(errs.errs@)[j] is HelpMessage
                        || errs_view(errs.errs@)[j] is VersionMessage),
            None => forall|k: int| 0 <= k < errs.errs@.len() ==> !(errs_view(errs.errs@)[k] is HelpMessage
                || errs_view(errs.errs@)[k] is VersionMessage),
        },
{
    let n = errs.errs.len();
    let mut i: usize = 0;
    while i < n
        invariant
            n == errs.errs@.len(),
            i <= n,
            forall|j: int| 0 <= j < i ==> !(errs_view(errs.errs@)[j] is HelpMessage
                || errs_view(errs.errs@)[j] is VersionMessage),
        decreases n - i,
    {
        if errs.errs[i].is_help_or_version() {
            let m = errs.errs[i].message();
            assert(errs_view(errs.errs@)[i as int] == conf::parse::err_view(errs.errs@[i as int]));
            return Some(m);
        }
        assert(errs_view(errs.errs@)[i as int] == conf::parse::err_view(errs.errs@[i as int]));
        i = i + 1;
    }
    None
}

/// The message of a refused command line: its error lines (the lexer's
/// first, if it failed), one per line, then the hint to try `--help`.
pub fn cmd_error_message(errs: &OptErrors) -> (r: String)
    ensures
        r@ == joined_lines(error_lines(*errs)) + "\n"@ + TRY_HELP_MSG@,
{
    let ghost lex_lines: Seq<Seq<char>> = match &errs.lex {
        Some(v) => texts_of(v@),
        None => Seq::empty(),
    };
    let ghost es = errs_view(errs.errs@);
    let mut r = String::new();
    let mut any = false;
    let ghost mut done: Seq<Seq<char>> = Seq::empty();
    match &errs.lex {
        Some(v) => {
            let n = v.len();
            let mut i: usize = 0;
            while i < n
                invariant
                    n == v@.len(),
                    i <= n,
                    done == texts_of(v@).take(i as int),
                    r@ == joined_lines(done),
                    any == (done.len() > 0),
                decreases n - i,
            {
                append_line(&mut r, any, v[i].as_str(), Ghost(done));
                proof {
                    assert(texts_of(v@).take(i + 1) =~= done.push(v@[i as int]@));
                    done = done.push(v@[i as int]@);
                }
                any = true;
                i = i + 1;
            }
            assert(texts_of(v@).take(n as int) =~= texts_of(v@));
        },
        None => {},
    }
    assert(done == lex_lines);
    let n = errs.errs.len();
    let mut i: usize = 0;
    assert(lex_lines + es.take(0).map_values(|x: conf::parse::OptErrView| err_text(x)) =~= done);
    while i < n
        invariant
            n == errs.errs@.len(),
            es == errs_view(errs.errs@),
            i <= n,
            done == lex_lines + es.take(i as int).map_values(|x: conf::parse::OptErrView| err_text(x)),
            r@ == joined_lines(done),
            any == (done.len() > 0),
        decreases n - i,
    {
        let m = errs.errs[i].message();
        append_line(&mut r, any, m.as_str(), Ghost(done));
        proof {
            assert(es[i as int] == conf::parse::err_view(errs.errs@[i as int]));
            assert(lex_lines + es.take(i + 1).map_values(|x: conf::parse::OptErrView| err_text(x))
                =~= done.push(m@));
            done = done.push(m@);
        }
        any = true;
        i = i + 1;
    }
    assert(es.take(n as int) =~= es);
    assert(done == error_lines(*errs));
    r.append("\n");
    r.append(TRY_HELP_MSG);
    r
}

} // verus!
