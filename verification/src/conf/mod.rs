//! The configuration of a run: the options of the command line and the
//! color sequences from the environment.
use vstd::prelude::*;

pub mod parse;

use crate::util::opt_around_num::OptAroundNum;
use crate::util::opt_color_when::OptColorWhen;

verus! {

/// The options of the command line.
#[derive(Debug)]
pub struct CmdOptConf {
    /// The program name.
    pub prog_name: String,
    /// When to highlight matches.
    pub opt_color: OptColorWhen,
    /// The regular expressions (`-e`).
    pub opt_exp: Vec<String>,
    /// The plain strings (`-s`).
    pub opt_str: Vec<String>,
    /// The number of lines printed around a match (`--around`).
    pub opt_around: OptAroundNum,
    /// Print the lines that do not match (`-i`).
    pub flg_inverse: bool,
    /// Help was asked for.
    pub flg_help: bool,
    /// The version was asked for.
    pub flg_version: bool,
    /// The color start sequence.
    pub opt_color_seq_start: String,
    /// The color end sequence.
    pub opt_color_seq_end: String,
    /// The free arguments.
    pub arg_params: Vec<String>,
    /// The x options (`-X`).
    pub opt_uc_x: Vec<String>,
}

/// The default color start sequence (bold red).
pub const COLOR_START: &'static str = "\u{1B}[01;31m";

/// The default color end sequence.
pub const COLOR_END: &'static str = "\u{1B}[0m";

/// The value of an environment variable, or `default` when it is unset.
pub open spec fn value_or(v: Option<Seq<char>>, default: Seq<char>) -> Seq<char> {
    match v {
        Some(s) => s,
        None => default,
    }
}

/// The value given, or a copy of the default.
fn string_or(v: Option<String>, default: &str) -> (r: String)
    ensures
        r@ == value_or(
            match v {
                Some(s) => Some(s@),
                None => None,
            },
            default@,
        ),
{
    match v {
        Some(s) => s,
        None => {
            let mut s = String::new();
            s.append(default);
            s
        },
    }
}

impl CmdOptConf {
    /// The configuration before any option is read: default colors (or those
    /// given by the environment), no patterns, no flags.
    pub fn create(a_prog_name: &str, color_st: Option<String>, color_ed: Option<String>) -> (r: Self)
        ensures
            r.prog_name@ == a_prog_name@,
            r.opt_color == OptColorWhen::Auto,
            r.opt_exp@.len() == 0,
            r.opt_str@.len() == 0,
            r.opt_around.0 == 0,
            !r.flg_inverse,
            !r.flg_help,
            !r.flg_version,
            r.opt_color_seq_start@ == value_or(
                match color_st {
                    Some(s) => Some(s@),
                    None => None,
                },
                COLOR_START@,
            ),
            r.opt_color_seq_end@ == value_or(
                match color_ed {
                    Some(s) => Some(s@),
                    None => None,
                },
                COLOR_END@,
            ),
            r.arg_params@.len() == 0,
            r.opt_uc_x@.len() == 0,
    {
        let mut prog_name = String::new();
        prog_name.append(a_prog_name);
        CmdOptConf {
            prog_name,
            opt_color: OptColorWhen::Auto,
            opt_exp: Vec::new(),
            opt_str: Vec::new(),
            opt_around: OptAroundNum(0),
            flg_inverse: false,
            flg_help: false,
            flg_version: false,
            opt_color_seq_start: string_or(color_st, COLOR_START),
            opt_color_seq_end: string_or(color_ed, COLOR_END),
            arg_params: Vec::new(),
            opt_uc_x: Vec::new(),
        }
    }

    /// Help was asked for.
    pub fn is_help(&self) -> (r: bool)
        ensures
            r == self.flg_help,
    {
        self.flg_help
    }

    /// The version was asked for.
    pub fn is_version(&self) -> (r: bool)
        ensures
            r == self.flg_version,
    {
        self.flg_version
    }
}

/// The color sequences, which the environment may set
/// (`AKI_MLINE_COLOR_SEQ_ST`, `AKI_MLINE_COLOR_SEQ_ED`).
#[derive(Debug)]
pub struct EnvConf {
    /// The sequence put before a highlighted string.
    pub color_seq_start: String,
    /// The sequence put after a highlighted string.
    pub color_seq_end: String,
}

impl EnvConf {
    /// The sequences given, each defaulting when absent.
    pub fn from_values(color_st: Option<String>, color_ed: Option<String>) -> (r: Self)
        ensures
            r.color_seq_start@ == value_or(
                match color_st {
                    Some(s) => Some(s@),
                    None => None,
                },
                COLOR_START@,
            ),
            r.color_seq_end@ == value_or(
                match color_ed {
                    Some(s) => Some(s@),
                    None => None,
                },
                COLOR_END@,
            ),
    {
        EnvConf { color_seq_start: string_or(color_st, COLOR_START), color_seq_end: string_or(color_ed, COLOR_END) }
    }
}

} // verus!
