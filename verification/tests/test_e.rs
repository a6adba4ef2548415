#![allow(dead_code)]
use libaki_mline::conf::parse::check_args_lex_safe;
use libaki_mline::{cmd_error_message, help_or_version, parse_cmdopts_with, run_lines, EnvConf, MlineError};

const PROGRAM: &str = "aki-mline";

const HELP_MSG: &str = "aki-mline 0.1.0

Usage:
  aki-mline [options]

match line, regex text filter like a grep.

Options:
      --around <num>    around output. printing the match, prev and the next lines.
      --color <when>    use markers to highlight the matching strings
  -e, --exp <exp>       regular expression
  -s, --str <string>    simple string match
  -i, --inverse         output non-matching lines.

  -H, --help        display this help and exit
  -V, --version     display version information and exit
  -X <x-options>    x options. try -X help

Option Parameters:
  <when>    'always', 'never', or 'auto'
  <exp>     regular expression
  <string>  simple string, non regular expression

Environments:
  AKI_MLINE_COLOR_SEQ_ST    color start sequence specified by ansi
  AKI_MLINE_COLOR_SEQ_ED    color end sequence specified by ansi

";

const RUST_INFO: &str = "rustc 1.80.0 (051478957 2024-07-21)\naki-mline v0.1.0";

const X_HELP_MSG: &str = "Options:\n  -X rust-version-info     display rust version info and exit\n";

const VERSION_MSG: &str = "aki-mline 0.1.0\n";

const TRY_HELP: &str = "Try --help for help.\n";

const COLOR_START: &str = "<S>";
const COLOR_END: &str = "<E>";

struct Outcome {
    stdout: String,
    stderr: String,
    success: bool,
}

/// The lines of the input, as a buffered reader yields them.
fn input_lines(input: &str) -> Vec<String> {
    let mut v = Vec::new();
    for piece in input.split_inclusive('\n') {
        let mut s = piece;
        if let Some(t) = s.strip_suffix('\n') {
            s = t;
            if let Some(u) = s.strip_suffix('\r') {
                s = u;
            }
        }
        v.push(s.to_string());
    }
    v
}

/// Runs the whole filter on `input` as the program does: the command line,
/// then the lines, with the output and error streams collected.
fn execute_with(args: &[&str], colors: Option<(&str, &str)>, input: &str, stdout_is_tty: bool) -> Outcome {
    let args: Vec<String> = args.iter().map(|s| s.to_string()).collect();
    assert!(check_args_lex_safe(&args));
    let (st, ed) = match colors {
        Some((a, b)) => (Some(a.to_string()), Some(b.to_string())),
        None => (None, None),
    };
    match parse_cmdopts_with(PROGRAM, &args, st.clone(), ed.clone(), stdout_is_tty, RUST_INFO) {
        Ok(conf) => {
            let env = EnvConf::from_values(st, ed);
            match run_lines(&conf, &env, &input_lines(input)) {
                Ok(out) => {
                    let mut s = String::new();
                    for line in out {
                        s.push_str(&line);
                        s.push('\n');
                    }
                    Outcome { stdout: s, stderr: String::new(), success: true }
                }
                Err(MlineError::Regex(e)) => Outcome {
                    stdout: String::new(),
                    stderr: format!("{}: {}\n", PROGRAM, e),
                    success: false,
                },
            }
        }
        Err(errs) => match help_or_version(&errs) {
            Some(m) => Outcome { stdout: format!("{}\n", m), stderr: String::new(), success: true },
            None => Outcome {
                stdout: String::new(),
                stderr: format!("{}: {}\n", PROGRAM, cmd_error_message(&errs)),
                success: false,
            },
        },
    }
}

fn execute(args: &[&str], input: &str) -> Outcome {
    execute_with(args, Some((COLOR_START, COLOR_END)), input, false)
}

fn assert_out(args: &[&str], input: &str, expected: &str) {
    let oup = execute(args, input);
    assert_eq!(oup.stderr, "");
    assert_eq!(oup.stdout, expected);
    assert!(oup.success);
}

#[test]
fn test_e_test_help() {
    let oup = execute(&["-H"], "");
    assert_eq!(oup.stderr, "");
    assert_eq!(oup.stdout, HELP_MSG);
    assert!(oup.success);
}

#[test]
fn test_e_test_help_long() {
    let oup = execute(&["--help"], "");
    assert_eq!(oup.stderr, "");
    assert_eq!(oup.stdout, HELP_MSG);
    assert!(oup.success);
}

#[test]
fn test_e_test_version() {
    let oup = execute(&["-V"], "");
    assert_eq!(oup.stderr, "");
    assert_eq!(oup.stdout, VERSION_MSG);
    assert!(oup.success);
}

#[test]
fn test_e_test_version_long() {
    let oup = execute(&["--version"], "");
    assert_eq!(oup.stderr, "");
    assert_eq!(oup.stdout, VERSION_MSG);
    assert!(oup.success);
}

#[test]
fn test_e_test_non_opt_non_arg() {
    let oup = execute(&[""], "");
    assert_eq!(
        oup.stderr,
        format!("aki-mline: Missing option: e\nMissing option: s\nUnexpected argument: \n{}", TRY_HELP)
    );
    assert_eq!(oup.stdout, "");
    assert!(!oup.success);
}

#[test]
fn test_e_test_x_option_help() {
    let oup = execute(&["-X", "help"], "");
    assert_eq!(oup.stderr, "");
    assert_eq!(oup.stdout, X_HELP_MSG);
    assert!(oup.success);
}

#[test]
fn test_e_test_x_option_rust_version_info() {
    let oup = execute(&["-X", "rust-version-info"], "");
    assert_eq!(oup.stderr, "");
    assert!(oup.stdout.contains("rustc"));
    assert!(oup.success);
}

#[test]
fn test_e_test_multiple_x_options() {
    let oup = execute(&["-X", "help", "-X", "rust-version-info"], "");
    assert_eq!(oup.stderr, "");
    // The first one is acted on and the program stops there.
    assert!(oup.stdout.contains("Options:"));
    assert!(!oup.stdout.contains("rustc"));
    assert!(oup.success);
}

#[test]
fn test_e_test_missing_value_for_exp() {
    let oup = execute(&["-e"], "");
    assert!(oup.stderr.contains("Missing option argument: e"));
    assert_eq!(oup.stdout, "");
    assert!(!oup.success);
}

#[test]
fn test_e_test_missing_value_for_str() {
    let oup = execute(&["-s"], "");
    assert!(oup.stderr.contains("Missing option argument: s"));
    assert_eq!(oup.stdout, "");
    assert!(!oup.success);
}

#[test]
fn test_e_test_unknown_option() {
    let oup = execute(&["--unknown-option"], "");
    assert!(oup.stderr.contains("Invalid option: unknown-option"));
    assert_eq!(oup.stdout, "");
    assert!(!oup.success);
}

#[test]
fn test_e_test_both_exp_and_str() {
    let oup = execute(&["-e", "a", "-s", "b"], "");
    assert_eq!(oup.stdout, "");
    assert_eq!(oup.stderr, "");
    assert!(oup.success);
}

#[test]
fn test_e_test_custom_color_sequence() {
    let oup = execute_with(&["-s", "world", "--color", "always"], Some(("<START>", "<END>")), "hello world\n", false);
    assert_eq!(oup.stderr, "");
    assert_eq!(oup.stdout, "hello <START>world<END>\n");
    assert!(oup.success);
}

#[test]
fn test_e_test_ok() {
    // regular expressions
    assert_out(&["-e", "[csh].. [csh].. in", "--color", "always"], "The cat sat in the hat",
        &["The ", COLOR_START, "cat sat in", COLOR_END, " the hat", "\n"].concat());
    assert_out(&["-e", "and|or", "--color", "always"], "Feliformia", &["Felif", COLOR_START, "or", COLOR_END, "mia", "\n"].concat());
    assert_out(&["-e", "and|or", "--color", "always"], "furandi", &["fur", COLOR_START, "and", COLOR_END, "i", "\n"].concat());
    assert_out(&["-e", "and|or", "--color", "always"], "dissemblance", "");
    assert_out(&["-e", "^sur", "--color", "always"], "surrealist", &["", COLOR_START, "sur", COLOR_END, "realist", "\n"].concat());
    assert_out(&["-e", "^real", "--color", "always"], "surrealist", "");
    assert_out(&["-e", "list$", "--color", "always"], "surrealist", &["surrea", COLOR_START, "list", COLOR_END, "\n"].concat());
    assert_out(&["-e", "real$", "--color", "always"], "surrealist", "");
}

#[test]
fn test_e_test_str_ok() {
    // plain strings
    assert_out(&["-s", "cat sat in", "--color", "always"], "The cat sat in the hat",
        &["The ", COLOR_START, "cat sat in", COLOR_END, " the hat", "\n"].concat());
    assert_out(&["-s", "or", "--color", "always"], "Feliformia", &["Felif", COLOR_START, "or", COLOR_END, "mia", "\n"].concat());
    assert_out(&["-s", "and", "--color", "always"], "furandi", &["fur", COLOR_START, "and", COLOR_END, "i", "\n"].concat());
    assert_out(&["-s", "and", "--color", "always"], "dissemblance", "");
    assert_out(&["-s", "sur", "--color", "always"], "surrealist", &["", COLOR_START, "sur", COLOR_END, "realist", "\n"].concat());
    assert_out(&["-s", "list", "--color", "always"], "surrealist", &["surrea", COLOR_START, "list", COLOR_END, "\n"].concat());
}

#[test]
fn test_e_test_parse_error() {
    let oup = execute(&["-e", "abc["], "");
    assert_eq!(
        oup.stderr,
        "aki-mline: regex parse error:\n    abc[\n       ^\nerror: unclosed character class\n"
    );
    assert_eq!(oup.stdout, "");
    assert!(!oup.success);
}

#[test]
fn test_e_test_inverse_str() {
    assert_out(&["-s", "apple", "-i"], "apple\nbanana\norange\n", "banana\norange\n");
}

#[test]
fn test_e_test_inverse_regex() {
    assert_out(&["-e", "a.c", "-i"], "abc\ndef\nac\nxyz\n", "def\nac\nxyz\n");
}

#[test]
fn test_e_test_inverse_with_around() {
    assert_out(&["-s", "banana", "-i", "--around", "1"], "apple\nbanana\norange\npeach\n", "apple\norange\npeach\n");
}

#[test]
fn test_e_test_color_always() {
    assert_out(&["-s", "apple", "--color", "always"], "an apple a day\n", &format!("an {}apple{} a day\n", COLOR_START, COLOR_END));
}

#[test]
fn test_e_test_color_auto() {
    // The standard output is not a terminal here, so `auto` does not color.
    assert_out(&["-s", "apple", "--color", "auto"], "an apple a day\n", "an apple a day\n");
}

#[test]
fn test_e_test_color_never() {
    assert_out(&["-s", "apple", "--color", "never"], "an apple a day\n", "an apple a day\n");
    assert_out(&["-s", "apple", "--color", "never"], "apple pie\napple juice\n", "apple pie\napple juice\n");
}

#[test]
fn test_e_test_empty_input() {
    assert_out(&["-e", "a"], "", "");
}

#[test]
fn test_e_test_no_matches() {
    assert_out(&["-s", "xyz"], "apple\nbanana\norange\n", "");
}

#[test]
fn test_e_test_all_lines_match() {
    assert_out(&["-e", ".", "--color", "never"], "apple\nbanana\norange\n", "apple\nbanana\norange\n");
}

#[test]
fn test_e_test_around_at_start() {
    assert_out(&["-s", "line1", "--around", "1", "--color", "always"], "line1\nline2\nline3\n",
        &format!("{}line1{}\nline2\n\n", COLOR_START, COLOR_END));
}

#[test]
fn test_e_test_around_at_end() {
    assert_out(&["-s", "line3", "--around", "1", "--color", "always"], "line1\nline2\nline3\n",
        &format!("line2\n{}line3{}\n", COLOR_START, COLOR_END));
}

#[test]
fn test_e_test_around_overlapping() {
    assert_out(&["-s", "match", "--around", "1", "--color", "always"], "line1\nline2 match\nline3 match\nline4\n",
        &format!("line1\n{}\n{}\nline4\n\n", format!("line2 {}match{}", COLOR_START, COLOR_END), format!("line3 {}match{}", COLOR_START, COLOR_END)));
}

#[test]
fn test_e_test_inverse_with_no_matches() {
    assert_out(&["-s", "nomatch", "-i"], "line1\nline2\nline3\n", "line1\nline2\nline3\n");
}

#[test]
fn test_e_test_inverse_with_all_lines_matching() {
    assert_out(&["-e", ".", "-i"], "line1\nline2\nline3\n", "");
}

#[test]
fn test_e_test_char_classes() {
    assert_out(&["-e", r"line \d", "--color", "always"], "line 1\nline 2\nline a",
        &format!("{}line 1{}\n{}line 2{}\n", COLOR_START, COLOR_END, COLOR_START, COLOR_END));
    assert_out(&["-e", r"\w+", "--color", "always"], "word1\nword2\n word3",
        &format!("{}word1{}\n{}word2{}\n {}word3{}\n", COLOR_START, COLOR_END, COLOR_START, COLOR_END, COLOR_START, COLOR_END));
}

#[test]
fn test_e_test_quantifiers() {
    assert_out(&["-e", "ab?c", "--color", "always"], "ab\nac\nabc", &format!("{}ac{}\n{}abc{}\n", COLOR_START, COLOR_END, COLOR_START, COLOR_END));
    assert_out(&["-e", "ab*c", "--color", "always"], "ac\nabc\nabbc",
        &format!("{}ac{}\n{}abc{}\n{}abbc{}\n", COLOR_START, COLOR_END, COLOR_START, COLOR_END, COLOR_START, COLOR_END));
    assert_out(&["-e", "ab+c", "--color", "always"], "ac\nabc\nabbc", &format!("{}abc{}\n{}abbc{}\n", COLOR_START, COLOR_END, COLOR_START, COLOR_END));
}

#[test]
fn test_e_test_around_2() {
    let input = "line1\nline2\nline3 match\nline4\nline5\nline6\nline7 match\nline8\nline9";
    let expected = "line1\nline2\nline3 match\nline4\nline5\n\nline6\nline7 match\nline8\nline9\n\n";
    assert_out(&["-s", "match", "--around", "2", "--color", "always"], input, &expected.replace("match", &format!("{}match{}", COLOR_START, COLOR_END)));
}

#[test]
fn test_e_test_around_and_inverse() {
    let input = "line1\nline2\nline3 match\nline4\nline5\nline6\nline7 match\nline8\nline9";
    assert_out(&["-s", "match", "-i", "--around", "1"], input, "line1\nline2\nline4\nline5\nline6\nline8\nline9\n");
}

#[test]
fn test_e_test_multibyte_char_match() {
    assert_out(&["-s", "世界", "--color", "always"], "こんにちは世界\nさようなら世界",
        &format!("こんにちは{0}世界{1}\nさようなら{0}世界{1}\n", COLOR_START, COLOR_END));
}

#[test]
fn test_e_test_multibyte_char_no_match() {
    assert_out(&["-s", "世界", "--color", "always"], "こんにちは\nさようなら", "");
}

#[test]
fn test_e_test_inverse_multibyte() {
    assert_out(&["-s", "こんにちは", "-i"], "こんにちは世界\nさようなら世界\n", "さようなら世界\n");
}

#[test]
fn test_e_test_str_search_with_dot() {
    assert_out(&["-s", "a.c", "--color", "always"], "a.c\nabc\n", &format!("{}a.c{}\n", COLOR_START, COLOR_END));
}

#[test]
fn test_e_test_str_search_with_asterisk() {
    assert_out(&["-s", "a*c", "--color", "always"], "a*c\nac\nabc\n", &format!("{}a*c{}\n", COLOR_START, COLOR_END));
}
