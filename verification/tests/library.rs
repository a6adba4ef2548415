use libaki_mline::docs::{help_block, splice_help};
use libaki_mline::conf::parse::{check_args_lex_safe, parse_match, x_message, OPT_AROUND, OPT_COLOR, OPT_EXP, OPT_HELP, OPT_INVERSE, OPT_STR, OPT_VERSION, OPT_X};
use libaki_mline::highlight::make_out_s;
use libaki_mline::matcher::{find_needle, RegexMatcher};
use libaki_mline::ranges::{merge_sorted, sort_by_start};
use libaki_mline::run::{compile_patterns, make_line_color_mark};
use libaki_mline::{
    cmd_error_message, help_or_version, parse_cmdopts_with, parse_my_style, run_lines, CmdOptConf, EnvConf, MatchProc, MlineError,
    OptAroundNum, OptColorWhen, OptErr,
};

fn args(v: &[&str]) -> Vec<String> {
    v.iter().map(|s| s.to_string()).collect()
}

fn strings(v: &[&str]) -> Vec<String> {
    args(v)
}

fn conf_of(a: &[&str]) -> CmdOptConf {
    parse_cmdopts_with("aki-mline", &args(a), Some("[".to_string()), Some("]".to_string()), false, "rustc 1.80.0").unwrap()
}

fn env() -> EnvConf {
    EnvConf::from_values(Some("[".to_string()), Some("]".to_string()))
}

#[test]
fn make_out_s_marks_each_range() {
    let r = make_out_s("<", ">", "abcdef", &vec![(0, 1), (2, 4)]);
    assert_eq!(r, "<a>b<cd>ef");
    let r = make_out_s("<", ">", "abcdef", &vec![]);
    assert_eq!(r, "abcdef");
    let r = make_out_s("<", ">", "abc", &vec![(0, 3)]);
    assert_eq!(r, "<abc>");
    let r = make_out_s("<<", ">>", "", &vec![]);
    assert_eq!(r, "");
    let r = make_out_s("<", ">", "こんにちは世界", &vec![(15, 21)]);
    assert_eq!(r, "こんにちは<世界>");
}

#[test]
fn sort_and_merge_ranges() {
    let s = sort_by_start(&vec![(5, 7), (0, 2), (1, 3), (9, 9)]);
    assert_eq!(s, vec![(0, 2), (1, 3), (5, 7), (9, 9)]);
    let m = merge_sorted(&s);
    assert_eq!(m, vec![(0, 3), (5, 7), (9, 9)]);
    // touching ranges are merged
    assert_eq!(merge_sorted(&vec![(0, 2), (2, 4)]), vec![(0, 4)]);
    // a range inside another disappears into it
    assert_eq!(merge_sorted(&vec![(0, 10), (2, 4), (5, 6)]), vec![(0, 10)]);
    assert_eq!(merge_sorted(&vec![]), vec![]);
}

#[test]
fn regex_and_needle_search() {
    let re = RegexMatcher::compile("a+").unwrap();
    assert_eq!(re.find_ranges("baaca"), vec![(1, 3), (4, 5)]);
    assert_eq!(re.find_ranges("xyz"), vec![]);
    assert!(RegexMatcher::compile("abc[").is_err());
    assert_eq!(find_needle("abcabc", "bc"), vec![1, 4]);
    assert_eq!(find_needle("aaaa", "aa"), vec![0, 2]);
    assert_eq!(find_needle("abc", "x"), vec![]);
}

#[test]
fn line_color_mark_merges_all_matches() {
    let regs = compile_patterns(&strings(&["b+", "c"])).unwrap();
    let r = make_line_color_mark(&regs, &strings(&["cd", "f"]), false, "abbcdef");
    assert!(r.b_found);
    assert!(!r.b_continue);
    assert_eq!(r.ranges, vec![(1, 5), (6, 7)]);
    let r = make_line_color_mark(&regs, &strings(&["zz"]), false, "xyz");
    assert!(!r.b_found);
    assert!(!r.b_continue);
    assert!(r.ranges.is_empty());
    // inverse: a match means the line is skipped
    let r = make_line_color_mark(&regs, &strings(&[]), true, "abc");
    assert!(r.b_found);
    assert!(r.b_continue);
    assert!(r.ranges.is_empty());
    let r = make_line_color_mark(&regs, &strings(&[]), true, "xyz");
    assert!(!r.b_found);
    assert!(!r.b_continue);
}

#[test]
fn parse_defaults_and_values() {
    let c = conf_of(&["-e", "a", "-s", "b", "--around", "3", "-i", "--color", "never"]);
    assert_eq!(c.prog_name, "aki-mline");
    assert_eq!(c.opt_exp, strings(&["a"]));
    assert_eq!(c.opt_str, strings(&["b"]));
    assert_eq!(c.opt_around, OptAroundNum(3));
    assert!(c.flg_inverse);
    assert_eq!(c.opt_color, OptColorWhen::Never);
    assert_eq!(c.opt_color_seq_start, "[");
    assert_eq!(c.opt_color_seq_end, "]");
    let c = parse_cmdopts_with("p", &args(&["--exp=x"]), None, None, true, "rustc 1.80.0").unwrap();
    assert_eq!(c.opt_exp, strings(&["x"]));
    assert_eq!(c.opt_color, OptColorWhen::Always);
    assert_eq!(c.opt_color_seq_start, "\u{1B}[01;31m");
    assert_eq!(c.opt_color_seq_end, "\u{1B}[0m");
    let c = parse_cmdopts_with("p", &args(&["-s", "x"]), None, None, false, "rustc 1.80.0").unwrap();
    assert_eq!(c.opt_color, OptColorWhen::Never);
    assert_eq!(c.opt_around, OptAroundNum(0));
    assert!(!c.flg_inverse);
}

#[test]
fn parse_errors_are_reported() {
    let e = parse_cmdopts_with("p", &args(&["-e", "a", "--color", "bad"]), None, None, false, "rustc 1.80.0").unwrap_err();
    assert!(e.lex.is_none());
    assert_eq!(e.errs.len(), 1);
    assert_eq!(e.errs[0].message(), "Invalid option argument: color: can not parse 'bad'");
    let e = parse_cmdopts_with("p", &args(&["-e", "a", "--around", "x"]), None, None, false, "rustc 1.80.0").unwrap_err();
    assert_eq!(e.errs[0].message(), "Invalid option argument: around: can not parse 'x': invalid digit found in string");
    let e = parse_cmdopts_with("p", &args(&["-e", "a", "extra", "more"]), None, None, false, "rustc 1.80.0").unwrap_err();
    assert_eq!(e.errs.len(), 1);
    assert_eq!(e.errs[0].message(), "Unexpected argument: extra");
    assert_eq!(cmd_error_message(&e), "Unexpected argument: extra\nTry --help for help.");
    assert!(help_or_version(&e).is_none());
    let e = parse_cmdopts_with("p", &args(&[]), None, None, false, "rustc 1.80.0").unwrap_err();
    assert_eq!(cmd_error_message(&e), "Missing option: e\nMissing option: s\nTry --help for help.");
}

#[test]
fn lexer_errors_come_first() {
    let e = parse_cmdopts_with("p", &args(&["--nope"]), None, None, false, "rustc 1.80.0").unwrap_err();
    assert_eq!(e.lex, Some(strings(&["Invalid option: nope"])));
    assert_eq!(
        cmd_error_message(&e),
        "Invalid option: nope\nMissing option: e\nMissing option: s\nTry --help for help."
    );
    let e = parse_cmdopts_with("p", &args(&["--nope", "-q", "-e"]), None, None, false, "rustc 1.80.0").unwrap_err();
    assert_eq!(
        e.lex,
        Some(strings(&["Invalid option: nope", "Invalid option: q", "Missing option argument: e"]))
    );
    let only_lex = libaki_mline::OptErrors { lex: Some(strings(&["x"])), errs: vec![] };
    assert_eq!(cmd_error_message(&only_lex), "x\nTry --help for help.");
}

#[test]
fn help_and_version_win() {
    let e = parse_cmdopts_with("p", &args(&["-V", "--color", "bad"]), None, None, false, "rustc 1.80.0").unwrap_err();
    assert_eq!(help_or_version(&e).unwrap(), "aki-mline 0.1.0");
    let e = parse_cmdopts_with("p", &args(&["--color", "bad", "-H"]), None, None, false, "rustc 1.80.0").unwrap_err();
    assert!(help_or_version(&e).unwrap().starts_with("aki-mline 0.1.0\n\nUsage:\n  aki-mline [options]\n"));
    let e = parse_cmdopts_with("p", &args(&["-X", "nothing"]), None, None, false, "rustc 1.80.0").unwrap_err();
    assert_eq!(e.errs[0].message(), "Invalid option argument: X: can not parse 'nothing'");
}

#[test]
fn x_options_print_the_first() {
    assert_eq!(x_message(&strings(&["help", "rust-version-info"]), "R"), x_message(&strings(&["help"]), "R"));
    assert_eq!(x_message(&strings(&["rust-version-info", "help"]), "rustc 1.80.0"), "rustc 1.80.0");
    assert_eq!(x_message(&strings(&[]), "R"), "");
    let e = parse_cmdopts_with("p", &args(&["-X", "rust-version-info", "-e", "a"]), None, None, false, "rustc 9").unwrap_err();
    assert_eq!(help_or_version(&e).unwrap(), "rustc 9");
}

#[test]
fn parse_match_applies_each_option() {
    let mut c = CmdOptConf::create("p", None, None);
    assert!(parse_match(&mut c, OPT_EXP, Some("a".to_string())).is_ok());
    assert!(parse_match(&mut c, OPT_STR, Some("b".to_string())).is_ok());
    assert!(parse_match(&mut c, OPT_AROUND, Some("2".to_string())).is_ok());
    assert!(parse_match(&mut c, OPT_INVERSE, None).is_ok());
    assert!(parse_match(&mut c, OPT_COLOR, Some("always".to_string())).is_ok());
    assert!(parse_match(&mut c, OPT_X, Some("help".to_string())).is_ok());
    assert_eq!(c.opt_exp, strings(&["a"]));
    assert_eq!(c.opt_str, strings(&["b"]));
    assert_eq!(c.opt_around, OptAroundNum(2));
    assert!(c.flg_inverse);
    assert_eq!(c.opt_color, OptColorWhen::Always);
    assert_eq!(c.opt_uc_x, strings(&["help"]));
    match parse_match(&mut c, OPT_EXP, None) {
        Err(OptErr::MissingOptionArgument(s)) => assert_eq!(s, "exp"),
        _ => panic!("expected a missing argument"),
    }
    assert!(parse_match(&mut c, OPT_HELP, None).is_ok());
    assert!(c.is_help());
    assert!(parse_match(&mut c, OPT_VERSION, None).is_ok());
    assert!(c.is_version());
}

#[test]
fn parse_my_style_stops_at_help() {
    let mut c = CmdOptConf::create("p", None, None);
    let nvs = vec![(OPT_EXP, Some("a".to_string())), (OPT_HELP, None), (OPT_COLOR, Some("bad".to_string()))];
    let errs = parse_my_style(&mut c, &nvs);
    assert!(errs.is_empty());
    assert!(c.flg_help);
    let mut c = CmdOptConf::create("p", None, None);
    let nvs = vec![(OPT_COLOR, Some("bad".to_string())), (OPT_AROUND, None), (OPT_EXP, Some("a".to_string()))];
    let errs = parse_my_style(&mut c, &nvs);
    assert_eq!(errs.len(), 2);
    assert_eq!(errs[1].message(), "Missing option argument: around");
    assert_eq!(c.opt_exp, strings(&["a"]));
}

#[test]
fn color_when_words() {
    assert_eq!(OptColorWhen::parse("always"), Ok(OptColorWhen::Always));
    assert_eq!(OptColorWhen::parse("never"), Ok(OptColorWhen::Never));
    assert_eq!(OptColorWhen::parse("auto"), Ok(OptColorWhen::Auto));
    assert_eq!(OptColorWhen::parse("Always"), Err("can not parse 'Always'".to_string()));
    assert_eq!(OptColorWhen::default(), OptColorWhen::Auto);
}

#[test]
fn env_defaults() {
    let e = EnvConf::from_values(None, Some("E".to_string()));
    assert_eq!(e.color_seq_start, "\u{1B}[01;31m");
    assert_eq!(e.color_seq_end, "E");
}

#[test]
fn match_proc_keeps_context() {
    let conf = conf_of(&["-s", "m", "--around", "1", "--color", "always"]);
    let regs = compile_patterns(&conf.opt_exp).unwrap();
    let env = env();
    let mut p = MatchProc::new();
    assert!(p.feed_line(&conf, &env, &regs, "a".to_string()).is_empty());
    assert!(p.feed_line(&conf, &env, &regs, "b".to_string()).is_empty());
    assert_eq!(p.feed_line(&conf, &env, &regs, "m".to_string()), strings(&["b", "[m]"]));
    assert_eq!(p.feed_line(&conf, &env, &regs, "c".to_string()), strings(&["c", ""]));
    assert!(p.feed_line(&conf, &env, &regs, "d".to_string()).is_empty());
}

#[test]
fn context_lines_held_across_a_new_match() {
    // A line after a match waits for the next ones; a match in between
    // prints at once and the waiting line comes after it.
    let conf = conf_of(&["-s", "m", "--around", "2"]);
    let out = run_lines(&conf, &env(), &strings(&["m1", "x", "m2", "y", "z"])).unwrap();
    assert_eq!(out, strings(&["m1", "m2", "x", "y", ""]));
}

#[test]
fn run_lines_reports_bad_patterns() {
    let conf = conf_of(&["-e", "ok", "-e", "(unclosed", "-e", "[abc"]);
    match run_lines(&conf, &env(), &strings(&["ok"])) {
        Err(MlineError::Regex(e)) => {
            assert!(e.contains("unclosed group"));
            assert!(!e.contains("character class"));
        }
        Ok(_) => panic!("the pattern should be refused"),
    }
}

#[test]
fn without_context_only_matching_lines() {
    let conf = conf_of(&["-e", "^a", "--color", "never"]);
    let out = run_lines(&conf, &env(), &strings(&["ab", "ba", "ac", ""])).unwrap();
    assert_eq!(out, strings(&["ab", "ac"]));
}

#[test]
fn highlight_removes_to_the_line() {
    let conf = conf_of(&["-s", "ab", "-e", "b.", "--color", "always"]);
    let out = run_lines(&conf, &env(), &strings(&["xabcx"])).unwrap();
    assert_eq!(out, strings(&["x[abc]x"]));
}

#[test]
fn lexer_safety_check() {
    assert!(check_args_lex_safe(&args(&["-e", "a", "--color", "always"])));
    assert!(check_args_lex_safe(&args(&["-ie", "a"])));
    assert!(check_args_lex_safe(&args(&[])));
}

#[test]
fn docs_help_block() {
    let b = help_block("Options:\n  -e <exp>  pattern \n\n \t");
    assert_eq!(
        b,
        "```text\nUsage:\n  aki-mline [options]\n\nmatch line, regex text filter like a grep.\n\nOptions:\n  -e <exp>  pattern\n\n\
Option Parameters:\n  <when>    'always', 'never', or 'auto'\n  <exp>     regular expression\n  <string>  simple string, non regular expression\n\n\
Environments:\n  AKI_MLINE_COLOR_SEQ_ST    color start sequence specified by ansi\n  AKI_MLINE_COLOR_SEQ_ED    color end sequence specified by ansi\n```\n"
    );
    // trailing non-ASCII white space goes too
    assert!(help_block("x\u{3000}\u{a0}").contains("\n\nx\n\nOption Parameters:"));
}

#[test]
fn docs_splice_help() {
    let content = "head\n<!-- [HELP_START] -->\nold\n<!-- [HELP_END] -->\ntail";
    assert_eq!(
        splice_help(content, "NEW\n").unwrap(),
        "head\n<!-- [HELP_START] -->\nNEW\n<!-- [HELP_END] -->\ntail"
    );
    assert_eq!(splice_help("no markers", "x"), None);
    assert_eq!(splice_help("<!-- [HELP_START] -->\nonly start", "x"), None);
    let twice = "é<!-- [HELP_START] -->\na<!-- [HELP_END] -->b<!-- [HELP_START] -->\n<!-- [HELP_END] -->";
    assert_eq!(
        splice_help(twice, "Z").unwrap(),
        "é<!-- [HELP_START] -->\nZ<!-- [HELP_END] -->b<!-- [HELP_START] -->\n<!-- [HELP_END] -->"
    );
}

#[test]
fn empty_markers_keep_the_line() {
    let line = "a café au lait";
    let ranges = vec![(2, 7), (8, 10)];
    assert_eq!(make_out_s("", "", line, &ranges), line);
    let marked = make_out_s("<S>", "<E>", line, &ranges);
    assert_eq!(marked, "a <S>café<E> <S>au<E> lait");
    assert_eq!(marked.len(), line.len() + ranges.len() * 6);
}

#[test]
fn merge_does_not_depend_on_match_order() {
    let a = vec![(4, 6), (0, 2), (1, 3), (6, 8)];
    let b = vec![(1, 3), (6, 8), (0, 2), (4, 6)];
    let ma = merge_sorted(&sort_by_start(&a));
    let mb = merge_sorted(&sort_by_start(&b));
    assert_eq!(ma, vec![(0, 3), (4, 8)]);
    assert_eq!(ma, mb);
}

#[test]
fn empty_regex_matches_are_marked() {
    let conf = conf_of(&["-e", "x*", "--color", "always"]);
    let out = run_lines(&conf, &env(), &strings(&["ab"])).unwrap();
    assert_eq!(out, strings(&["[]a[]b[]"]));
}

#[test]
fn printed_lines_come_from_the_input() {
    let input = strings(&["k1", "a", "b", "k2", "c", "d", "e", "k3"]);
    let conf = conf_of(&["-s", "k", "--around", "2", "--color", "always"]);
    let out = run_lines(&conf, &env(), &input).unwrap();
    assert_eq!(out, strings(&["[k]1", "a", "b", "", "[k]2", "c", "d", "", "e", "[k]3"]));
    for line in &out {
        let plain = line.replace('[', "").replace(']', "");
        assert!(line.is_empty() || input.contains(&plain));
    }
}

#[test]
fn inverse_ignores_context() {
    let input = strings(&["k1", "a", "k2", "b"]);
    let with = run_lines(&conf_of(&["-s", "k", "-i", "--around", "3"]), &env(), &input).unwrap();
    let without = run_lines(&conf_of(&["-s", "k", "-i"]), &env(), &input).unwrap();
    assert_eq!(with, strings(&["a", "b"]));
    assert_eq!(with, without);
}

#[test]
fn help_wins_over_earlier_errors() {
    let e = parse_cmdopts_with("p", &args(&["--around", "x", "extra", "-H", "-V"]), None, None, false, "rustc 1.80.0").unwrap_err();
    assert_eq!(e.errs.len(), 1);
    assert!(help_or_version(&e).unwrap().starts_with("aki-mline 0.1.0\n\nUsage:"));
    let e = parse_cmdopts_with("p", &args(&["--color", "x", "-V", "-H"]), None, None, false, "rustc 1.80.0").unwrap_err();
    assert_eq!(e.errs.len(), 1);
    assert_eq!(help_or_version(&e).unwrap(), "aki-mline 0.1.0");
}

#[test]
fn docs_splice_twice_is_splice_once() {
    let content = "intro\n<!-- [HELP_START] -->\nold block\n<!-- [HELP_END] -->\nrest";
    let help = help_block("Options:\n  -e <exp>  regular expression\n");
    let once = splice_help(content, &help).unwrap();
    let twice = splice_help(&once, &help).unwrap();
    assert_eq!(once, twice);
}
