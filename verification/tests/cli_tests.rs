use fivepoints_calc::cli::{frequency_is_blank, parse_args, usage, CliAction, CliError, Flag};

fn args(v: &[&str]) -> Vec<String> {
    v.iter().map(|x| x.to_string()).collect()
}

const USAGE: &str = "Usage: prog --ifile DATA --skd32m SCHEDULE --skd34m SCHEDULE --frequency C|X|K [--output-dir DIR]\n\nMatch schedule timestamps and offsets to observation data, fit 1D and 2D Gaussian beams,\n         and estimate gain-source flux density from Perley & Butler 2017 calibrators.\nprint the comparison and save a text report and PNG plots.\nDefault output directory: ./five_point_result";

#[test]
fn usage_text() {
    assert_eq!(usage("prog"), USAGE);
}

#[test]
fn full_run_with_both_value_forms() {
    let a = args(&["prog", "--ifile", "obs.tsv", "--skd32m=a.skd", "--skd34m", "b.skd", "--frequency=c"]);
    match parse_args(&a).unwrap() {
        CliAction::Run(c) => {
            assert_eq!(c.ifile, "obs.tsv");
            assert_eq!(c.skd32m, "a.skd");
            assert_eq!(c.skd34m, "b.skd");
            assert_eq!(c.frequency, "c");
            assert_eq!(c.output_dir, "five_point_result");
        }
        _ => panic!("expected a run"),
    }
    let a = args(&["prog", "--ifile=x=y", "--skd32m", "a", "--skd34m", "b", "--frequency", "k", "--output-dir", "out", "--frequency", "x"]);
    match parse_args(&a).unwrap() {
        CliAction::Run(c) => {
            assert_eq!(c.ifile, "x=y");
            assert_eq!(c.frequency, "x");
            assert_eq!(c.output_dir, "out");
        }
        _ => panic!("expected a run"),
    }
}

#[test]
fn usage_requests() {
    assert!(matches!(parse_args(&args(&["prog"])), Ok(CliAction::ShowUsage { to_stderr: true })));
    assert!(matches!(parse_args(&args(&["prog", "--ifile", "a", "-h"])), Ok(CliAction::ShowUsage { to_stderr: false })));
    assert!(matches!(parse_args(&args(&["prog", "--help"])), Ok(CliAction::ShowUsage { to_stderr: false })));
}

#[test]
fn argument_errors() {
    let e = parse_args(&args(&["prog", "--bogus"])).err().unwrap();
    assert!(matches!(&e, CliError::UnknownArgument(a) if a == "--bogus"));
    assert_eq!(e.message("prog"), format!("unknown argument: --bogus\n\n{USAGE}"));
    let e = parse_args(&args(&["prog", "-x=1"])).err().unwrap();
    assert!(matches!(&e, CliError::UnknownArgument(a) if a == "-x=1"));
    let e = parse_args(&args(&["prog", "--ifile"])).err().unwrap();
    assert_eq!(e.message("prog"), "missing value for --ifile");
    let e = parse_args(&args(&["prog", "--ifile", "a"])).err().unwrap();
    assert!(matches!(e, CliError::MissingRequired(Flag::Skd32m)));
    assert_eq!(e.message("prog"), "--skd32m is required");
    let e = parse_args(&args(&["prog", "--ifile", "a", "--skd32m", "b", "--skd34m", "c"])).err().unwrap();
    assert_eq!(e.message("prog"), "--frequency is required");
    let e = parse_args(&args(&[])).err().unwrap();
    assert_eq!(e.message("prog"), "--ifile is required");
}

#[test]
fn blank_frequency() {
    assert!(frequency_is_blank("  \t"));
    assert!(frequency_is_blank(""));
    assert!(!frequency_is_blank(" c "));
}

fn run_of(a: &[&str]) -> (String, String, String, String, String) {
    match parse_args(&args(a)).unwrap() {
        CliAction::Run(c) => (c.ifile, c.skd32m, c.skd34m, c.frequency, c.output_dir),
        _ => panic!("expected a run"),
    }
}

#[test]
fn inline_value_same_as_separate_value() {
    let inline = run_of(&["p", "--ifile=d", "--skd32m=a", "--skd34m=b", "--frequency=x", "--output-dir=o"]);
    let separate = run_of(&["p", "--ifile", "d", "--skd32m", "a", "--skd34m", "b", "--frequency", "x", "--output-dir", "o"]);
    assert_eq!(inline, separate);
}

#[test]
fn help_with_value_and_help_as_value() {
    let e = parse_args(&args(&["p", "--help=1"])).err().unwrap();
    assert!(matches!(&e, CliError::UnknownArgument(a) if a == "--help=1"));
    let run = run_of(&["p", "--ifile", "-h", "--skd32m", "a", "--skd34m", "b", "--frequency", "c"]);
    assert_eq!(run.0, "-h");
}
