//! Command-line arguments: `--ifile`, `--skd32m`, `--skd34m`, `--frequency`, `--output-dir`.
use vstd::prelude::*;
use crate::text::{chars_of, find_char, split_once, starts_with, span_starts_with, string_of_span};
use crate::timestamp::strings_view;

verus! {

/// The options of one run; paths are kept as the text given.
#[derive(Debug)]
pub struct Cli {
    pub ifile: String,
    pub skd32m: String,
    pub skd34m: String,
    pub frequency: String,
    pub output_dir: String,
}

pub struct CliText {
    pub ifile: Seq<char>,
    pub skd32m: Seq<char>,
    pub skd34m: Seq<char>,
    pub frequency: Seq<char>,
    pub output_dir: Seq<char>,
}

impl View for Cli {
    type V = CliText;

    open spec fn view(&self) -> CliText {
        CliText {
            ifile: self.ifile@,
            skd32m: self.skd32m@,
            skd34m: self.skd34m@,
            frequency: self.frequency@,
            output_dir: self.output_dir@,
        }
    }
}

/// What the arguments ask for: the usage text (on standard error when no argument
/// was given, on standard output for `--help`), or a run.
#[derive(Debug)]
pub enum CliAction {
    ShowUsage { to_stderr: bool },
    Run(Cli),
}

pub enum CliActionView {
    ShowUsage { to_stderr: bool },
    Run(CliText),
}

impl View for CliAction {
    type V = CliActionView;

    open spec fn view(&self) -> CliActionView {
        match self {
            CliAction::ShowUsage { to_stderr } => CliActionView::ShowUsage { to_stderr: *to_stderr },
            CliAction::Run(c) => CliActionView::Run(c@),
        }
    }
}

/// The options that take a value.
#[derive(Debug, Clone, Copy, PartialEq, Eq, Structural)]
pub enum Flag {
    Ifile,
    Skd32m,
    Skd34m,
    Frequency,
    OutputDir,
}

/// Why the arguments cannot be used.
#[derive(Debug)]
pub enum CliError {
    /// The option (as written, before any `=`) has no value after it.
    MissingValue(String),
    /// The argument is not an option of this program.
    UnknownArgument(String),
    /// A required option was not given.
    MissingRequired(Flag),
}

pub enum CliFault {
    MissingValue(Seq<char>),
    UnknownArgument(Seq<char>),
    MissingRequired(Flag),
}

impl View for CliError {
    type V = CliFault;

    open spec fn view(&self) -> CliFault {
        match self {
            CliError::MissingValue(n) => CliFault::MissingValue(n@),
            CliError::UnknownArgument(a) => CliFault::UnknownArgument(a@),
            CliError::MissingRequired(f) => CliFault::MissingRequired(*f),
        }
    }
}

pub open spec fn cli_result_view(r: Result<CliAction, CliError>) -> Result<CliActionView, CliFault> {
    match r {
        Ok(a) => Ok(a@),
        Err(e) => Err(e@),
    }
}

/// The option an argument name stands for.
pub open spec fn flag_of(name: Seq<char>) -> Option<Flag> {
    if name == "--ifile"@ {
        Some(Flag::Ifile)
    } else if name == "--skd32m"@ {
        Some(Flag::Skd32m)
    } else if name == "--skd34m"@ {
        Some(Flag::Skd34m)
    } else if name == "--frequency"@ {
        Some(Flag::Frequency)
    } else if name == "--output-dir"@ {
        Some(Flag::OutputDir)
    } else {
        None
    }
}

/// The options read so far.
pub struct CliState {
    pub ifile: Option<Seq<char>>,
    pub skd32m: Option<Seq<char>>,
    pub skd34m: Option<Seq<char>>,
    pub frequency: Option<Seq<char>>,
    pub output_dir: Seq<char>,
}

pub open spec fn cli_start() -> CliState {
    CliState {
        ifile: None,
        skd32m: None,
        skd34m: None,
        frequency: None,
        output_dir: "five_point_result"@,
    }
}

pub open spec fn set_flag(st: CliState, flag: Flag, value: Seq<char>) -> CliState {
    match flag {
        Flag::Ifile => CliState { ifile: Some(value), ..st },
        Flag::Skd32m => CliState { skd32m: Some(value), ..st },
        Flag::Skd34m => CliState { skd34m: Some(value), ..st },
        Flag::Frequency => CliState { frequency: Some(value), ..st },
        Flag::OutputDir => CliState { output_dir: value, ..st },
    }
}

/// After the last argument: every required option must have been given.
pub open spec fn cli_finish(st: CliState) -> Result<CliActionView, CliFault> {
    match (st.ifile, st.skd32m, st.skd34m, st.frequency) {
        (None, _, _, _) => Err(CliFault::MissingRequired(Flag::Ifile)),
        (Some(_), None, _, _) => Err(CliFault::MissingRequired(Flag::Skd32m)),
        (Some(_), Some(_), None, _) => Err(CliFault::MissingRequired(Flag::Skd34m)),
        (Some(_), Some(_), Some(_), None) => Err(CliFault::MissingRequired(Flag::Frequency)),
        (Some(i), Some(a), Some(b), Some(f)) => Ok(
            CliActionView::Run(
                CliText { ifile: i, skd32m: a, skd34m: b, frequency: f, output_dir: st.output_dir },
            ),
        ),
    }
}

/// An argument split into its name and, for `--name=value`, its inline value.
pub open spec fn name_and_inline(arg: Seq<char>) -> (Seq<char>, Option<Seq<char>>) {
    match split_once(arg, '=') {
        Some((n, v)) => if starts_with(n, "--"@) {
            (n, Some(v))
        } else {
            (arg, None)
        },
        None => (arg, None),
    }
}

/// Reading the arguments from position `i` on, with the options read so far.
pub open spec fn cli_from(args: Seq<Seq<char>>, i: int, st: CliState) -> Result<CliActionView, CliFault>
    decreases args.len() - i,
{
    if i >= args.len() || i < 0 {
        cli_finish(st)
    } else {
        let arg = args[i];
        if arg == "--help"@ || arg == "-h"@ {
            Ok(CliActionView::ShowUsage { to_stderr: false })
        } else {
            let (name, inline) = name_and_inline(arg);
            match flag_of(name) {
                None => Err(CliFault::UnknownArgument(arg)),
                Some(flag) => match inline {
                    Some(v) => cli_from(args, i + 1, set_flag(st, flag, v)),
                    None => if i + 1 < args.len() {
                        cli_from(args, i + 2, set_flag(st, flag, args[i + 1]))
                    } else {
                        Err(CliFault::MissingValue(name))
                    },
                },
            }
        }
    }
}

/// What the command-line arguments ask for (the program name first).
pub open spec fn cli(args: Seq<Seq<char>>) -> Result<CliActionView, CliFault> {
    if args.len() == 1 {
        Ok(CliActionView::ShowUsage { to_stderr: true })
    } else {
        cli_from(args, 1, cli_start())
    }
}

fn flag_for(name: &String) -> (r: Option<Flag>)
    ensures
        r == flag_of(name@),
{
    if *name == String::from_str("--ifile") {
        Some(Flag::Ifile)
    } else if *name == String::from_str("--skd32m") {
        Some(Flag::Skd32m)
    } else if *name == String::from_str("--skd34m") {
        Some(Flag::Skd34m)
    } else if *name == String::from_str("--frequency") {
        Some(Flag::Frequency)
    } else if *name == String::from_str("--output-dir") {
        Some(Flag::OutputDir)
    } else {
        None
    }
}

fn split_name(arg: &String) -> (r: (String, Option<String>))
    ensures
        ({
            let (n, v) = name_and_inline(arg@);
            &&& r.0@ == n
            &&& match r.1 {
                Some(s) => v == Some(s@),
                None => v is None,
            }
        }),
{
    let v = chars_of(arg.as_str());
    assert(v@.subrange(0, v@.len() as int) =~= v@);
    let dashes = chars_of("--");
    match find_char(&v, 0, v.len(), '=') {
        Some(k) => {
            let ghost n = v@.take(k as int);
            assert(v@.subrange(0, k as int) =~= n);
            if span_starts_with(&v, 0, k, &dashes) {
                let name = string_of_span(&v, 0, k);
                let value = string_of_span(&v, k + 1, v.len());
                assert(value@ =~= v@.skip(k + 1));
                (name, Some(value))
            } else {
                (arg.clone(), None)
            }
        },
        None => (arg.clone(), None),
    }
}

/// Reads the command-line arguments (`args[0]` is the program name).
pub fn parse_args(args: &Vec<String>) -> (r: Result<CliAction, CliError>)
    ensures
        cli_result_view(r) == cli(strings_view(args@)),
{
    let ghost a = strings_view(args@);
    if args.len() == 1 {
        return Ok(CliAction::ShowUsage { to_stderr: true });
    }
    let mut ifile: Option<String> = None;
    let mut skd32m: Option<String> = None;
    let mut skd34m: Option<String> = None;
    let mut frequency: Option<String> = None;
    let mut output_dir = String::from_str("five_point_result");
    let help = String::from_str("--help");
    let h = String::from_str("-h");
    let mut i: usize = 1;
    while i < args.len()
        invariant
            a == strings_view(args@),
            help@ == "--help"@,
            h@ == "-h"@,
            1 <= i,
            cli(a) == cli_from(
                a,
                i as int,
                CliState {
                    ifile: match ifile { Some(s) => Some(s@), None => None },
                    skd32m: match skd32m { Some(s) => Some(s@), None => None },
                    skd34m: match skd34m { Some(s) => Some(s@), None => None },
                    frequency: match frequency { Some(s) => Some(s@), None => None },
                    output_dir: output_dir@,
                },
            ),
            args.len() != 1,
        decreases args.len() - i,
    {
        let arg = &args[i];
        assert(a[i as int] == arg@);
        if *arg == help || *arg == h {
            return Ok(CliAction::ShowUsage { to_stderr: false });
        }
        let (name, inline) = split_name(arg);
        let flag = match flag_for(&name) {
            Some(f) => f,
            None => return Err(CliError::UnknownArgument(arg.clone())),
        };
        let value = match inline {
            Some(v) => v,
            None => {
                if i + 1 < args.len() {
                    i = i + 1;
                    assert(a[i as int] == args@[i as int]@);
                    args[i].clone()
                } else {
                    return Err(CliError::MissingValue(name));
                }
            },
        };
        match flag {
            Flag::Ifile => ifile = Some(value),
            Flag::Skd32m => skd32m = Some(value),
            Flag::Skd34m => skd34m = Some(value),
            Flag::Frequency => frequency = Some(value),
            Flag::OutputDir => output_dir = value,
        }
        i = i + 1;
    }
    let ifile = match ifile {
        Some(s) => s,
        None => return Err(CliError::MissingRequired(Flag::Ifile)),
    };
    let skd32m = match skd32m {
        Some(s) => s,
        None => return Err(CliError::MissingRequired(Flag::Skd32m)),
    };
    let skd34m = match skd34m {
        Some(s) => s,
        None => return Err(CliError::MissingRequired(Flag::Skd34m)),
    };
    let frequency = match frequency {
        Some(s) => s,
        None => return Err(CliError::MissingRequired(Flag::Frequency)),
    };
    Ok(CliAction::Run(Cli { ifile, skd32m, skd34m, frequency, output_dir }))
}

/// The usage text for the program named `program`.
pub open spec fn usage_text(program: Seq<char>) -> Seq<char> {
    "Usage: "@ + program + " --ifile DATA --skd32m SCHEDULE --skd34m SCHEDULE --frequency C|X|K [--output-dir DIR]\n\n\
     Match schedule timestamps and offsets to observation data, fit 1D and 2D Gaussian beams,\n         and estimate gain-source flux density from Perley & Butler 2017 calibrators.\n\
     print the comparison and save a text report and PNG plots.\n\
     Default output directory: ./five_point_result"@
}

/// The usage text for the program named `program`.
pub fn usage(program: &str) -> (u: String)
    ensures
        u@ == usage_text(program@),
{
    String::from_str("Usage: ").concat(program).concat(
        " --ifile DATA --skd32m SCHEDULE --skd34m SCHEDULE --frequency C|X|K [--output-dir DIR]\n\n\
     Match schedule timestamps and offsets to observation data, fit 1D and 2D Gaussian beams,\n         and estimate gain-source flux density from Perley & Butler 2017 calibrators.\n\
     print the comparison and save a text report and PNG plots.\n\
     Default output directory: ./five_point_result",
    )
}

/// How an option is written on the command line.
pub open spec fn flag_name(f: Flag) -> Seq<char> {
    match f {
        Flag::Ifile => "--ifile"@,
        Flag::Skd32m => "--skd32m"@,
        Flag::Skd34m => "--skd34m"@,
        Flag::Frequency => "--frequency"@,
        Flag::OutputDir => "--output-dir"@,
    }
}

/// The text that reports an argument error of the program named `program`.
pub open spec fn cli_message(e: CliFault, program: Seq<char>) -> Seq<char> {
    match e {
        CliFault::MissingValue(n) => "missing value for "@ + n,
        CliFault::UnknownArgument(a) => "unknown argument: "@ + a + "\n\n"@ + usage_text(program),
        CliFault::MissingRequired(f) => flag_name(f) + " is required"@,
    }
}

impl CliError {
    /// The text that reports this error; an unknown argument is followed by the usage.
    pub fn message(&self, program: &str) -> (m: String)
        ensures
            m@ == cli_message(self@, program@),
    {
        match self {
            CliError::MissingValue(n) => String::from_str("missing value for ").concat(n.as_str()),
            CliError::UnknownArgument(a) => {
                let u = usage(program);
                String::from_str("unknown argument: ").concat(a.as_str()).concat("\n\n").concat(
                    u.as_str(),
                )
            },
            CliError::MissingRequired(f) => {
                let name = match f {
                    Flag::Ifile => "--ifile",
                    Flag::Skd32m => "--skd32m",
                    Flag::Skd34m => "--skd34m",
                    Flag::Frequency => "--frequency",
                    Flag::OutputDir => "--output-dir",
                };
                String::from_str(name).concat(" is required")
            },
        }
    }
}

/// Whether a frequency label is empty once surrounding whitespace is removed.
pub fn frequency_is_blank(frequency: &str) -> (r: bool)
    ensures
        r == (crate::text::trim(frequency@).len() == 0),
{
    let v = chars_of(frequency);
    let (a, b) = crate::text::trim_span(&v, 0, v.len());
    assert(v@.subrange(0, v@.len() as int) =~= v@);
    a == b
}

/// Reading from position `i` depends only on the arguments from `i` on.
proof fn lemma_cli_from_suffix(a: Seq<Seq<char>>, i: int, b: Seq<Seq<char>>, j: int, st: CliState)
    requires
        0 <= i <= a.len(),
        0 <= j <= b.len(),
        a.skip(i) == b.skip(j),
    ensures
        cli_from(a, i, st) == cli_from(b, j, st),
    decreases a.len() - i,
{
    assert(a.len() - i == b.len() - j) by {
        assert(a.skip(i).len() == b.skip(j).len());
    }
    if i < a.len() {
        assert(a[i] == a.skip(i)[0]);
        assert(b[j] == b.skip(j)[0]);
        if i + 1 < a.len() {
            assert(a[i + 1] == a.skip(i)[1]);
            assert(b[j + 1] == b.skip(j)[1]);
        }
        assert(a.skip(i + 1) =~= a.skip(i).skip(1));
        assert(b.skip(j + 1) =~= b.skip(j).skip(1));
        if i + 1 < a.len() {
            assert(a.skip(i + 2) =~= a.skip(i).skip(2));
            assert(b.skip(j + 2) =~= b.skip(j).skip(2));
        }
        let arg = a[i];
        let (name, inline) = name_and_inline(arg);
        if arg == "--help"@ || arg == "-h"@ {
        } else {
            match flag_of(name) {
                None => {},
                Some(flag) => match inline {
                    Some(v) => lemma_cli_from_suffix(a, i + 1, b, j + 1, set_flag(st, flag, v)),
                    None => if i + 1 < a.len() {
                        lemma_cli_from_suffix(a, i + 2, b, j + 2, set_flag(st, flag, a[i + 1]));
                    },
                },
            }
        }
    }
}

/// The option names hold no `=`.
proof fn lemma_flag_names(n: Seq<char>)
    requires
        flag_of(n) is Some,
    ensures
        !crate::text::has_char(n, '='),
        n != "--help"@,
        n != "-h"@,
        starts_with(n, "--"@),
{
    reveal_strlit("--ifile");
    reveal_strlit("--skd32m");
    reveal_strlit("--skd34m");
    reveal_strlit("--frequency");
    reveal_strlit("--output-dir");
    reveal_strlit("--help");
    reveal_strlit("-h");
    reveal_strlit("--");
    assert(n.len() >= 3);
    if crate::text::has_char(n, '=') {
        let k = choose|k: int| 0 <= k < n.len() && n[k] == '=';
        assert(n[k] != '=');
    }
    assert(n.subrange(0, 2) =~= "--"@);
}

/// Giving an option's value inline (`--name=value`) is the same as giving it as the
/// next argument (`--name value`).
pub proof fn lemma_inline_value(a: Seq<Seq<char>>, i: int, n: Seq<char>, v: Seq<char>, st: CliState)
    requires
        1 <= i < a.len(),
        a[i] == n + seq!['='] + v,
        flag_of(n) is Some,
    ensures
        cli_from(a, i, st) == cli_from(a.take(i) + seq![n, v] + a.skip(i + 1), i, st),
{
    let b = a.take(i) + seq![n, v] + a.skip(i + 1);
    let arg = a[i];
    lemma_flag_names(n);
    let flag = flag_of(n)->Some_0;
    // the inline form splits at the first '=', right after the name
    assert(arg[n.len() as int] == '=');
    assert forall|j: int| 0 <= j < n.len() implies arg[j] != '=' by {
        assert(arg[j] == n[j]);
        if n[j] == '=' {
            assert(crate::text::has_char(n, '='));
        }
    }
    crate::text::lemma_first_index(arg, '=', n.len() as int);
    assert(arg.take(n.len() as int) =~= n);
    assert(arg.skip(n.len() as int + 1) =~= v);
    assert(name_and_inline(arg) == (n, Some(v)));
    reveal_strlit("--help");
    reveal_strlit("-h");
    assert(arg != "--help"@) by {
        if arg == "--help"@ {
            assert(arg[n.len() as int] != '=');
        }
    }
    assert(arg != "-h"@) by {
        if arg == "-h"@ {
            assert(arg[n.len() as int] != '=');
        }
    }
    // the separate form reads the name, then the value
    assert(b[i] == n);
    assert(b[i + 1] == v);
    assert(crate::text::first_index(n, '=') is None) by {
        reveal(crate::text::first_index);
    }
    assert(name_and_inline(n) == (n, None::<Seq<char>>));
    assert(a.skip(i + 1) =~= b.skip(i + 2));
    lemma_cli_from_suffix(a, i + 1, b, i + 2, set_flag(st, flag, v));
}

} // verus!
