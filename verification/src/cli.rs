//! The command line.

use crate::convert::{ConvertOptions, OutputLayout, TimestampMode};
use crate::decode::string_texts;
use crate::export::OutputFormat;
use crate::text::{is_text, to_chars};
use vstd::prelude::*;

verus! {

/// What the command line asks for.
#[derive(Debug, PartialEq, Eq)]
pub enum Command {
    /// Show how the program is used.
    Help,
    /// Convert a log.
    Convert { blf: String, dbc: String, out: String, format: OutputFormat },
}

/// What is wrong with a command line.
#[derive(Debug, PartialEq, Eq)]
pub enum CliError {
    /// There is no such format; or none is named.
    UnknownFormat(Option<String>),
    UnknownArgument(String),
    MissingBlf,
    MissingDbc,
    MissingOut,
}

/// The mathematical content of a [`Command`].
pub enum CommandModel {
    Help,
    Convert { blf: Seq<char>, dbc: Seq<char>, out: Seq<char>, format: OutputFormat },
}

/// The mathematical content of a [`CliError`].
pub enum CliErrorModel {
    UnknownFormat(Option<Seq<char>>),
    UnknownArgument(Seq<char>),
    MissingBlf,
    MissingDbc,
    MissingOut,
}

impl View for Command {
    type V = CommandModel;

    open spec fn view(&self) -> CommandModel {
        match self {
            Command::Help => CommandModel::Help,
            Command::Convert { blf, dbc, out, format } => CommandModel::Convert {
                blf: blf@,
                dbc: dbc@,
                out: out@,
                format: *format,
            },
        }
    }
}

impl View for CliError {
    type V = CliErrorModel;

    open spec fn view(&self) -> CliErrorModel {
        match self {
            CliError::UnknownFormat(name) => CliErrorModel::UnknownFormat(
                match name {
                    Some(text) => Some(text@),
                    None => None,
                },
            ),
            CliError::UnknownArgument(arg) => CliErrorModel::UnknownArgument(arg@),
            CliError::MissingBlf => CliErrorModel::MissingBlf,
            CliError::MissingDbc => CliErrorModel::MissingDbc,
            CliError::MissingOut => CliErrorModel::MissingOut,
        }
    }
}

/// What has been asked for so far.
pub struct Wishes {
    pub blf: Option<Seq<char>>,
    pub dbc: Option<Seq<char>>,
    pub out: Option<Seq<char>>,
    pub format: OutputFormat,
}

/// The argument at a position, if there is one.
pub open spec fn argument(args: Seq<Seq<char>>, i: int) -> Option<Seq<char>> {
    if i < args.len() {
        Some(args[i])
    } else {
        None
    }
}

/// The position behind an option and its value.
pub open spec fn behind_value(args: Seq<Seq<char>>, i: int) -> int {
    if i + 2 <= args.len() {
        i + 2
    } else {
        args.len() as int
    }
}

/// The format of the given name.
pub open spec fn format_named(name: Option<Seq<char>>) -> Option<OutputFormat> {
    if name == Some("csv"@) {
        Some(OutputFormat::Csv)
    } else if name == Some("parquet"@) {
        Some(OutputFormat::Parquet)
    } else {
        None
    }
}

/// The command that the wishes make.
pub open spec fn fulfilled(w: Wishes) -> Result<CommandModel, CliErrorModel> {
    match (w.blf, w.dbc, w.out) {
        (None, _, _) => Err(CliErrorModel::MissingBlf),
        (Some(_), None, _) => Err(CliErrorModel::MissingDbc),
        (Some(_), Some(_), None) => Err(CliErrorModel::MissingOut),
        (Some(blf), Some(dbc), Some(out)) => Ok(
            CommandModel::Convert { blf, dbc, out, format: w.format },
        ),
    }
}

/// What the arguments from position `i` on ask for, on top of the wishes so
/// far. An option is followed by its value, and the last of several counts.
pub open spec fn command(args: Seq<Seq<char>>, i: int, w: Wishes) -> Result<
    CommandModel,
    CliErrorModel,
>
    decreases args.len() - i,
{
    if i >= args.len() {
        fulfilled(w)
    } else {
        let arg = args[i];
        let value = argument(args, i + 1);
        if arg == "--blf"@ || arg == "-b"@ {
            command(args, behind_value(args, i), Wishes { blf: value, ..w })
        } else if arg == "--dbc"@ || arg == "-d"@ {
            command(args, behind_value(args, i), Wishes { dbc: value, ..w })
        } else if arg == "--out"@ || arg == "-o"@ {
            command(args, behind_value(args, i), Wishes { out: value, ..w })
        } else if arg == "--format"@ || arg == "-f"@ {
            match format_named(value) {
                Some(format) => command(args, behind_value(args, i), Wishes { format, ..w }),
                None => Err(CliErrorModel::UnknownFormat(value)),
            }
        } else if arg == "--help"@ || arg == "-h"@ {
            Ok(CommandModel::Help)
        } else {
            Err(CliErrorModel::UnknownArgument(arg))
        }
    }
}

/// No wishes: CSV, and no files.
pub open spec fn no_wishes() -> Wishes {
    Wishes { blf: None, dbc: None, out: None, format: OutputFormat::Csv }
}

/// A command or an error, by its content.
pub open spec fn command_view(r: Result<Command, CliError>) -> Result<CommandModel, CliErrorModel> {
    match r {
        Ok(c) => Ok(c@),
        Err(e) => Err(e@),
    }
}

/// The text of an optional string.
spec fn text_of(s: Option<String>) -> Option<Seq<char>> {
    match s {
        Some(text) => Some(text@),
        None => None,
    }
}

/// A copy of the argument at a position, if there is one.
fn copy_argument(args: &[String], i: usize) -> (r: Option<String>)
    ensures
        text_of(r) == argument(string_texts(args@), i as int),
{
    if i < args.len() {
        Some(args[i].clone())
    } else {
        None
    }
}

fn is_one_of(arg: &String, long: &str, short: &str) -> (r: bool)
    ensures
        r == (arg@ == long@ || arg@ == short@),
{
    let chars: Vec<char> = to_chars(arg.as_str());
    is_text(chars.as_slice(), long) || is_text(chars.as_slice(), short)
}

/// The format of the given name.
fn find_format(name: &Option<String>) -> (r: Option<OutputFormat>)
    ensures
        r == format_named(text_of(*name)),
{
    match name {
        None => None,
        Some(text) => {
            let chars: Vec<char> = to_chars(text.as_str());
            if is_text(chars.as_slice(), "csv") {
                Some(OutputFormat::Csv)
            } else if is_text(chars.as_slice(), "parquet") {
                Some(OutputFormat::Parquet)
            } else {
                None
            }
        },
    }
}

/// The text that explains the command line.
pub fn usage() -> (r: &'static str)
    ensures
        r@ == "Usage: blf_decoder --blf <file.blf> --dbc <file.dbc> --out <dir> [--format csv|parquet]\nRun without arguments to start the GUI."@,
{
    "Usage: blf_decoder --blf <file.blf> --dbc <file.dbc> --out <dir> [--format csv|parquet]\nRun without arguments to start the GUI."
}

/// Read the command line.
pub fn parse_args(args: &[String]) -> (r: Result<Command, CliError>)
    ensures
        command_view(r) == command(string_texts(args@), 0, no_wishes()),
{
    let ghost all = string_texts(args@);
    let ghost goal = command(all, 0, no_wishes());
    let mut blf: Option<String> = None;
    let mut dbc: Option<String> = None;
    let mut out: Option<String> = None;
    let mut format = OutputFormat::Csv;
    let mut i: usize = 0;
    while i < args.len()
        invariant
            all == string_texts(args@),
            goal == command(
                all,
                i as int,
                Wishes { blf: text_of(blf), dbc: text_of(dbc), out: text_of(out), format },
            ),
            goal == command(string_texts(args@), 0, no_wishes()),
        decreases args@.len() - i,
    {
        let len: usize = args.len();
        let arg: &String = &args[i];
        assert(all[i as int] == arg@);
        let value: Option<String> = if i + 1 < len {
            copy_argument(args, i + 1)
        } else {
            None
        };
        assert(text_of(value) == argument(all, i + 1));
        if is_one_of(arg, "--blf", "-b") {
            blf = value;
        } else if is_one_of(arg, "--dbc", "-d") {
            dbc = value;
        } else if is_one_of(arg, "--out", "-o") {
            out = value;
        } else if is_one_of(arg, "--format", "-f") {
            match find_format(&value) {
                Some(f) => {
                    format = f;
                },
                None => {
                    return Err(CliError::UnknownFormat(value));
                },
            }
        } else if is_one_of(arg, "--help", "-h") {
            return Ok(Command::Help);
        } else {
            return Err(CliError::UnknownArgument(arg.clone()));
        }
        if len - i <= 2 {
            i = len;
        } else {
            i = i + 2;
        }
    }
    match blf {
        None => Err(CliError::MissingBlf),
        Some(blf) => match dbc {
            None => Err(CliError::MissingDbc),
            Some(dbc) => match out {
                None => Err(CliError::MissingOut),
                Some(out) => Ok(Command::Convert { blf, dbc, out, format }),
            },
        },
    }
}

/// How the command line converts a log: a row for each frame, with its time in
/// seconds since the Unix epoch.
pub fn cli_options(format: OutputFormat) -> (r: ConvertOptions)
    ensures
        r == (ConvertOptions {
            format,
            layout: OutputLayout::PerFrame,
            resample_ns: 100_000_000,
            timestamp: TimestampMode::EpochSeconds,
            keep_can_id: false,
            skip_unknown_ids: true,
            overwrite: true,
            signal_filter: None,
        }),
{
    let mut options = ConvertOptions::default();
    options.format = format;
    options.layout = OutputLayout::PerFrame;
    options.timestamp = TimestampMode::EpochSeconds;
    options
}

/// The names of the options, each with its short form.
pub open spec fn names_blf(arg: Seq<char>) -> bool {
    arg == seq!['-', '-', 'b', 'l', 'f'] || arg == seq!['-', 'b']
}

/// Whether an argument names the database.
pub open spec fn names_dbc(arg: Seq<char>) -> bool {
    arg == seq!['-', '-', 'd', 'b', 'c'] || arg == seq!['-', 'd']
}

/// Whether an argument names the output directory.
pub open spec fn names_out(arg: Seq<char>) -> bool {
    arg == seq!['-', '-', 'o', 'u', 't'] || arg == seq!['-', 'o']
}

/// Whether an argument names the format.
pub open spec fn names_format(arg: Seq<char>) -> bool {
    arg == seq!['-', '-', 'f', 'o', 'r', 'm', 'a', 't'] || arg == seq!['-', 'f']
}

/// Whether an argument asks for help.
pub open spec fn asks_for_help(arg: Seq<char>) -> bool {
    arg == seq!['-', '-', 'h', 'e', 'l', 'p'] || arg == seq!['-', 'h']
}

proof fn lemma_option_names()
    ensures
        "--blf"@ == seq!['-', '-', 'b', 'l', 'f'],
        "-b"@ == seq!['-', 'b'],
        "--dbc"@ == seq!['-', '-', 'd', 'b', 'c'],
        "-d"@ == seq!['-', 'd'],
        "--out"@ == seq!['-', '-', 'o', 'u', 't'],
        "-o"@ == seq!['-', 'o'],
        "--format"@ == seq!['-', '-', 'f', 'o', 'r', 'm', 'a', 't'],
        "-f"@ == seq!['-', 'f'],
        "--help"@ == seq!['-', '-', 'h', 'e', 'l', 'p'],
        "-h"@ == seq!['-', 'h'],
        "csv"@ == seq!['c', 's', 'v'],
        "parquet"@ == seq!['p', 'a', 'r', 'q', 'u', 'e', 't'],
{
    reveal_strlit("--blf");
    reveal_strlit("-b");
    reveal_strlit("--dbc");
    reveal_strlit("-d");
    reveal_strlit("--out");
    reveal_strlit("-o");
    reveal_strlit("--format");
    reveal_strlit("-f");
    reveal_strlit("--help");
    reveal_strlit("-h");
    reveal_strlit("csv");
    reveal_strlit("parquet");
    assert("--blf"@ =~= seq!['-', '-', 'b', 'l', 'f']);
    assert("-b"@ =~= seq!['-', 'b']);
    assert("--dbc"@ =~= seq!['-', '-', 'd', 'b', 'c']);
    assert("-d"@ =~= seq!['-', 'd']);
    assert("--out"@ =~= seq!['-', '-', 'o', 'u', 't']);
    assert("-o"@ =~= seq!['-', 'o']);
    assert("--format"@ =~= seq!['-', '-', 'f', 'o', 'r', 'm', 'a', 't']);
    assert("-f"@ =~= seq!['-', 'f']);
    assert("--help"@ =~= seq!['-', '-', 'h', 'e', 'l', 'p']);
    assert("-h"@ =~= seq!['-', 'h']);
    assert("csv"@ =~= seq!['c', 's', 'v']);
    assert("parquet"@ =~= seq!['p', 'a', 'r', 'q', 'u', 'e', 't']);
}

proof fn lemma_names_differ(arg: Seq<char>)
    ensures
        names_dbc(arg) ==> !names_blf(arg),
        names_out(arg) ==> !names_blf(arg) && !names_dbc(arg),
        names_format(arg) ==> !names_blf(arg) && !names_dbc(arg) && !names_out(arg),
        asks_for_help(arg) ==> !names_blf(arg) && !names_dbc(arg) && !names_out(arg)
            && !names_format(arg),
{
    let a = seq!['-', '-', 'b', 'l', 'f'];
    let b = seq!['-', 'b'];
    let c = seq!['-', '-', 'd', 'b', 'c'];
    let d = seq!['-', 'd'];
    let e = seq!['-', '-', 'o', 'u', 't'];
    let f = seq!['-', 'o'];
    let g = seq!['-', '-', 'f', 'o', 'r', 'm', 'a', 't'];
    let h = seq!['-', 'f'];
    let i = seq!['-', '-', 'h', 'e', 'l', 'p'];
    let j = seq!['-', 'h'];
    assert(a[2] == 'b' && c[2] == 'd' && e[2] == 'o' && g[2] == 'f' && i[2] == 'h');
    assert(b[1] == 'b' && d[1] == 'd' && f[1] == 'o' && h[1] == 'f' && j[1] == 'h');
    assert(a[1] == '-' && c[1] == '-' && e[1] == '-' && g[1] == '-' && i[1] == '-');
}

/// An option takes the argument behind it as its value, in place of an earlier
/// one, and the reading goes on behind that; the other wishes stay. A format
/// other than `csv` and `parquet` is refused.
pub proof fn law_option_takes_its_value(args: Seq<Seq<char>>, i: int, w: Wishes)
    requires
        0 <= i,
        i + 1 < args.len(),
    ensures
        names_blf(args[i]) ==> command(args, i, w) == command(
            args,
            i + 2,
            (Wishes { blf: Some(args[i + 1]), ..w }),
        ),
        names_dbc(args[i]) ==> command(args, i, w) == command(
            args,
            i + 2,
            (Wishes { dbc: Some(args[i + 1]), ..w }),
        ),
        names_out(args[i]) ==> command(args, i, w) == command(
            args,
            i + 2,
            (Wishes { out: Some(args[i + 1]), ..w }),
        ),
        names_format(args[i]) && args[i + 1] == seq!['c', 's', 'v'] ==> command(args, i, w)
            == command(args, i + 2, (Wishes { format: OutputFormat::Csv, ..w })),
        names_format(args[i]) && args[i + 1] == seq!['p', 'a', 'r', 'q', 'u', 'e', 't'] ==> command(
            args,
            i,
            w,
        ) == command(args, i + 2, (Wishes { format: OutputFormat::Parquet, ..w })),
        names_format(args[i]) && args[i + 1] != seq!['c', 's', 'v'] && args[i + 1]
            != seq!['p', 'a', 'r', 'q', 'u', 'e', 't'] ==> command(args, i, w) == Err::<
            CommandModel,
            CliErrorModel,
        >(CliErrorModel::UnknownFormat(Some(args[i + 1]))),
{
    lemma_option_names();
    lemma_names_differ(args[i]);
    assert(seq!['c', 's', 'v'][0] == 'c');
    assert(seq!['p', 'a', 'r', 'q', 'u', 'e', 't'][0] == 'p');
}

/// Help ends the reading. An argument that is no option is refused. An option
/// without a value stands for none.
pub proof fn law_other_arguments(args: Seq<Seq<char>>, i: int, w: Wishes)
    requires
        0 <= i < args.len(),
    ensures
        asks_for_help(args[i]) ==> command(args, i, w) == Ok::<CommandModel, CliErrorModel>(
            CommandModel::Help,
        ),
        !names_blf(args[i]) && !names_dbc(args[i]) && !names_out(args[i]) && !names_format(args[i])
            && !asks_for_help(args[i]) ==> command(args, i, w) == Err::<
            CommandModel,
            CliErrorModel,
        >(CliErrorModel::UnknownArgument(args[i])),
        i + 1 == args.len() && names_blf(args[i]) ==> command(args, i, w) is Err,
        i + 1 == args.len() && names_dbc(args[i]) ==> command(args, i, w) is Err,
        i + 1 == args.len() && names_out(args[i]) ==> command(args, i, w) is Err,
        i + 1 == args.len() && names_format(args[i]) ==> command(args, i, w) == Err::<
            CommandModel,
            CliErrorModel,
        >(CliErrorModel::UnknownFormat(None)),
{
    lemma_option_names();
    lemma_names_differ(args[i]);
    reveal_with_fuel(command, 2);
}

/// Behind the last argument the log, the database and the output directory
/// must be known; what is missing is named, in this order.
pub proof fn law_what_must_be_given(args: Seq<Seq<char>>, w: Wishes)
    ensures
        match command(args, args.len() as int, w) {
            Ok(CommandModel::Convert { blf, dbc, out, format }) => w.blf == Some(blf) && w.dbc
                == Some(dbc) && w.out == Some(out) && w.format == format,
            Ok(CommandModel::Help) => false,
            Err(CliErrorModel::MissingBlf) => w.blf is None,
            Err(CliErrorModel::MissingDbc) => w.blf is Some && w.dbc is None,
            Err(CliErrorModel::MissingOut) => w.blf is Some && w.dbc is Some && w.out is None,
            Err(_) => false,
        },
        no_wishes().blf is None && no_wishes().dbc is None && no_wishes().out is None,
        no_wishes().format == OutputFormat::Csv,
{
}

} // verus!
