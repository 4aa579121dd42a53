use blf_decoder::cli::{cli_options, parse_args, usage, CliError, Command};
use blf_decoder::clock::fmt_duration;
use blf_decoder::convert::{output_path, OutputLayout, TimestampMode};
use blf_decoder::export::OutputFormat;
use blf_decoder::paths::{
    classify_drop, classify_extension, extension_matches, has_extension, output_file_name, Dropped,
};
use std::path::PathBuf;

fn parse(args: &[&str]) -> Result<Command, CliError> {
    let args: Vec<String> = args.iter().map(|a| a.to_string()).collect();
    parse_args(&args)
}

fn convert(format: OutputFormat) -> Result<Command, CliError> {
    Ok(Command::Convert {
        blf: "in.blf".to_string(),
        dbc: "db.dbc".to_string(),
        out: "out".to_string(),
        format,
    })
}

#[test]
fn long_and_short_options() {
    assert_eq!(
        parse(&["--blf", "in.blf", "--dbc", "db.dbc", "--out", "out"]),
        convert(OutputFormat::Csv)
    );
    assert_eq!(
        parse(&["-f", "parquet", "-o", "out", "-d", "db.dbc", "-b", "in.blf"]),
        convert(OutputFormat::Parquet)
    );
    // The last of several counts.
    assert_eq!(
        parse(&[
            "-b", "x", "-b", "in.blf", "-d", "db.dbc", "-o", "out", "-f", "parquet", "--format",
            "csv"
        ]),
        convert(OutputFormat::Csv)
    );
}

#[test]
fn help_wins_over_what_follows() {
    assert_eq!(parse(&["--help", "nonsense"]), Ok(Command::Help));
    assert_eq!(parse(&["-b", "x", "-h"]), Ok(Command::Help));
    assert!(usage().starts_with("Usage: blf_decoder --blf <file.blf>"));
}

#[test]
fn command_line_errors() {
    assert_eq!(parse(&[]), Err(CliError::MissingBlf));
    assert_eq!(parse(&["-b", "x"]), Err(CliError::MissingDbc));
    assert_eq!(parse(&["-b", "x", "-d", "y"]), Err(CliError::MissingOut));
    // An option without its value.
    assert_eq!(parse(&["-d", "y", "-o", "z", "-b"]), Err(CliError::MissingBlf));
    assert_eq!(
        parse(&["--format", "xml"]),
        Err(CliError::UnknownFormat(Some("xml".to_string())))
    );
    assert_eq!(parse(&["-f"]), Err(CliError::UnknownFormat(None)));
    assert_eq!(
        parse(&["in.blf"]),
        Err(CliError::UnknownArgument("in.blf".to_string()))
    );
}

#[test]
fn durations() {
    assert_eq!(fmt_duration(0), "0:00");
    assert_eq!(fmt_duration(59), "0:59");
    assert_eq!(fmt_duration(61), "1:01");
    assert_eq!(fmt_duration(3599), "59:59");
    assert_eq!(fmt_duration(3600), "1:00:00");
    assert_eq!(fmt_duration(36_065), "10:01:05");
}

#[test]
fn output_names() {
    assert_eq!(
        output_file_name(Some("sample".to_string()), OutputFormat::Csv),
        "sample.csv"
    );
    assert_eq!(output_file_name(None, OutputFormat::Parquet), "output.parquet");
    assert_eq!(
        output_path(
            &PathBuf::from("logs/run.1.blf"),
            &PathBuf::from("out"),
            OutputFormat::Parquet
        ),
        PathBuf::from("out").join("run.1.parquet")
    );
    assert_eq!(
        output_path(&PathBuf::from(".."), &PathBuf::from("out"), OutputFormat::Csv),
        PathBuf::from("out").join("output.csv")
    );
}

#[test]
fn extensions_in_any_case() {
    assert!(extension_matches(Some("BLF"), "blf"));
    assert!(!extension_matches(Some("blf2"), "blf"));
    assert!(!extension_matches(None, "blf"));
    assert!(has_extension(&PathBuf::from("a/b.Dbc"), "dbc"));
    assert!(!has_extension(&PathBuf::from("a/dbc"), "dbc"));
}

#[test]
fn drops() {
    assert_eq!(classify_extension(true, Some("blf")), Dropped::Folder);
    assert_eq!(classify_extension(false, Some("Blf")), Dropped::Blf);
    assert_eq!(classify_extension(false, Some("dbc")), Dropped::Dbc);
    assert_eq!(classify_extension(false, None), Dropped::Other);
    assert_eq!(
        classify_drop(&PathBuf::from("x.dbc"), false),
        Dropped::Dbc
    );
    assert_eq!(classify_drop(&PathBuf::from("x.y.BLF"), false), Dropped::Blf);
    assert_eq!(classify_drop(&PathBuf::from("x.blf"), true), Dropped::Folder);
    assert_eq!(classify_drop(&PathBuf::from("x"), true), Dropped::Folder);
    assert_eq!(classify_drop(&PathBuf::from("x"), false), Dropped::Other);
}

#[test]
fn command_line_writes_a_row_per_frame() {
    let options = cli_options(OutputFormat::Parquet);
    assert_eq!(options.format, OutputFormat::Parquet);
    assert_eq!(options.layout, OutputLayout::PerFrame);
    assert_eq!(options.timestamp, TimestampMode::EpochSeconds);
    assert!(options.skip_unknown_ids && options.overwrite && !options.keep_can_id);
    assert!(options.signal_filter.is_none());
}
