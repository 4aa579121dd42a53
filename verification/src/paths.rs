//! File names. How a path is taken apart is the platform's business; what is
//! made of the parts is stated here.

use crate::export::OutputFormat;
use crate::lexer::{ascii_lower, to_lower};
use crate::text::{push_text, same_chars, to_chars};
use std::path::PathBuf;
use vstd::prelude::*;

verus! {

/// `std::path::PathBuf`, a path of the platform.
#[verifier::external_type_specification]
#[verifier::external_body]
pub struct ExPathBuf(std::path::PathBuf);

/// Calls `Path::file_stem`: the file name without its extension, if there is
/// a file name, as text (`OsStr::to_string_lossy`). Nothing is claimed of the
/// result, which depends on the platform's rules for paths.
#[verifier::external_body]
fn file_stem(path: &PathBuf) -> (r: Option<String>) {
    path.file_stem().map(|s| s.to_string_lossy().into_owned())
}

/// Calls `Path::extension`: the extension of the file name, if there is one
/// and it is text (`OsStr::to_str`). Nothing is claimed of the result, which
/// depends on the platform's rules for paths.
#[verifier::external_body]
fn extension(path: &PathBuf) -> (r: Option<String>) {
    path.extension().and_then(|e| e.to_str()).map(|e| e.to_owned())
}

/// Calls `Path::join`: the path with a file name behind it. Nothing is claimed
/// of the result, which depends on the platform's rules for paths.
#[verifier::external_body]
fn join(dir: &PathBuf, name: &str) -> (r: PathBuf) {
    dir.join(name)
}

/// The text of an optional string.
pub open spec fn optional_text(text: Option<String>) -> Option<Seq<char>> {
    match text {
        Some(t) => Some(t@),
        None => None,
    }
}

/// Whether `stem` is what the platform gives as the stem of the file that
/// `path` names: what a call of [`file_stem`] returns.
pub closed spec fn is_file_stem(path: PathBuf, stem: Option<Seq<char>>) -> bool {
    exists|answer: Option<String>|
        #![trigger optional_text(answer)]
        optional_text(answer) == stem && call_ensures(file_stem, (&path,), answer)
}

/// Whether `ext` is what the platform gives as the extension of the file that
/// `path` names: what a call of [`extension`] returns.
pub closed spec fn is_extension(path: PathBuf, ext: Option<Seq<char>>) -> bool {
    exists|answer: Option<String>|
        #![trigger optional_text(answer)]
        optional_text(answer) == ext && call_ensures(extension, (&path,), answer)
}

/// Whether `whole` is what the platform makes of the directory `dir` and the
/// file name `name`: what a call of [`join`] returns.
pub closed spec fn is_joined(dir: PathBuf, name: Seq<char>, whole: PathBuf) -> bool {
    exists|text: &str| #![trigger text@] text@ == name && call_ensures(join, (&dir, text), whole)
}

/// The name of the output file: the stem of the input file's name, or
/// `output` where it has none, and the extension of the format.
pub open spec fn output_name(stem: Option<Seq<char>>, format: OutputFormat) -> Seq<char> {
    (match stem {
        Some(text) => text,
        None => "output"@,
    }) + seq!['.'] + format.extension_text()
}

/// The name of the output file for an input file with the given stem.
pub fn output_file_name(stem: Option<String>, format: OutputFormat) -> (r: String)
    ensures
        r@ == output_name(
            match stem {
                Some(text) => Some(text@),
                None => None,
            },
            format,
        ),
{
    let mut name: String = match stem {
        Some(text) => text,
        None => "output".to_owned(),
    };
    name.push('.');
    push_text(&mut name, format.extension());
    name
}

/// Derive the output file path: `<out_dir>/<blf stem>.<ext>`. It is what the
/// platform makes of `out_dir` and the name of [`output_name`] for the stem
/// that it gives for `blf_path`. Which stem that is, and how directory and name
/// are joined, is left to the platform.
pub fn output_path(blf_path: &PathBuf, out_dir: &PathBuf, format: OutputFormat) -> (r: PathBuf)
    ensures
        exists|stem: Option<Seq<char>>| #[trigger]
            is_file_stem(*blf_path, stem) && is_joined(*out_dir, output_name(stem, format), r),
{
    let stem = file_stem(blf_path);
    let ghost own = optional_text(stem);
    assert(is_file_stem(*blf_path, own));
    let name = output_file_name(stem, format);
    let r = join(out_dir, name.as_str());
    assert(is_joined(*out_dir, output_name(own, format), r));
    r
}

/// Whether an extension is the wanted one, upper and lower case ASCII letters
/// being the same.
pub open spec fn same_extension(extension: Option<Seq<char>>, wanted: Seq<char>) -> bool {
    match extension {
        Some(e) => ascii_lower(e) == ascii_lower(wanted),
        None => false,
    }
}

/// Whether an extension is the wanted one.
pub fn extension_matches(extension: Option<&str>, wanted: &str) -> (r: bool)
    ensures
        r == same_extension(
            match extension {
                Some(e) => Some(e@),
                None => None,
            },
            wanted@,
        ),
{
    match extension {
        None => false,
        Some(e) => {
            let a: Vec<char> = to_lower(to_chars(e).as_slice());
            let b: Vec<char> = to_lower(to_chars(wanted).as_slice());
            same_chars(a.as_slice(), b.as_slice())
        },
    }
}

/// Whether the extension that the platform gives for `path` is the wanted one,
/// in the sense of [`same_extension`]. Which part of a path is its extension is
/// left to the platform.
pub fn has_extension(path: &PathBuf, ext: &str) -> (r: bool)
    ensures
        exists|own: Option<Seq<char>>| #[trigger]
            is_extension(*path, own) && r == same_extension(own, ext@),
{
    let answer = extension(path);
    let ghost own = optional_text(answer);
    assert(is_extension(*path, own));
    match answer {
        None => false,
        Some(e) => extension_matches(Some(e.as_str()), ext),
    }
}

/// What is done with a dropped file.
#[derive(Debug, Clone, Copy, PartialEq, Eq, Structural)]
pub enum Dropped {
    /// A folder, to be searched for BLF files.
    Folder,
    /// A BLF file, to be added to the queue.
    Blf,
    /// A DBC file, to be given to jobs.
    Dbc,
    /// Anything else.
    Other,
}

/// What is done with a dropped file, given whether it is a folder and what
/// its extension is.
pub open spec fn dropped_as(is_dir: bool, extension: Option<Seq<char>>) -> Dropped {
    if is_dir {
        Dropped::Folder
    } else if same_extension(extension, "blf"@) {
        Dropped::Blf
    } else if same_extension(extension, "dbc"@) {
        Dropped::Dbc
    } else {
        Dropped::Other
    }
}

/// What is done with a dropped file, given whether it is a folder and what
/// its extension is.
pub fn classify_extension(is_dir: bool, extension: Option<&str>) -> (r: Dropped)
    ensures
        r == dropped_as(
            is_dir,
            match extension {
                Some(e) => Some(e@),
                None => None,
            },
        ),
{
    if is_dir {
        Dropped::Folder
    } else if extension_matches(extension, "blf") {
        Dropped::Blf
    } else if extension_matches(extension, "dbc") {
        Dropped::Dbc
    } else {
        Dropped::Other
    }
}

/// What is done with a dropped file, given whether it is a folder. A folder
/// is searched whatever its name; of other files the extension that the
/// platform gives decides, in the sense of [`dropped_as`]. Which part of a path
/// is its extension is left to the platform.
pub fn classify_drop(path: &PathBuf, is_dir: bool) -> (r: Dropped)
    ensures
        exists|own: Option<Seq<char>>| #[trigger]
            is_extension(*path, own) && r == dropped_as(is_dir, own),
{
    let answer = extension(path);
    let ghost own = optional_text(answer);
    assert(is_extension(*path, own));
    match answer {
        Some(e) => classify_extension(is_dir, Some(e.as_str())),
        None => classify_extension(is_dir, None),
    }
}

/// The output file has the name of the input file, up to its extension, or the
/// name `output`; behind it a dot and `csv` or `parquet`.
pub proof fn law_output_names(stem: Seq<char>)
    ensures
        output_name(Some(stem), OutputFormat::Csv) == stem + seq!['.', 'c', 's', 'v'],
        output_name(Some(stem), OutputFormat::Parquet) == stem
            + seq!['.', 'p', 'a', 'r', 'q', 'u', 'e', 't'],
        output_name(None, OutputFormat::Csv)
            == seq!['o', 'u', 't', 'p', 'u', 't', '.', 'c', 's', 'v'],
        output_name(None, OutputFormat::Parquet)
            == seq!['o', 'u', 't', 'p', 'u', 't', '.', 'p', 'a', 'r', 'q', 'u', 'e', 't'],
{
    reveal_strlit("csv");
    reveal_strlit("parquet");
    reveal_strlit("output");
    assert(output_name(Some(stem), OutputFormat::Csv) =~= stem + seq!['.', 'c', 's', 'v']);
    assert(output_name(Some(stem), OutputFormat::Parquet) =~= stem
        + seq!['.', 'p', 'a', 'r', 'q', 'u', 'e', 't']);
    assert(output_name(None, OutputFormat::Csv)
        =~= seq!['o', 'u', 't', 'p', 'u', 't', '.', 'c', 's', 'v']);
    assert(output_name(None, OutputFormat::Parquet)
        =~= seq!['o', 'u', 't', 'p', 'u', 't', '.', 'p', 'a', 'r', 'q', 'u', 'e', 't']);
}

/// Whether two characters are the same but for the case of an ASCII letter.
pub open spec fn same_letter(a: char, b: char) -> bool {
    ||| a == b
    ||| 'A' <= a <= 'Z' && b as int == a as int + 32
    ||| 'A' <= b <= 'Z' && a as int == b as int + 32
}

/// Two extensions are the same exactly if they have as many characters, and
/// these are the same one by one, but for the case of ASCII letters. A file
/// without an extension has none that is the same.
pub proof fn law_same_extensions(a: Seq<char>, b: Seq<char>)
    ensures
        same_extension(Some(a), b) <==> a.len() == b.len() && forall|i: int|
            0 <= i < a.len() ==> same_letter(#[trigger] a[i], b[i]),
        !same_extension(None, b),
{
    let la = ascii_lower(a);
    let lb = ascii_lower(b);
    if la == lb {
        assert(la.len() == a.len() && lb.len() == b.len());
        assert forall|i: int| 0 <= i < a.len() implies same_letter(#[trigger] a[i], b[i]) by {
            assert(la[i] == lb[i]);
        }
    }
    if a.len() == b.len() && forall|i: int|
        0 <= i < a.len() ==> same_letter(#[trigger] a[i], b[i]) {
        assert forall|i: int| 0 <= i < la.len() implies la[i] == lb[i] by {
            assert(same_letter(a[i], b[i]));
        }
        assert(la =~= lb);
    }
}

/// A folder is searched; of the other things that are dropped, those with the
/// extension `blf` are logs, those with the extension `dbc` are databases, and
/// the rest is left alone.
pub proof fn law_dropped_things(extension: Option<Seq<char>>)
    ensures
        dropped_as(true, extension) == Dropped::Folder,
        dropped_as(false, extension) == Dropped::Blf <==> same_extension(
            extension,
            seq!['b', 'l', 'f'],
        ),
        dropped_as(false, extension) == Dropped::Dbc <==> same_extension(
            extension,
            seq!['d', 'b', 'c'],
        ),
        dropped_as(false, extension) != Dropped::Folder,
{
    reveal_strlit("blf");
    reveal_strlit("dbc");
    assert("blf"@ =~= seq!['b', 'l', 'f']);
    assert("dbc"@ =~= seq!['d', 'b', 'c']);
    if let Some(e) = extension {
        law_same_extensions(e, seq!['b', 'l', 'f']);
        law_same_extensions(e, seq!['d', 'b', 'c']);
        if same_extension(extension, seq!['b', 'l', 'f']) && same_extension(
            extension,
            seq!['d', 'b', 'c'],
        ) {
            assert(same_letter(e[0], seq!['b', 'l', 'f'][0]));
            assert(same_letter(e[0], seq!['d', 'b', 'c'][0]));
        }
    }
}

} // verus!
