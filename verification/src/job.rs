//! Conversion jobs: a BLF file with its settings and its state.

use crate::convert::{ConvertModel, ConvertOptions, OutputLayout, Summary, TimestampMode};
use crate::decode::{string_texts, ColumnSpec};
use crate::export::OutputFormat;
use crate::lexer::{contains, contains_text};
use crate::text::to_chars;
use vstd::prelude::*;

verus! {

/// The settings of a job.
#[derive(Debug)]
pub struct JobSettings {
    pub format_parquet: bool,
    pub layout_raw: bool,
    /// Grid spacing in nanoseconds.
    pub interval_ns: i64,
    pub relative_timestamp: bool,
    pub keep_can_id: bool,
    pub skip_unknown: bool,
    pub overwrite: bool,
    pub only_selected: bool,
    /// The chosen columns, each once.
    pub selected_signals: Vec<String>,
}

/// The mathematical content of [`JobSettings`].
pub struct SettingsModel {
    pub format_parquet: bool,
    pub layout_raw: bool,
    pub interval_ns: i64,
    pub relative_timestamp: bool,
    pub keep_can_id: bool,
    pub skip_unknown: bool,
    pub overwrite: bool,
    pub only_selected: bool,
    pub selected_signals: Seq<Seq<char>>,
}

impl SettingsModel {
    /// No signal is chosen twice.
    pub open spec fn wf(self) -> bool {
        self.selected_signals.no_duplicates()
    }
}

impl View for JobSettings {
    type V = SettingsModel;

    open spec fn view(&self) -> SettingsModel {
        SettingsModel {
            format_parquet: self.format_parquet,
            layout_raw: self.layout_raw,
            interval_ns: self.interval_ns,
            relative_timestamp: self.relative_timestamp,
            keep_can_id: self.keep_can_id,
            skip_unknown: self.skip_unknown,
            overwrite: self.overwrite,
            only_selected: self.only_selected,
            selected_signals: string_texts(self.selected_signals@),
        }
    }
}

/// How a job with the given settings is converted.
pub open spec fn job_options(s: SettingsModel) -> ConvertModel {
    ConvertModel {
        format: if s.format_parquet {
            OutputFormat::Parquet
        } else {
            OutputFormat::Csv
        },
        layout: if s.layout_raw {
            OutputLayout::PerFrame
        } else {
            OutputLayout::Resampled
        },
        resample_ns: s.interval_ns,
        timestamp: if s.relative_timestamp {
            TimestampMode::RelativeSeconds
        } else {
            TimestampMode::EpochSeconds
        },
        keep_can_id: s.keep_can_id,
        skip_unknown_ids: s.skip_unknown,
        overwrite: s.overwrite,
        signal_filter: if s.only_selected {
            Some(s.selected_signals)
        } else {
            None
        },
    }
}

/// Copy a list of strings.
fn copy_strings(list: &Vec<String>) -> (r: Vec<String>)
    ensures
        string_texts(r@) == string_texts(list@),
{
    let mut r: Vec<String> = Vec::new();
    let mut i: usize = 0;
    while i < list.len()
        invariant
            i <= list@.len(),
            r@.len() == i,
            forall|k: int| 0 <= k < i ==> (#[trigger] r@[k])@ == list@[k]@,
        decreases list@.len() - i,
    {
        r.push(list[i].clone());
        i += 1;
    }
    assert(string_texts(r@) =~= string_texts(list@));
    r
}

/// The names of a list with one more, if it is not among them.
pub open spec fn with_name(names: Seq<Seq<char>>, name: Seq<char>) -> Seq<Seq<char>> {
    if names.contains(name) {
        names
    } else {
        names.push(name)
    }
}

/// The names of the first `n` columns, each once.
pub open spec fn distinct_names(columns: Seq<ColumnSpec>, n: int) -> Seq<Seq<char>>
    decreases n,
{
    if n <= 0 {
        Seq::empty()
    } else {
        with_name(distinct_names(columns, n - 1), columns[n - 1].name@)
    }
}

/// Tells every other name from the given one.
pub open spec fn differs(name: Seq<char>) -> spec_fn(Seq<char>) -> bool {
    |n: Seq<char>| n != name
}

/// The names of a list without the given one.
pub open spec fn without_name(names: Seq<Seq<char>>, name: Seq<char>) -> Seq<Seq<char>> {
    names.filter(differs(name))
}

/// Where a name stands in a list.
fn find_name(list: &Vec<String>, name: &String) -> (r: Option<usize>)
    ensures
        match r {
            Some(i) => i < list@.len() && list@[i as int]@ == name@,
            None => !string_texts(list@).contains(name@),
        },
{
    let mut i: usize = 0;
    while i < list.len()
        invariant
            i <= list@.len(),
            forall|k: int| 0 <= k < i ==> (#[trigger] list@[k])@ != name@,
        decreases list@.len() - i,
    {
        if list[i] == *name {
            return Some(i);
        }
        i += 1;
    }
    assert forall|k: int| 0 <= k < list@.len() implies string_texts(list@)[k] != name@ by {
        assert(list@[k]@ != name@);
    }
    None
}

/// Add a name to a list, if it is not in it.
fn insert_name(list: &mut Vec<String>, name: &String)
    ensures
        string_texts(final(list)@) == with_name(string_texts(old(list)@), name@),
{
    let ghost before = string_texts(list@);
    match find_name(list, name) {
        Some(i) => {
            assert(before[i as int] == name@);
        },
        None => {
            let copy: String = name.clone();
            list.push(copy);
            assert(string_texts(list@) =~= before.push(name@));
        },
    }
}

impl JobSettings {
    /// No signal is chosen twice.
    pub open spec fn wf(&self) -> bool {
        self@.wf()
    }

    /// Copy the settings.
    pub fn copy(&self) -> (r: JobSettings)
        ensures
            r@ == self@,
    {
        JobSettings {
            format_parquet: self.format_parquet,
            layout_raw: self.layout_raw,
            interval_ns: self.interval_ns,
            relative_timestamp: self.relative_timestamp,
            keep_can_id: self.keep_can_id,
            skip_unknown: self.skip_unknown,
            overwrite: self.overwrite,
            only_selected: self.only_selected,
            selected_signals: copy_strings(&self.selected_signals),
        }
    }

    /// How a job with these settings is converted.
    pub fn options(&self) -> (r: ConvertOptions)
        ensures
            r@ == job_options(self@),
    {
        ConvertOptions {
            format: if self.format_parquet {
                OutputFormat::Parquet
            } else {
                OutputFormat::Csv
            },
            layout: if self.layout_raw {
                OutputLayout::PerFrame
            } else {
                OutputLayout::Resampled
            },
            resample_ns: self.interval_ns,
            timestamp: if self.relative_timestamp {
                TimestampMode::RelativeSeconds
            } else {
                TimestampMode::EpochSeconds
            },
            keep_can_id: self.keep_can_id,
            skip_unknown_ids: self.skip_unknown,
            overwrite: self.overwrite,
            signal_filter: if self.only_selected {
                Some(copy_strings(&self.selected_signals))
            } else {
                None
            },
        }
    }

    /// Choose every column.
    pub fn select_all(&mut self, columns: &Vec<ColumnSpec>)
        ensures
            final(self)@ == (SettingsModel {
                selected_signals: distinct_names(columns@, columns@.len() as int),
                ..old(self)@
            }),
            final(self).wf(),
    {
        let mut names: Vec<String> = Vec::new();
        let mut i: usize = 0;
        assert(string_texts(names@) =~= Seq::<Seq<char>>::empty());
        while i < columns.len()
            invariant
                i <= columns@.len(),
                string_texts(names@) == distinct_names(columns@, i as int),
                string_texts(names@).no_duplicates(),
            decreases columns@.len() - i,
        {
            insert_name(&mut names, &columns[i].name);
            i += 1;
        }
        self.selected_signals = names;
    }

    /// Choose every column where none is chosen yet.
    pub fn select_initially(&mut self, columns: &Vec<ColumnSpec>)
        requires
            old(self).wf(),
        ensures
            final(self).wf(),
            final(self)@ == (if old(self)@.selected_signals.len() == 0 {
                SettingsModel {
                    selected_signals: distinct_names(columns@, columns@.len() as int),
                    ..old(self)@
                }
            } else {
                old(self)@
            }),
    {
        if self.selected_signals.len() == 0 {
            self.select_all(columns);
        }
    }

    /// Choose no column.
    pub fn select_none(&mut self)
        ensures
            final(self)@ == (SettingsModel { selected_signals: Seq::empty(), ..old(self)@ }),
            final(self).wf(),
    {
        self.selected_signals = Vec::new();
        assert(string_texts(self.selected_signals@) =~= Seq::<Seq<char>>::empty());
    }

    /// Whether a column is chosen.
    pub fn is_selected(&self, name: &String) -> (r: bool)
        ensures
            r == self@.selected_signals.contains(name@),
    {
        match find_name(&self.selected_signals, name) {
            Some(i) => {
                assert(string_texts(self.selected_signals@)[i as int] == name@);
                true
            },
            None => false,
        }
    }

    /// Choose a column, or not.
    pub fn set_selected(&mut self, name: &String, on: bool)
        requires
            old(self).wf(),
        ensures
            final(self).wf(),
            final(self)@ == (SettingsModel {
                selected_signals: if on {
                    with_name(old(self)@.selected_signals, name@)
                } else {
                    without_name(old(self)@.selected_signals, name@)
                },
                ..old(self)@
            }),
    {
        let ghost before = self@.selected_signals;
        if on {
            insert_name(&mut self.selected_signals, name);
            return;
        }
        match find_name(&self.selected_signals, name) {
            None => {
                proof {
                    lemma_without_absent(before, name@);
                }
            },
            Some(i) => {
                assert(before[i as int] == name@);
                proof {
                    lemma_without_present(before, i as int);
                }
                let dropped: String = self.selected_signals.remove(i);
                assert(string_texts(self.selected_signals@) =~= before.remove(i as int));
            },
        }
    }
}

/// Taking out a name that is not there changes nothing.
proof fn lemma_without_absent(names: Seq<Seq<char>>, name: Seq<char>)
    requires
        !names.contains(name),
    ensures
        without_name(names, name) == names,
    decreases names.len(),
{
    reveal(Seq::filter);
    if names.len() > 0 {
        let less = names.drop_last();
        assert forall|k: int| 0 <= k < less.len() implies less[k] != name by {
            assert(names[k] != name);
        }
        lemma_without_absent(less, name);
        assert(names[names.len() - 1] != name);
        assert(less.push(names.last()) =~= names);
    }
}

/// Taking out a name that occurs once removes its entry.
proof fn lemma_without_present(names: Seq<Seq<char>>, i: int)
    requires
        names.no_duplicates(),
        0 <= i < names.len(),
    ensures
        without_name(names, names[i]) == names.remove(i),
        names.remove(i).no_duplicates(),
    decreases names.len(),
{
    reveal(Seq::filter);
    let less = names.drop_last();
    let name = names[i];
    if i == names.len() - 1 {
        assert(!less.contains(name)) by {
            assert forall|k: int| 0 <= k < less.len() implies less[k] != name by {
                assert(names[k] != names[i]);
            }
        }
        lemma_without_absent(less, name);
        assert(names.remove(i) =~= less);
    } else {
        lemma_without_present(less, i);
        assert(less.remove(i).push(names.last()) =~= names.remove(i));
    }
    assert forall|a: int, b: int|
        0 <= a < names.len() - 1 && 0 <= b < names.len() - 1 && a != b implies names.remove(i)[a]
        != names.remove(i)[b] by {
        let p = if a < i {
            a
        } else {
            a + 1
        };
        let q = if b < i {
            b
        } else {
            b + 1
        };
        assert(names[p] != names[q]);
    }
}

/// The state of a job.
#[derive(Debug)]
pub enum JobState {
    Ready,
    Running,
    Done(Summary),
    Failed(String),
}

impl JobState {
    /// Whether the job waits to be converted, for the first time or again.
    pub open spec fn waiting(self) -> bool {
        self is Ready || self is Failed
    }

    /// Whether the job waits to be converted.
    pub fn is_waiting(&self) -> (r: bool)
        ensures
            r == self.waiting(),
    {
        match self {
            JobState::Ready => true,
            JobState::Failed(_) => true,
            _ => false,
        }
    }

    /// Whether the job has failed.
    pub fn is_failed(&self) -> (r: bool)
        ensures
            r == (self is Failed),
    {
        match self {
            JobState::Failed(_) => true,
            _ => false,
        }
    }
}

/// A BLF file to convert. Paths are of the type `P`.
#[derive(Debug)]
pub struct Job<P> {
    pub id: u64,
    pub blf: P,
    pub dbc: Option<P>,
    /// The database was found next to the BLF file.
    pub dbc_auto: bool,
    pub dbc_candidates: Vec<P>,
    pub out_dir: P,
    pub settings: JobSettings,
    pub state: JobState,
}

/// The mathematical content of a [`Job`].
pub struct JobModel<P> {
    pub id: u64,
    pub blf: P,
    pub dbc: Option<P>,
    pub dbc_auto: bool,
    pub dbc_candidates: Seq<P>,
    pub out_dir: P,
    pub settings: SettingsModel,
    pub state: JobState,
}

impl<P> View for Job<P> {
    type V = JobModel<P>;

    open spec fn view(&self) -> JobModel<P> {
        JobModel {
            id: self.id,
            blf: self.blf,
            dbc: self.dbc,
            dbc_auto: self.dbc_auto,
            dbc_candidates: self.dbc_candidates@,
            out_dir: self.out_dir,
            settings: self.settings@,
            state: self.state,
        }
    }
}

impl<P> JobModel<P> {
    /// Whether the job can be converted now.
    pub open spec fn runnable(self) -> bool {
        self.state.waiting() && self.dbc is Some
    }

    /// The job with a database that the user chose.
    pub open spec fn with_dbc(self, dbc: P) -> Self {
        JobModel { dbc: Some(dbc), dbc_auto: false, ..self }
    }
}

impl<P> Job<P> {
    /// How the job is converted.
    pub fn options(&self) -> (r: ConvertOptions)
        ensures
            r@ == job_options(self@.settings),
    {
        self.settings.options()
    }
}

/// Calls `str::to_lowercase`; the name [`lowercase`] stands for what it makes
/// of a text.
#[verifier::external_body]
fn to_lowercase(text: &str) -> (r: String)
    ensures
        r@ == lowercase(text@),
{
    text.to_lowercase()
}

/// A text in lower case, in the sense of `str::to_lowercase`.
pub uninterp spec fn lowercase(text: Seq<char>) -> Seq<char>;

/// Whether a column fits what is searched for, all in lower case: its name or
/// that of its message contains it, or nothing is searched for.
pub open spec fn fits_search(name: Seq<char>, message: Seq<char>, needle: Seq<char>) -> bool {
    needle.len() == 0 || contains_text(name, needle) || contains_text(message, needle)
}

/// Whether a column fits what is searched for, all in lower case.
pub fn search_matches(name: &str, message: &str, needle: &str) -> (r: bool)
    ensures
        r == fits_search(name@, message@, needle@),
{
    needle.is_empty() || contains(to_chars(name).as_slice(), needle) || contains(
        to_chars(message).as_slice(),
        needle,
    )
}

/// Whether a column is listed under the given search text; upper and lower
/// case are the same.
pub fn is_listed(column: &ColumnSpec, search: &str) -> (r: bool)
    ensures
        r == fits_search(
            lowercase(column.name@),
            lowercase(column.message@),
            lowercase(search@),
        ),
{
    let needle: String = to_lowercase(search);
    let name: String = to_lowercase(column.name.as_str());
    let message: String = to_lowercase(column.message.as_str());
    search_matches(name.as_str(), message.as_str(), needle.as_str())
}

} // verus!
