//! Log structures: what a run reports for automation pipelines.

use crate::number::Number;
use vstd::prelude::*;

verus! {

/// What a run has done. Durations are microseconds.
#[derive(Debug)]
pub struct JsonLog {
    pub started: String,
    pub finished: Option<String>,
    pub input_dir: String,
    pub music_dir: String,
    pub output_dir: String,
    pub settings: LogSettings,
    pub music_files: usize,
    pub music_duration: i64,
    pub input_files: usize,
    pub input_duration: i64,
    pub processed: Vec<LogEntry>,
    pub skipped: Vec<String>,
    pub failed: Vec<LogEntry>,
}

/// The settings of a run. Times are microseconds; other fractions are millionths.
#[derive(Debug)]
pub struct LogSettings {
    pub loudness_drop: i64,
    pub threads: usize,
    pub pause: i64,
    pub crossfade: i64,
    pub format: String,
    pub quality: u8,
    pub sample_rate: u32,
    pub loudness_i: Number,
    pub loudness_tp: Number,
    pub loudness_lra: Number,
    pub music_fade_in: i64,
    pub music_fade_out: i64,
    pub normalize_input: bool,
    pub normalize_music: bool,
    pub normalize_music_output: Option<String>,
    pub split_chapters: bool,
    pub speed: i64,
}

/// What is reported of one file.
#[derive(Debug)]
pub struct LogEntry {
    pub file: String,
    pub error: Option<String>,
    pub command: Option<String>,
}

/// What a [`LogEntry`] says.
pub struct EntryView {
    pub file: Seq<char>,
    pub error: Option<Seq<char>>,
    pub command: Option<Seq<char>>,
}

/// The characters of a string that may be missing.
pub open spec fn text_in(s: Option<String>) -> Option<Seq<char>> {
    match s {
        Some(t) => Some(t@),
        None => None,
    }
}

impl View for LogEntry {
    type V = EntryView;

    open spec fn view(&self) -> EntryView {
        EntryView {
            file: self.file@,
            error: text_in(self.error),
            command: text_in(self.command),
        }
    }
}

impl Clone for LogEntry {
    fn clone(&self) -> (r: LogEntry)
        ensures
            r@ == self@,
    {
        LogEntry {
            file: self.file.clone(),
            error: match &self.error {
                Some(e) => Some(e.clone()),
                None => None,
            },
            command: match &self.command {
                Some(c) => Some(c.clone()),
                None => None,
            },
        }
    }
}

/// A file that was processed.
pub open spec fn processed_entry(file: Seq<char>) -> EntryView {
    EntryView { file, error: None, command: None }
}

/// A file that failed, with the command that failed where there is one.
pub open spec fn failed_entry(
    file: Seq<char>,
    error: Seq<char>,
    command: Option<Seq<char>>,
) -> EntryView {
    EntryView { file, error: Some(error), command }
}

impl LogEntry {
    /// A file that was processed.
    pub fn processed(file: &str) -> (r: LogEntry)
        ensures
            r@ == processed_entry(file@),
    {
        LogEntry { file: file.to_owned(), error: None, command: None }
    }

    /// A file that failed, with the command that failed where there is one.
    pub fn failed(file: &str, error: &str, command: Option<String>) -> (r: LogEntry)
        ensures
            r@ == failed_entry(file@, error@, text_in(command)),
    {
        LogEntry { file: file.to_owned(), error: Some(error.to_owned()), command }
    }
}

} // verus!
