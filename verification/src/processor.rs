//! The decisions of a batch: where a cleaned file goes, whether it may be
//! written, and how each outcome is counted.

use crate::cli::Config;
use crate::formats::{
    detect_format_from_extension, extension_format, lowercase_of, path_extension,
};
use crate::terminal::colors::{
    format_size, plain, rendered, size_text, with_color, with_style, Color, Style, Styled,
};
use crate::terminal::progress::ProcessingStats;
use vstd::prelude::*;
use vstd::string::*;

verus! {

/// Result of processing a single file.
#[derive(Debug)]
pub enum ProcessResult {
    /// File was successfully processed.
    Success { input: String, output: String, bytes_removed: u64 },
    /// File was skipped (unsupported format, etc.).
    Skipped { path: String, reason: String },
    /// Processing failed.
    Failed { path: String, error: String },
}

/// What to do with the cleaned bytes of one file.
#[derive(Debug, Clone, Copy, PartialEq, Eq, Structural)]
pub enum WritePlan {
    /// The output exists and may not be overwritten.
    Refuse,
    /// Nothing is written: report what would be done.
    Simulate,
    /// Write beside the input and rename over it.
    Replace,
    /// Write the output file.
    Create,
}

/// The line that an outcome is reported with.
#[derive(Debug, Clone, Copy, PartialEq, Eq, Structural)]
pub enum Report {
    /// Nothing is printed.
    Silent,
    /// A file would be cleaned.
    WouldClean,
    /// A file was cleaned in place.
    CleanedInPlace,
    /// A file was cleaned into another.
    Cleaned,
    /// A file was skipped.
    Skipped,
    /// A file failed.
    Failed,
}

/// File processor: the options of the run and its running totals.
pub struct Processor {
    pub config: Config,
    pub stats: ProcessingStats,
}

/// The plan for one file: an existing output is refused unless
/// overwriting is forced or the file is cleaned in place; a dry run
/// writes nothing.
pub open spec fn plan_for(
    output_exists: bool,
    force: bool,
    in_place: bool,
    dry_run: bool,
) -> WritePlan {
    if output_exists && !force && !in_place {
        WritePlan::Refuse
    } else if dry_run {
        WritePlan::Simulate
    } else if in_place {
        WritePlan::Replace
    } else {
        WritePlan::Create
    }
}

/// The totals after one more outcome.
pub open spec fn counted(stats: ProcessingStats, result: ProcessResult) -> ProcessingStats {
    match result {
        ProcessResult::Success { input, output, bytes_removed } => ProcessingStats {
            processed: (stats.processed + 1) as usize,
            metadata_removed: (stats.metadata_removed + bytes_removed) as u64,
            ..stats
        },
        ProcessResult::Skipped { path, reason } => ProcessingStats {
            skipped: (stats.skipped + 1) as usize,
            ..stats
        },
        ProcessResult::Failed { path, error } => ProcessingStats {
            failed: (stats.failed + 1) as usize,
            ..stats
        },
    }
}

/// Whether the totals have room for one more outcome.
pub open spec fn has_room(stats: ProcessingStats, result: ProcessResult) -> bool {
    match result {
        ProcessResult::Success { input, output, bytes_removed } => stats.processed < usize::MAX
            && stats.metadata_removed + bytes_removed <= u64::MAX,
        ProcessResult::Skipped { path, reason } => stats.skipped < usize::MAX,
        ProcessResult::Failed { path, error } => stats.failed < usize::MAX,
    }
}

/// The line that an outcome is reported with: none when quiet, a skip
/// only when verbose.
pub open spec fn report_for(
    result: ProcessResult,
    quiet: bool,
    verbose: bool,
    dry_run: bool,
    in_place: bool,
) -> Report {
    if quiet {
        Report::Silent
    } else {
        match result {
            ProcessResult::Success { input, output, bytes_removed } => if dry_run {
                Report::WouldClean
            } else if in_place {
                Report::CleanedInPlace
            } else {
                Report::Cleaned
            },
            ProcessResult::Skipped { path, reason } => if verbose {
                Report::Skipped
            } else {
                Report::Silent
            },
            ProcessResult::Failed { path, error } => Report::Failed,
        }
    }
}

/// The reason that an outcome carries: why a file was skipped or failed.
pub open spec fn detail_of(result: ProcessResult) -> Seq<char> {
    match result {
        ProcessResult::Success { input, output, bytes_removed } => Seq::empty(),
        ProcessResult::Skipped { path, reason } => reason@,
        ProcessResult::Failed { path, error } => error@,
    }
}

/// The number of bytes that an outcome reports as removed.
pub open spec fn removed_by(result: ProcessResult) -> u64 {
    match result {
        ProcessResult::Success { input, output, bytes_removed } => bytes_removed,
        _ => 0,
    }
}

/// A file name as it is shown: in blue.
pub open spec fn shown_name(name: Seq<char>, color_enabled: bool) -> Seq<char> {
    rendered(with_color(plain(name, color_enabled), Color::Blue))
}

/// The arrow between an input and its output: dimmed.
pub open spec fn shown_arrow(color_enabled: bool) -> Seq<char> {
    rendered(with_style(plain("\u{2192}"@, color_enabled), Style::Dim))
}

/// The line that an outcome is reported with: for a success the file
/// names and the size removed, for a skip or a failure the file name and
/// the reason; `detail` is that reason.
pub open spec fn message_of(
    report: Report,
    input_name: Seq<char>,
    output_name: Seq<char>,
    detail: Seq<char>,
    bytes_removed: u64,
    color_enabled: bool,
) -> Seq<char> {
    match report {
        Report::Silent => Seq::empty(),
        Report::WouldClean => "Would clean "@ + shown_name(input_name, color_enabled)
            + " (would remove "@ + size_text(bytes_removed) + ")"@,
        Report::CleanedInPlace => "Cleaned "@ + shown_name(input_name, color_enabled)
            + " (removed "@ + size_text(bytes_removed) + ")"@,
        Report::Cleaned => "Cleaned "@ + shown_name(input_name, color_enabled) + " "@
            + shown_arrow(color_enabled) + " "@ + shown_name(output_name, color_enabled)
            + " (removed "@ + size_text(bytes_removed) + ")"@,
        Report::Skipped => "Skipped "@ + input_name + ": "@ + detail,
        Report::Failed => "Failed to process "@ + input_name + ": "@ + detail,
    }
}

/// The name of a cleaned copy: the stem, `_clean`, and the extension
/// where there is one.
pub open spec fn clean_name_of(stem: Seq<char>, extension: Seq<char>) -> Seq<char> {
    if extension.len() == 0 {
        stem + "_clean"@
    } else {
        stem + "_clean."@ + extension
    }
}

/// The last component of a path, by `Path::file_name`; empty where the
/// path has none. Nothing is claimed of it: what separates components
/// depends on the platform.
#[verifier::external_body]
fn file_name_of(path: &str) -> (name: String) {
    std::path::Path::new(path).file_name().unwrap_or_default().to_string_lossy().into_owned()
}

/// The file name without its extension, by `Path::file_stem`; empty where
/// the path has no file name. Nothing is claimed of it.
#[verifier::external_body]
fn file_stem_of(path: &str) -> (stem: String) {
    std::path::Path::new(path).file_stem().unwrap_or_default().to_string_lossy().into_owned()
}

/// The path `name` inside the directory `dir`, by `Path::join`. Nothing is
/// claimed of it.
#[verifier::external_body]
fn joined(dir: &str, name: &str) -> (path: String) {
    std::path::Path::new(dir).join(name).to_string_lossy().into_owned()
}

/// The path with its last component replaced by `name`, by
/// `Path::with_file_name`. Nothing is claimed of it.
#[verifier::external_body]
fn with_file_name(path: &str, name: &str) -> (renamed: String) {
    std::path::Path::new(path).with_file_name(name).to_string_lossy().into_owned()
}

/// The name of a cleaned copy.
pub fn clean_name(stem: &str, extension: &str) -> (name: String)
    ensures
        name@ == clean_name_of(stem@, extension@),
{
    if extension.unicode_len() == 0 {
        String::from_str(stem).concat("_clean")
    } else {
        String::from_str(stem).concat("_clean.").concat(extension)
    }
}

/// Writes the line that an outcome is reported with.
pub fn message_for(
    report: Report,
    input_name: &str,
    output_name: &str,
    detail: &str,
    bytes_removed: u64,
    color_enabled: bool,
) -> (text: String)
    ensures
        text@ == message_of(
            report,
            input_name@,
            output_name@,
            detail@,
            bytes_removed,
            color_enabled,
        ),
{
    match report {
        Report::Silent => String::new(),
        Report::WouldClean => {
            let name = Styled::with_color_support(input_name, color_enabled).blue().render();
            let size = format_size(bytes_removed);
            String::from_str("Would clean ").concat(name.as_str()).concat(
                " (would remove ",
            ).concat(size.as_str()).concat(")")
        },
        Report::CleanedInPlace => {
            let name = Styled::with_color_support(input_name, color_enabled).blue().render();
            let size = format_size(bytes_removed);
            String::from_str("Cleaned ").concat(name.as_str()).concat(" (removed ").concat(
                size.as_str(),
            ).concat(")")
        },
        Report::Cleaned => {
            let name = Styled::with_color_support(input_name, color_enabled).blue().render();
            let arrow = Styled::with_color_support("\u{2192}", color_enabled).dim().render();
            let target = Styled::with_color_support(output_name, color_enabled).blue().render();
            let size = format_size(bytes_removed);
            String::from_str("Cleaned ").concat(name.as_str()).concat(" ").concat(
                arrow.as_str(),
            ).concat(" ").concat(target.as_str()).concat(" (removed ").concat(
                size.as_str(),
            ).concat(")")
        },
        Report::Skipped => String::from_str("Skipped ").concat(input_name).concat(": ").concat(
            detail,
        ),
        Report::Failed => String::from_str("Failed to process ").concat(input_name).concat(
            ": ",
        ).concat(detail),
    }
}

/// The plan for one file.
pub fn plan_write(config: &Config, output_exists: bool) -> (plan: WritePlan)
    ensures
        plan == plan_for(output_exists, config.force, config.in_place, config.dry_run),
{
    if output_exists && !config.force && !config.in_place {
        WritePlan::Refuse
    } else if config.dry_run {
        WritePlan::Simulate
    } else if config.in_place {
        WritePlan::Replace
    } else {
        WritePlan::Create
    }
}

impl Processor {
    /// Create a new processor with the given configuration.
    pub fn new(config: Config) -> (processor: Processor)
        ensures
            processor.config == config,
            processor.stats.processed == 0,
            processor.stats.failed == 0,
            processor.stats.skipped == 0,
            processor.stats.metadata_removed == 0,
    {
        Processor { config, stats: ProcessingStats::new() }
    }

    /// Check if a file has a supported extension.
    pub fn is_supported_file(&self, path: &str) -> (supported: bool)
        ensures
            supported ==> exists|extension: Seq<char>|
                extension_format(#[trigger] lowercase_of(extension)).is_some(),
    {
        detect_format_from_extension(path).is_some()
    }

    /// Get the output path for a file: the input itself where files are
    /// cleaned in place; else the file's name inside the output
    /// directory, where one is set; else the input with `_clean` behind
    /// its stem.
    pub fn get_output_path(config: &Config, input: &str) -> (output: String)
        ensures
            config.in_place ==> output@ == input@,
    {
        if config.in_place {
            return String::from_str(input);
        }
        match &config.output_dir {
            Some(dir) => {
                let name = file_name_of(input);
                joined(dir.as_str(), name.as_str())
            },
            None => {
                let stem = file_stem_of(input);
                let extension = match path_extension(input) {
                    Some(extension) => extension,
                    None => String::new(),
                };
                let name = clean_name(stem.as_str(), extension.as_str());
                with_file_name(input, name.as_str())
            },
        }
    }

    /// Counts an outcome and says with which line it is reported.
    pub fn handle_result(&mut self, result: &ProcessResult) -> (report: Report)
        requires
            has_room(old(self).stats, *result),
        ensures
            final(self).stats == counted(old(self).stats, *result),
            final(self).config == old(self).config,
            report == report_for(
                *result,
                old(self).config.quiet,
                old(self).config.verbose,
                old(self).config.dry_run,
                old(self).config.in_place,
            ),
    {
        match result {
            ProcessResult::Success { input, output, bytes_removed } => {
                self.stats.add_success(*bytes_removed);
                if self.config.quiet {
                    Report::Silent
                } else if self.config.dry_run {
                    Report::WouldClean
                } else if self.config.in_place {
                    Report::CleanedInPlace
                } else {
                    Report::Cleaned
                }
            },
            ProcessResult::Skipped { path, reason } => {
                self.stats.add_skipped();
                if !self.config.quiet && self.config.verbose {
                    Report::Skipped
                } else {
                    Report::Silent
                }
            },
            ProcessResult::Failed { path, error } => {
                self.stats.add_failure();
                if self.config.quiet {
                    Report::Silent
                } else {
                    Report::Failed
                }
            },
        }
    }

    /// Writes the line for an outcome that is reported with `report`; the
    /// files are shown by their names, without their directories.
    pub fn result_line(report: Report, result: &ProcessResult, color_enabled: bool) -> (text:
        String)
        ensures
            exists|input_name: Seq<char>, output_name: Seq<char>|
                text@ == #[trigger] message_of(
                    report,
                    input_name,
                    output_name,
                    detail_of(*result),
                    removed_by(*result),
                    color_enabled,
                ),
    {
        match result {
            ProcessResult::Success { input, output, bytes_removed } => {
                let input_name = file_name_of(input.as_str());
                let output_name = file_name_of(output.as_str());
                let text = message_for(
                    report,
                    input_name.as_str(),
                    output_name.as_str(),
                    "",
                    *bytes_removed,
                    color_enabled,
                );
                proof {
                    reveal_strlit("");
                    assert(""@ =~= Seq::<char>::empty());
                    assert(text@ == message_of(
                        report,
                        input_name@,
                        output_name@,
                        detail_of(*result),
                        removed_by(*result),
                        color_enabled,
                    ));
                }
                text
            },
            ProcessResult::Skipped { path, reason } => {
                let name = file_name_of(path.as_str());
                let text = message_for(
                    report,
                    name.as_str(),
                    name.as_str(),
                    reason.as_str(),
                    0,
                    color_enabled,
                );
                assert(text@ == message_of(
                    report,
                    name@,
                    name@,
                    detail_of(*result),
                    removed_by(*result),
                    color_enabled,
                ));
                text
            },
            ProcessResult::Failed { path, error } => {
                let name = file_name_of(path.as_str());
                let text = message_for(
                    report,
                    name.as_str(),
                    name.as_str(),
                    error.as_str(),
                    0,
                    color_enabled,
                );
                assert(text@ == message_of(
                    report,
                    name@,
                    name@,
                    detail_of(*result),
                    removed_by(*result),
                    color_enabled,
                ));
                text
            },
        }
    }
}

} // verus!
