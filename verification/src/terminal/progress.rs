//! The state of a progress bar and the running totals of a batch.

use crate::error::{decimal, decimal_of};
use crate::terminal::colors::{
    format_size, plain, rendered, size_text, with_color, with_style, Color, Style, Styled,
    Symbols,
};
use vstd::prelude::*;
use vstd::string::*;

verus! {

/// Progress bar configuration.
#[derive(Debug, Clone, Copy)]
pub struct ProgressConfig {
    /// Total number of items to process.
    pub total: usize,
    /// Width of the progress bar in characters.
    pub width: usize,
    /// Whether to show the progress bar.
    pub enabled: bool,
    /// Character for completed progress.
    pub filled_char: char,
    /// Character for remaining progress.
    pub empty_char: char,
}

/// Progress bar state: how far a batch has come and which file it is at.
#[derive(Debug)]
pub struct ProgressBar {
    pub config: ProgressConfig,
    pub current: usize,
    pub current_file: String,
}

/// A bar of 20 characters, full block for what is done and light shade
/// for what is left.
pub open spec fn standard_bar(total: usize, enabled: bool) -> ProgressConfig {
    ProgressConfig { total, width: 20, enabled, filled_char: '\u{2588}', empty_char: '\u{2591}' }
}

impl ProgressConfig {
    /// The standard bar for `total` items.
    pub fn new(total: usize, enabled: bool) -> (config: ProgressConfig)
        ensures
            config == standard_bar(total, enabled),
    {
        ProgressConfig { total, width: 20, enabled, filled_char: '\u{2588}', empty_char: '\u{2591}' }
    }
}

impl ProgressBar {
    /// Create a new progress bar that is not shown: whether there is a
    /// terminal to show it on is for the caller to say, through
    /// `with_config`.
    pub fn new(total: usize) -> (bar: ProgressBar)
        ensures
            bar.config == standard_bar(total, false),
            bar.current == 0,
            bar.current_file@ == Seq::<char>::empty(),
    {
        ProgressBar::with_config(ProgressConfig::new(total, false))
    }

    /// Create a progress bar with custom configuration.
    pub fn with_config(config: ProgressConfig) -> (bar: ProgressBar)
        ensures
            bar.config == config,
            bar.current == 0,
            bar.current_file@ == Seq::<char>::empty(),
    {
        ProgressBar { config, current: 0, current_file: String::new() }
    }

    /// Check if the progress bar is enabled.
    pub fn is_enabled(&self) -> (enabled: bool)
        ensures
            enabled == self.config.enabled,
    {
        self.config.enabled
    }

    /// Set the current file being processed.
    pub fn set_current_file(&mut self, file: &str)
        ensures
            final(self).current_file@ == file@,
            final(self).config == old(self).config,
            final(self).current == old(self).current,
    {
        self.current_file = String::from_str(file);
    }

    /// Increment the progress by one.
    pub fn inc(&mut self)
        requires
            old(self).current < usize::MAX,
        ensures
            final(self).current == old(self).current + 1,
            final(self).config == old(self).config,
            final(self).current_file == old(self).current_file,
    {
        self.current += 1;
    }

    /// Set the progress to a specific value.
    pub fn set(&mut self, current: usize)
        ensures
            final(self).current == current,
            final(self).config == old(self).config,
            final(self).current_file == old(self).current_file,
    {
        self.current = current;
    }
}

/// Statistics for the processing summary.
#[derive(Debug, Clone, Copy)]
pub struct ProcessingStats {
    /// Number of successfully processed files.
    pub processed: usize,
    /// Number of failed files.
    pub failed: usize,
    /// Number of skipped files.
    pub skipped: usize,
    /// Total bytes of metadata removed.
    pub metadata_removed: u64,
    /// Processing duration.
    pub duration: std::time::Duration,
}

/// The duration of no time at all, by `Duration::default`. A duration is
/// opaque to the contracts, so nothing is claimed of it.
#[verifier::external_body]
fn zero_duration() -> (duration: std::time::Duration) {
    std::time::Duration::default()
}

impl ProcessingStats {
    /// Create new empty stats.
    pub fn new() -> (stats: ProcessingStats)
        ensures
            stats.processed == 0,
            stats.failed == 0,
            stats.skipped == 0,
            stats.metadata_removed == 0,
    {
        ProcessingStats {
            processed: 0,
            failed: 0,
            skipped: 0,
            metadata_removed: 0,
            duration: zero_duration(),
        }
    }

    /// Add a successful processing result.
    pub fn add_success(&mut self, metadata_bytes: u64)
        requires
            old(self).processed < usize::MAX,
            old(self).metadata_removed + metadata_bytes <= u64::MAX,
        ensures
            *final(self) == (ProcessingStats {
                processed: (old(self).processed + 1) as usize,
                metadata_removed: (old(self).metadata_removed + metadata_bytes) as u64,
                ..*old(self)
            }),
    {
        self.processed += 1;
        self.metadata_removed += metadata_bytes;
    }

    /// Add a failed processing result.
    pub fn add_failure(&mut self)
        requires
            old(self).failed < usize::MAX,
        ensures
            *final(self) == (ProcessingStats {
                failed: (old(self).failed + 1) as usize,
                ..*old(self)
            }),
    {
        self.failed += 1;
    }

    /// Add a skipped file.
    pub fn add_skipped(&mut self)
        requires
            old(self).skipped < usize::MAX,
        ensures
            *final(self) == (ProcessingStats {
                skipped: (old(self).skipped + 1) as usize,
                ..*old(self)
            }),
    {
        self.skipped += 1;
    }

    /// Set the duration.
    pub fn set_duration(&mut self, duration: std::time::Duration)
        ensures
            *final(self) == (ProcessingStats { duration, ..*old(self) }),
    {
        self.duration = duration;
    }

    /// Get the total number of files encountered.
    pub fn total(&self) -> (total: usize)
        requires
            self.processed + self.failed + self.skipped <= usize::MAX,
        ensures
            total == self.processed + self.failed + self.skipped,
    {
        self.processed + self.failed + self.skipped
    }
}

/// Spinner for indeterminate progress: its frames, the frame it is at,
/// and the message beside it.
#[derive(Debug)]
pub struct Spinner {
    pub frames: Vec<char>,
    pub current_frame: usize,
    pub message: String,
    pub enabled: bool,
}

/// The ten frames of the spinner.
pub open spec fn spinner_frames() -> Seq<char> {
    seq![
        '\u{280B}',
        '\u{2819}',
        '\u{2839}',
        '\u{2838}',
        '\u{283C}',
        '\u{2834}',
        '\u{2826}',
        '\u{2827}',
        '\u{2807}',
        '\u{280F}',
    ]
}

impl Spinner {
    /// A spinner is at one of its frames.
    pub open spec fn well_formed(self) -> bool {
        self.current_frame < self.frames@.len()
    }

    /// Create a new spinner with a message, not shown: whether there is
    /// a terminal to show it on is for the caller to say, through
    /// `with_terminal`.
    pub fn new(message: &str) -> (spinner: Spinner)
        ensures
            spinner.well_formed(),
            spinner.frames@ == spinner_frames(),
            spinner.current_frame == 0,
            spinner.message@ == message@,
            !spinner.enabled,
    {
        Spinner::with_terminal(message, false)
    }

    /// Create a spinner with a message, shown or not.
    pub fn with_terminal(message: &str, enabled: bool) -> (spinner: Spinner)
        ensures
            spinner.well_formed(),
            spinner.frames@ == spinner_frames(),
            spinner.current_frame == 0,
            spinner.message@ == message@,
            spinner.enabled == enabled,
    {
        let mut frames: Vec<char> = Vec::new();
        frames.push('\u{280B}');
        frames.push('\u{2819}');
        frames.push('\u{2839}');
        frames.push('\u{2838}');
        frames.push('\u{283C}');
        frames.push('\u{2834}');
        frames.push('\u{2826}');
        frames.push('\u{2827}');
        frames.push('\u{2807}');
        frames.push('\u{280F}');
        assert(frames@ =~= spinner_frames());
        Spinner { frames, current_frame: 0, message: String::from_str(message), enabled }
    }

    /// Advance the spinner: the frame to draw, and the next frame in turn;
    /// nothing where the spinner is not shown.
    pub fn tick(&mut self) -> (frame: Option<char>)
        requires
            old(self).well_formed(),
        ensures
            final(self).well_formed(),
            final(self).frames == old(self).frames,
            final(self).message == old(self).message,
            final(self).enabled == old(self).enabled,
            old(self).enabled ==> frame == Some(old(self).frames@[old(self).current_frame as int])
                && final(self).current_frame == (if old(self).current_frame + 1 == old(
                self,
            ).frames@.len() {
                0
            } else {
                old(self).current_frame + 1
            }),
            !old(self).enabled ==> frame.is_none() && final(self).current_frame == old(
                self,
            ).current_frame,
    {
        if !self.enabled {
            return None;
        }
        let count: usize = self.frames.len();
        let frame: char = self.frames[self.current_frame];
        if self.current_frame + 1 == count {
            self.current_frame = 0;
        } else {
            self.current_frame = self.current_frame + 1;
        }
        Some(frame)
    }
}

/// `unit` written `count` times.
pub open spec fn repeat_text(unit: Seq<char>, count: nat) -> Seq<char>
    decreases count,
{
    if count == 0 {
        Seq::empty()
    } else {
        repeat_text(unit, (count - 1) as nat) + unit
    }
}

/// A text with spaces behind it up to `width` characters; unchanged where
/// it is that long already.
pub open spec fn padded_text(text: Seq<char>, width: nat) -> Seq<char> {
    if text.len() >= width {
        text
    } else {
        text + repeat_text(" "@, (width - text.len()) as nat)
    }
}

/// A line of the summary box: the text, padded to the 38 characters
/// between the sides. What a text holds counts, not what it shows.
pub open spec fn boxed_text(text: Seq<char>) -> Seq<char> {
    "\u{2502}"@ + padded_text(text, 38) + "\u{2502}"@
}

/// A symbol as it is written: bold, in its colour.
pub open spec fn symbol_text(symbol: Seq<char>, color: Color, color_enabled: bool) -> Seq<char> {
    rendered(with_style(with_color(plain(symbol, color_enabled), color), Style::Bold))
}

/// The line that counts the files of one outcome.
pub open spec fn count_text(symbol: Seq<char>, label: Seq<char>, count: usize) -> Seq<char> {
    boxed_text("  "@ + symbol + label + decimal_of(count as nat) + " files"@)
}

/// The lines of the summary box: the title, the files processed, failed
/// and skipped (the latter two only where there are any), the metadata
/// removed and the time it took, which `elapsed` gives in seconds.
pub open spec fn summary_of(stats: ProcessingStats, color_enabled: bool, elapsed: Seq<char>) -> Seq<
    Seq<char>,
> {
    let rule = repeat_text("\u{2500}"@, 38);
    let title = rendered(with_style(plain("Processing Complete"@, color_enabled), Style::Bold));
    seq![
        Seq::empty(),
        "\u{256D}"@ + rule + "\u{256E}"@,
        "\u{2502}"@ + repeat_text(" "@, 9) + title + repeat_text(" "@, 10) + "\u{2502}"@,
        "\u{251C}"@ + rule + "\u{2524}"@,
        count_text(
            symbol_text("\u{2713}"@, Color::Green, color_enabled),
            " Processed:  "@,
            stats.processed,
        ),
    ] + (if stats.failed > 0 {
        seq![
            count_text(
                symbol_text("\u{2717}"@, Color::Red, color_enabled),
                " Failed:      "@,
                stats.failed,
            ),
        ]
    } else {
        Seq::empty()
    }) + (if stats.skipped > 0 {
        seq![
            count_text(
                symbol_text("\u{26A0}"@, Color::Yellow, color_enabled),
                " Skipped:     "@,
                stats.skipped,
            ),
        ]
    } else {
        Seq::empty()
    }) + seq![
        boxed_text(Seq::empty()),
        boxed_text("  Metadata removed: "@ + size_text(stats.metadata_removed)),
        boxed_text("  Time elapsed: "@ + elapsed + "s"@),
        "\u{2570}"@ + rule + "\u{256F}"@,
    ]
}

/// The texts of a list of lines.
pub open spec fn line_texts(lines: Seq<String>) -> Seq<Seq<char>> {
    lines.map_values(|line: String| line@)
}

/// Writes `unit` `count` times.
pub fn repeated(unit: &str, count: usize) -> (text: String)
    ensures
        text@ == repeat_text(unit@, count as nat),
{
    let mut text = String::new();
    let mut written: usize = 0;
    while written < count
        invariant
            written <= count,
            text@ == repeat_text(unit@, written as nat),
        decreases count - written,
    {
        text.append(unit);
        written += 1;
    }
    text
}

/// Pads a text with spaces up to `width` characters.
pub fn pad_right(text: String, width: usize) -> (padded: String)
    ensures
        padded@ == padded_text(text@, width as nat),
{
    let length: usize = text.as_str().unicode_len();
    if length >= width {
        text
    } else {
        let spaces = repeated(" ", width - length);
        text.concat(spaces.as_str())
    }
}

/// Writes a line of the summary box.
pub fn boxed(text: String) -> (line: String)
    ensures
        line@ == boxed_text(text@),
{
    let padded = pad_right(text, 38);
    String::from_str("\u{2502}").concat(padded.as_str()).concat("\u{2502}")
}

/// Writes the line that counts the files of one outcome.
pub fn count_line(symbol: &Styled, label: &str, count: usize) -> (line: String)
    ensures
        line@ == count_text(rendered(symbol@), label@, count),
{
    let shown = symbol.render();
    let number = decimal(count as u64);
    boxed(
        String::from_str("  ").concat(shown.as_str()).concat(label).concat(
            number.as_str(),
        ).concat(" files"),
    )
}

/// Writes the lines of the summary box; `elapsed` is the time the batch
/// took, in seconds.
pub fn summary_lines(stats: &ProcessingStats, color_enabled: bool, elapsed: &str) -> (lines: Vec<
    String,
>)
    ensures
        line_texts(lines@) == summary_of(*stats, color_enabled, elapsed@),
{
    let symbols = Symbols::new(color_enabled);
    let rule = repeated("\u{2500}", 38);
    let title = Styled::with_color_support("Processing Complete", color_enabled).bold().render();
    let mut lines: Vec<String> = Vec::new();
    let ghost mut built: Seq<Seq<char>> = Seq::empty();
    assert(line_texts(lines@) =~= built);

    let line = String::new();
    proof {
        built = built.push(line@);
    }
    lines.push(line);
    assert(line_texts(lines@) =~= built);

    let line = String::from_str("\u{256D}").concat(rule.as_str()).concat("\u{256E}");
    proof {
        built = built.push(line@);
    }
    lines.push(line);
    assert(line_texts(lines@) =~= built);

    let line = String::from_str("\u{2502}").concat(repeated(" ", 9).as_str()).concat(
        title.as_str(),
    ).concat(repeated(" ", 10).as_str()).concat("\u{2502}");
    proof {
        built = built.push(line@);
    }
    lines.push(line);
    assert(line_texts(lines@) =~= built);

    let line = String::from_str("\u{251C}").concat(rule.as_str()).concat("\u{2524}");
    proof {
        built = built.push(line@);
    }
    lines.push(line);
    assert(line_texts(lines@) =~= built);

    let line = count_line(&symbols.success(), " Processed:  ", stats.processed);
    proof {
        built = built.push(line@);
    }
    lines.push(line);
    assert(line_texts(lines@) =~= built);

    if stats.failed > 0 {
        let line = count_line(&symbols.error(), " Failed:      ", stats.failed);
        proof {
            built = built.push(line@);
        }
        lines.push(line);
        assert(line_texts(lines@) =~= built);
    }
    if stats.skipped > 0 {
        let line = count_line(&symbols.warning(), " Skipped:     ", stats.skipped);
        proof {
            built = built.push(line@);
        }
        lines.push(line);
        assert(line_texts(lines@) =~= built);
    }
    let line = boxed(String::new());
    proof {
        built = built.push(line@);
    }
    lines.push(line);
    assert(line_texts(lines@) =~= built);

    let line = boxed(
        String::from_str("  Metadata removed: ").concat(
            format_size(stats.metadata_removed).as_str(),
        ),
    );
    proof {
        built = built.push(line@);
    }
    lines.push(line);
    assert(line_texts(lines@) =~= built);

    let line = boxed(String::from_str("  Time elapsed: ").concat(elapsed).concat("s"));
    proof {
        built = built.push(line@);
    }
    lines.push(line);
    assert(line_texts(lines@) =~= built);

    let line = String::from_str("\u{2570}").concat(rule.as_str()).concat("\u{256F}");
    proof {
        built = built.push(line@);
    }
    lines.push(line);
    assert(line_texts(lines@) =~= built);
    assert(built =~= summary_of(*stats, color_enabled, elapsed@));
    lines
}

} // verus!
