use pmi::error::decimal;
use pmi::terminal::colors::{format_size, Color, Style, Styled, Symbols};
use pmi::terminal::progress::{
    boxed, pad_right, repeated, summary_lines, ProcessingStats, ProgressBar, ProgressConfig,
    Spinner,
};
use std::time::Duration;

#[test]
fn test_styled_no_formatting() {
    let s = Styled::with_color_support("hello", false);
    assert_eq!(s.render(), "hello");
}

#[test]
fn test_styled_with_color_disabled() {
    let s = Styled::with_color_support("hello", false).red().bold();
    assert_eq!(s.render(), "hello");
}

#[test]
fn test_styled_with_color_enabled() {
    let s = Styled::with_color_support("hello", true).red();
    let output = s.render();
    assert!(output.contains("\x1b["));
    assert!(output.contains("31")); // Red color code
    assert!(output.contains("hello"));
    assert!(output.contains("\x1b[0m")); // Reset
}

#[test]
fn test_styled_bold() {
    let s = Styled::with_color_support("hello", true).bold();
    let output = s.render();
    assert!(output.contains("1")); // Bold code
}

#[test]
fn test_styled_multiple_styles() {
    let s = Styled::with_color_support("hello", true).bold().red();
    let output = s.render();
    assert!(output.contains("1")); // Bold
    assert!(output.contains("31")); // Red
}

#[test]
fn test_symbols() {
    let symbols = Symbols::new(false);
    assert!(symbols.success().render().contains('\u{2713}'));
    assert!(symbols.error().render().contains('\u{2717}'));
    assert!(symbols.warning().render().contains('\u{26A0}'));
    assert!(symbols.info().render().contains('\u{2139}'));
}

#[test]
fn test_processing_stats_default() {
    let stats = ProcessingStats::new();
    assert_eq!(stats.processed, 0);
    assert_eq!(stats.failed, 0);
    assert_eq!(stats.skipped, 0);
    assert_eq!(stats.metadata_removed, 0);
}

#[test]
fn test_processing_stats_add_success() {
    let mut stats = ProcessingStats::new();
    stats.add_success(1024);
    assert_eq!(stats.processed, 1);
    assert_eq!(stats.metadata_removed, 1024);
}

#[test]
fn test_processing_stats_add_failure() {
    let mut stats = ProcessingStats::new();
    stats.add_failure();
    assert_eq!(stats.failed, 1);
}

#[test]
fn test_processing_stats_add_skipped() {
    let mut stats = ProcessingStats::new();
    stats.add_skipped();
    assert_eq!(stats.skipped, 1);
}

#[test]
fn test_processing_stats_total() {
    let mut stats = ProcessingStats::new();
    stats.add_success(100);
    stats.add_success(100);
    stats.add_failure();
    stats.add_skipped();
    assert_eq!(stats.total(), 4);
}

#[test]
fn styled_text_has_the_exact_escape_sequences() {
    assert_eq!(Styled::with_color_support("hi", true).red().render(), "\x1b[31mhi\x1b[0m");
    assert_eq!(Styled::with_color_support("hi", true).bold().render(), "\x1b[1mhi\x1b[0m");
    assert_eq!(
        Styled::with_color_support("hi", true).dim().bold().cyan().render(),
        "\x1b[2;1;36mhi\x1b[0m"
    );
    assert_eq!(
        Styled::with_color_support("hi", true)
            .style(Style::Underline)
            .style(Style::Italic)
            .color(Color::Color256(208))
            .render(),
        "\x1b[4;3;38;5;208mhi\x1b[0m"
    );
    assert_eq!(Styled::with_color_support("hi", true).render(), "hi");
    assert_eq!(Styled::new("hi").green().bold().render(), "hi");
}

#[test]
fn a_style_is_added_once_and_the_last_colour_wins() {
    let s = Styled::with_color_support("x", true).bold().dim().bold().red().blue().yellow();
    assert_eq!(s.render(), "\x1b[1;2;33mx\x1b[0m");
}

#[test]
fn colour_codes() {
    assert_eq!(Color::Black.fg_code(), "30");
    assert_eq!(Color::Magenta.fg_code(), "35");
    assert_eq!(Color::White.fg_code(), "37");
    assert_eq!(Color::Default.fg_code(), "39");
    assert_eq!(Color::Color256(0).fg_code(), "38;5;0");
    assert_eq!(Color::Color256(255).fg_code(), "38;5;255");
    assert_eq!(Style::Italic.code(), "3");
    assert_eq!(Style::Underline.code(), "4");
}

#[test]
fn symbols_in_colour() {
    let symbols = Symbols::new(true);
    assert_eq!(symbols.success().render(), "\x1b[1;32m\u{2713}\x1b[0m");
    assert_eq!(symbols.error().render(), "\x1b[1;31m\u{2717}\x1b[0m");
    assert_eq!(symbols.warning().render(), "\x1b[1;33m\u{26A0}\x1b[0m");
    assert_eq!(symbols.info().render(), "\x1b[1;34m\u{2139}\x1b[0m");
    assert_eq!(symbols.arrow().render(), "\x1b[36m\u{2192}\x1b[0m");
    assert_eq!(Symbols::new(false).arrow().render(), "\u{2192}");
}

#[test]
fn decimal_notation() {
    assert_eq!(decimal(0), "0");
    assert_eq!(decimal(7), "7");
    assert_eq!(decimal(10), "10");
    assert_eq!(decimal(1234567890), "1234567890");
    assert_eq!(decimal(u64::MAX), "18446744073709551615");
}

#[test]
fn stats_keep_what_they_are_not_asked_to_change() {
    let mut stats = ProcessingStats::new();
    assert_eq!(stats.duration, Duration::default());
    stats.add_success(5);
    stats.add_failure();
    stats.set_duration(Duration::from_millis(1500));
    stats.add_skipped();
    assert_eq!(stats.processed, 1);
    assert_eq!(stats.failed, 1);
    assert_eq!(stats.skipped, 1);
    assert_eq!(stats.metadata_removed, 5);
    assert_eq!(stats.duration, Duration::from_millis(1500));
    assert_eq!(stats.total(), 3);
}

#[test]
fn progress_bar_counts_and_remembers_the_file() {
    let mut bar = ProgressBar::new(3);
    assert!(!bar.is_enabled());
    assert_eq!(bar.config.total, 3);
    assert_eq!(bar.config.width, 20);
    assert_eq!(bar.config.filled_char, '\u{2588}');
    assert_eq!(bar.config.empty_char, '\u{2591}');
    assert_eq!(bar.current, 0);
    assert_eq!(bar.current_file, "");
    bar.inc();
    bar.inc();
    bar.set_current_file("a.png");
    assert_eq!(bar.current, 2);
    assert_eq!(bar.current_file, "a.png");
    bar.set(7);
    assert_eq!(bar.current, 7);
    assert_eq!(bar.current_file, "a.png");

    let config = ProgressConfig { total: 9, width: 5, enabled: true, filled_char: '#', empty_char: '.' };
    let bar = ProgressBar::with_config(config);
    assert!(bar.is_enabled());
    assert_eq!(bar.config.width, 5);
    assert_eq!(bar.current, 0);
}

#[test]
fn test_format_size_bytes() {
    assert_eq!(format_size(500), "500 B");
}

#[test]
fn test_format_size_kb() {
    assert_eq!(format_size(2048), "2.0 KB");
}

#[test]
fn test_format_size_mb() {
    assert_eq!(format_size(5 * 1024 * 1024), "5.0 MB");
}

#[test]
fn test_format_size_gb() {
    assert_eq!(format_size(2 * 1024 * 1024 * 1024), "2.0 GB");
}

#[test]
fn test_spinner_creation() {
    let spinner = Spinner::new("Loading...");
    assert_eq!(spinner.message, "Loading...");
    assert_eq!(spinner.current_frame, 0);
}

/// The size as floating-point division and formatting give it.
fn size_by_division(bytes: u64) -> String {
    const KB: u64 = 1024;
    const MB: u64 = KB * 1024;
    const GB: u64 = MB * 1024;

    if bytes >= GB {
        format!("{:.1} GB", bytes as f64 / GB as f64)
    } else if bytes >= MB {
        format!("{:.1} MB", bytes as f64 / MB as f64)
    } else if bytes >= KB {
        format!("{:.1} KB", bytes as f64 / KB as f64)
    } else {
        format!("{} B", bytes)
    }
}

#[test]
fn sizes_round_to_the_nearest_tenth_and_halves_to_even() {
    assert_eq!(format_size(0), "0 B");
    assert_eq!(format_size(1023), "1023 B");
    assert_eq!(format_size(1024), "1.0 KB");
    assert_eq!(format_size(1075), "1.0 KB");
    assert_eq!(format_size(1076), "1.1 KB");
    assert_eq!(format_size(1280), "1.2 KB");
    assert_eq!(format_size(1281), "1.3 KB");
    assert_eq!(format_size(3840), "3.8 KB");
    assert_eq!(format_size(1048575), "1024.0 KB");
    assert_eq!(format_size(1048576), "1.0 MB");
    assert_eq!(format_size(1073741823), "1024.0 MB");
    assert_eq!(format_size(1073741824), "1.0 GB");
    assert_eq!(format_size(u64::MAX), "17179869184.0 GB");
}

#[test]
fn sizes_agree_with_floating_point_division() {
    let mut samples: Vec<u64> = vec![
        0, 1, 999, 1023, 1024, 1025, 1075, 1076, 1280, 1382, 1383, 1536, 3840, 10239, 10240,
        1048575, 1048576, 1310720, 1572864, 1073741823, 1073741824, 1342177280, 1610612736,
        u64::MAX, u64::MAX - 1, u64::MAX - 1023, u64::MAX - 1024, u64::MAX - 2048,
    ];
    for shift in 10..64 {
        let power = 1u64 << shift;
        for delta in [0u64, 1, 2, 3, 51, 52, 102, 103, 153, 154, 205, 256, 511, 512, 513, 767, 768] {
            samples.push(power.wrapping_add(delta));
            samples.push(power.wrapping_sub(delta));
            samples.push(power + power / 2 + delta);
            samples.push((power / 20).wrapping_mul(21).wrapping_add(delta));
        }
    }
    let mut state: u64 = 0x9E3779B97F4A7C15;
    for _ in 0..20000 {
        state = state.wrapping_mul(6364136223846793005).wrapping_add(1442695040888963407);
        samples.push(state);
        samples.push(state >> (state % 64));
    }
    for bytes in samples {
        assert_eq!(format_size(bytes), size_by_division(bytes), "for {}", bytes);
    }
}

#[test]
fn spinner_goes_round_its_frames() {
    let mut spinner = Spinner::with_terminal("Working", true);
    assert_eq!(spinner.frames.len(), 10);
    assert_eq!(spinner.tick(), Some('\u{280B}'));
    assert_eq!(spinner.tick(), Some('\u{2819}'));
    assert_eq!(spinner.current_frame, 2);
    for _ in 0..8 {
        spinner.tick();
    }
    assert_eq!(spinner.current_frame, 0);
    assert_eq!(spinner.tick(), Some('\u{280B}'));

    let mut hidden = Spinner::new("Working");
    assert!(!hidden.enabled);
    assert_eq!(hidden.tick(), None);
    assert_eq!(hidden.current_frame, 0);
}

/// The summary box, each line written by the formatting macros.
fn summary_by_formatting(stats: &ProcessingStats, color_enabled: bool, elapsed: &str) -> Vec<String> {
    let symbols = Symbols::new(color_enabled);
    let vertical = '\u{2502}';
    let inner_width = 38;
    let horizontal_line: String = std::iter::repeat('\u{2500}').take(inner_width).collect();
    let mut lines = Vec::new();

    lines.push(String::new());
    lines.push(format!("\u{256D}{}\u{256E}", horizontal_line));

    let title = "Processing Complete";
    let padding = (inner_width - title.len()) / 2;
    lines.push(format!(
        "{}{:padding$}{}{:rest$}{}",
        vertical,
        "",
        Styled::with_color_support(title, color_enabled).bold().render(),
        "",
        vertical,
        padding = padding,
        rest = inner_width - padding - title.len()
    ));
    lines.push(format!("\u{251C}{}\u{2524}", horizontal_line));

    let processed =
        format!("  {} Processed:  {} files", symbols.success().render(), stats.processed);
    lines.push(format!("{}{:<width$}{}", vertical, processed, vertical, width = inner_width));
    if stats.failed > 0 {
        let failed = format!("  {} Failed:      {} files", symbols.error().render(), stats.failed);
        lines.push(format!("{}{:<width$}{}", vertical, failed, vertical, width = inner_width));
    }
    if stats.skipped > 0 {
        let skipped =
            format!("  {} Skipped:     {} files", symbols.warning().render(), stats.skipped);
        lines.push(format!("{}{:<width$}{}", vertical, skipped, vertical, width = inner_width));
    }
    lines.push(format!("{}{:width$}{}", vertical, "", vertical, width = inner_width));
    let metadata = format!("  Metadata removed: {}", format_size(stats.metadata_removed));
    lines.push(format!("{}{:<width$}{}", vertical, metadata, vertical, width = inner_width));
    let duration = format!("  Time elapsed: {}s", elapsed);
    lines.push(format!("{}{:<width$}{}", vertical, duration, vertical, width = inner_width));
    lines.push(format!("\u{2570}{}\u{256F}", horizontal_line));
    lines
}

#[test]
fn summary_box_has_the_lines_that_formatting_gives() {
    let mut stats = ProcessingStats::new();
    for color_enabled in [false, true] {
        assert_eq!(
            summary_lines(&stats, color_enabled, "0.0"),
            summary_by_formatting(&stats, color_enabled, "0.0")
        );
    }
    stats.add_success(123456);
    stats.add_success(1);
    stats.add_skipped();
    assert_eq!(summary_lines(&stats, false, "1.5"), summary_by_formatting(&stats, false, "1.5"));
    stats.add_failure();
    for color_enabled in [false, true] {
        let lines = summary_lines(&stats, color_enabled, "12.3");
        assert_eq!(lines.len(), 11);
        assert_eq!(lines, summary_by_formatting(&stats, color_enabled, "12.3"));
    }
    let lines = summary_lines(&stats, false, "12.3");
    let side = '\u{2502}';
    assert_eq!(
        lines[4],
        format!("{}  \u{2713} Processed:  2 files{}{}", side, " ".repeat(15), side)
    );
    assert_eq!(
        lines[8],
        format!("{}  Metadata removed: 120.6 KB{}{}", side, " ".repeat(10), side)
    );
    assert_eq!(lines[9], format!("{}  Time elapsed: 12.3s{}{}", side, " ".repeat(17), side));
    assert_eq!(lines[7], format!("{}{}{}", side, " ".repeat(38), side));
    assert_eq!(
        lines[2],
        format!("{}{}Processing Complete{}{}", side, " ".repeat(9), " ".repeat(10), side)
    );
}

#[test]
fn padding_counts_characters() {
    assert_eq!(repeated("ab", 3), "ababab");
    assert_eq!(repeated("x", 0), "");
    assert_eq!(pad_right(String::from("abc"), 5), "abc  ");
    assert_eq!(pad_right(String::from("abcdef"), 5), "abcdef");
    assert_eq!(pad_right(String::from("\u{2713}\u{2713}"), 4), "\u{2713}\u{2713}  ");
    assert_eq!(boxed(String::from("x")).chars().count(), 40);
}
