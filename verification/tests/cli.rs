use pmi::cli::{find_char, help_message, parse_jobs, parse_unsigned, version_message, Config};
use pmi::error::Error;

#[test]
fn test_parse_single_path() {
    let config = Config::parse(&["pmi", "photo.jpg"]).unwrap();
    assert_eq!(config.paths.len(), 1);
    assert_eq!(config.paths[0], String::from("photo.jpg"));
}

#[test]
fn test_parse_multiple_paths() {
    let config = Config::parse(&["pmi", "a.jpg", "b.png", "c.gif"]).unwrap();
    assert_eq!(config.paths.len(), 3);
}

#[test]
fn test_parse_help_short() {
    let config = Config::parse(&["pmi", "-h"]).unwrap();
    assert!(config.help);
}

#[test]
fn test_parse_help_long() {
    let config = Config::parse(&["pmi", "--help"]).unwrap();
    assert!(config.help);
}

#[test]
fn test_parse_version_short() {
    let config = Config::parse(&["pmi", "-V"]).unwrap();
    assert!(config.version);
}

#[test]
fn test_parse_version_long() {
    let config = Config::parse(&["pmi", "--version"]).unwrap();
    assert!(config.version);
}

#[test]
fn test_parse_recursive() {
    let config = Config::parse(&["pmi", "-r", "dir/"]).unwrap();
    assert!(config.recursive);
}

#[test]
fn test_parse_force() {
    let config = Config::parse(&["pmi", "--force", "file.jpg"]).unwrap();
    assert!(config.force);
}

#[test]
fn test_parse_in_place() {
    let config = Config::parse(&["pmi", "-i", "file.jpg"]).unwrap();
    assert!(config.in_place);
}

#[test]
fn test_parse_verbose() {
    let config = Config::parse(&["pmi", "-v", "file.jpg"]).unwrap();
    assert!(config.verbose);
}

#[test]
fn test_parse_quiet() {
    let config = Config::parse(&["pmi", "-q", "file.jpg"]).unwrap();
    assert!(config.quiet);
}

#[test]
fn test_parse_dry_run() {
    let config = Config::parse(&["pmi", "-n", "file.jpg"]).unwrap();
    assert!(config.dry_run);
}

#[test]
fn test_parse_output_dir_short() {
    let config = Config::parse(&["pmi", "-o", "/output", "file.jpg"]).unwrap();
    assert_eq!(config.output_dir, Some(String::from("/output")));
}

#[test]
fn test_parse_output_dir_long() {
    let config = Config::parse(&["pmi", "--output-dir", "/output", "file.jpg"]).unwrap();
    assert_eq!(config.output_dir, Some(String::from("/output")));
}

#[test]
fn test_parse_output_dir_equals() {
    let config = Config::parse(&["pmi", "--output-dir=/output", "file.jpg"]).unwrap();
    assert_eq!(config.output_dir, Some(String::from("/output")));
}

#[test]
fn test_parse_combined_short_flags() {
    let config = Config::parse(&["pmi", "-rfv", "dir/"]).unwrap();
    assert!(config.recursive);
    assert!(config.force);
    assert!(config.verbose);
}

#[test]
fn test_parse_combined_flags_with_value() {
    let config = Config::parse(&["pmi", "-rfo", "/output", "dir/"]).unwrap();
    assert!(config.recursive);
    assert!(config.force);
    assert_eq!(config.output_dir, Some(String::from("/output")));
}

#[test]
fn test_missing_paths() {
    let result = Config::parse(&["pmi"]);
    assert!(result.is_err());
}

#[test]
fn test_quiet_and_verbose_conflict() {
    let result = Config::parse(&["pmi", "-q", "-v", "file.jpg"]);
    assert!(result.is_err());
}

#[test]
fn test_unknown_long_option() {
    let result = Config::parse(&["pmi", "--unknown", "file.jpg"]);
    assert!(result.is_err());
}

#[test]
fn test_unknown_short_option() {
    let result = Config::parse(&["pmi", "-x", "file.jpg"]);
    assert!(result.is_err());
}

#[test]
fn test_missing_output_dir_value() {
    let result = Config::parse(&["pmi", "-o"]);
    assert!(result.is_err());
}

#[test]
fn test_help_message_contains_usage() {
    let help = help_message();
    assert!(help.contains("USAGE:"));
    assert!(help.contains("OPTIONS:"));
    assert!(help.contains("EXAMPLES:"));
}

#[test]
fn test_version_message() {
    let version = version_message();
    assert!(version.contains("pmi"));
}

#[test]
fn test_parse_jobs_short() {
    let config = Config::parse(&["pmi", "-j", "4", "file.jpg"]).unwrap();
    assert_eq!(config.jobs, Some(4));
}

#[test]
fn test_parse_jobs_long() {
    let config = Config::parse(&["pmi", "--jobs", "8", "file.jpg"]).unwrap();
    assert_eq!(config.jobs, Some(8));
}

#[test]
fn test_parse_jobs_equals() {
    let config = Config::parse(&["pmi", "--jobs=12", "file.jpg"]).unwrap();
    assert_eq!(config.jobs, Some(12));
}

#[test]
fn test_parse_jobs_invalid() {
    let result = Config::parse(&["pmi", "-j", "abc", "file.jpg"]);
    assert!(result.is_err());
}

#[test]
fn test_parse_jobs_zero() {
    let result = Config::parse(&["pmi", "-j", "0", "file.jpg"]);
    assert!(result.is_err());
}

#[test]
fn test_parse_jobs_missing_value() {
    let result = Config::parse(&["pmi", "-j"]);
    assert!(result.is_err());
}

#[test]
fn test_parse_jobs_combined_flags() {
    let config = Config::parse(&["pmi", "-rvj", "4", "dir/"]).unwrap();
    assert!(config.recursive);
    assert!(config.verbose);
    assert_eq!(config.jobs, Some(4));
}

#[test]
fn test_cli_parse_basic() {
    let config = Config::parse(&["pmi", "image.jpg"]).unwrap();
    assert_eq!(config.paths.len(), 1);
    assert!(!config.verbose);
    assert!(!config.quiet);
}

#[test]
fn test_cli_parse_flags() {
    let config = Config::parse(&["pmi", "-i", "-v", "image.jpg"]).unwrap();
    assert!(config.in_place);
    assert!(config.verbose);
}

#[test]
fn test_cli_parse_output_dir() {
    let config = Config::parse(&["pmi", "-o", "/output", "image.jpg"]).unwrap();
    assert_eq!(config.output_dir, Some(String::from("/output")));
}

#[test]
fn test_cli_help_flag() {
    let config = Config::parse(&["pmi", "--help"]).unwrap();
    assert!(config.help);
}

#[test]
fn test_cli_version_flag() {
    let config = Config::parse(&["pmi", "-V"]).unwrap();
    assert!(config.version);
}

#[test]
fn test_cli_missing_paths() {
    let result = Config::parse(&["pmi"]);
    assert!(result.is_err());
}

#[test]
fn test_cli_quiet_verbose_conflict() {
    let result = Config::parse(&["pmi", "-q", "-v", "image.jpg"]);
    assert!(result.is_err());
}

#[test]
fn parse_reports_the_kind_of_error() {
    assert!(matches!(Config::parse(&["pmi"]), Err(Error::MissingArgument { .. })));
    assert!(matches!(Config::parse(&[]), Err(Error::MissingArgument { .. })));
    assert!(matches!(Config::parse(&["pmi", "-o"]), Err(Error::MissingArgument { .. })));
    assert!(matches!(Config::parse(&["pmi", "--jobs"]), Err(Error::MissingArgument { .. })));
    assert!(matches!(Config::parse(&["pmi", "-q", "-v", "a"]), Err(Error::InvalidArgument { .. })));
    assert!(matches!(Config::parse(&["pmi", "--nope", "a"]), Err(Error::InvalidArgument { .. })));
    assert!(matches!(Config::parse(&["pmi", "--", "a"]), Err(Error::InvalidArgument { .. })));
    assert!(matches!(Config::parse(&["pmi", "--help=1", "a"]), Err(Error::InvalidArgument { .. })));
    assert!(matches!(Config::parse(&["pmi", "-or", "x", "a"]), Err(Error::InvalidArgument { .. })));
    assert!(matches!(Config::parse(&["pmi", "-jr", "2", "a"]), Err(Error::InvalidArgument { .. })));
    assert!(matches!(Config::parse(&["pmi", "-j", "0", "a"]), Err(Error::InvalidArgument { .. })));
}

#[test]
fn parse_error_texts() {
    let error = Config::parse(&["pmi", "-x", "a"]).unwrap_err();
    assert_eq!(error.message(), "Invalid argument '-x': Unknown option");
    let error = Config::parse(&["pmi", "--nope", "a"]).unwrap_err();
    assert_eq!(error.message(), "Invalid argument '--nope': Unknown option");
    let error = Config::parse(&["pmi", "-j", "abc", "a"]).unwrap_err();
    assert_eq!(error.message(), "Invalid argument '--jobs': 'abc' is not a valid number");
    let error = Config::parse(&["pmi", "-o"]).unwrap_err();
    assert_eq!(error.message(), "Missing required argument: -o <DIR>");
    let error = Config::parse(&["pmi"]).unwrap_err();
    assert_eq!(error.message(), "Missing required argument: <PATHS>");
}

#[test]
fn parse_keeps_the_order_of_paths_and_the_last_value() {
    let config = Config::parse(&["pmi", "b", "-o", "x", "a", "--output-dir=y", "-", "c"]).unwrap();
    assert_eq!(config.paths, vec!["b", "a", "-", "c"]);
    assert_eq!(config.output_dir.as_deref(), Some("y"));
    assert_eq!(config.jobs, None);
    assert!(!config.recursive && !config.force && !config.in_place && !config.dry_run);
}

#[test]
fn parse_takes_a_value_that_looks_like_an_option() {
    let config = Config::parse(&["pmi", "-o", "-v", "a"]).unwrap();
    assert_eq!(config.output_dir.as_deref(), Some("-v"));
    assert!(!config.verbose);
    let config = Config::parse(&["pmi", "--output-dir=a=b", "a"]).unwrap();
    assert_eq!(config.output_dir.as_deref(), Some("a=b"));
    let config = Config::parse(&["pmi", "--output-dir=", "a"]).unwrap();
    assert_eq!(config.output_dir.as_deref(), Some(""));
}

#[test]
fn help_and_version_need_no_paths() {
    assert!(Config::parse(&["pmi", "-h"]).unwrap().paths.is_empty());
    assert!(Config::parse(&["pmi", "--version"]).unwrap().version);
    let config = Config::default();
    assert!(config.paths.is_empty() && config.output_dir.is_none() && config.jobs.is_none());
    assert!(!config.help && !config.version && !config.quiet && !config.verbose);
}

#[test]
fn numbers_are_read_as_the_standard_library_reads_them() {
    for text in [
        "0", "1", "007", "+5", "42", "18446744073709551615", "18446744073709551616",
        "99999999999999999999999", "", "+", "-1", "1 ", " 1", "1_0", "0x10", "++1", "12a",
        "\u{0661}",
    ] {
        assert_eq!(parse_unsigned(text), text.parse::<usize>().ok(), "for {:?}", text);
    }
    assert_eq!(parse_jobs("16").unwrap(), 16);
    assert!(parse_jobs("+0").is_err());
}

#[test]
fn first_occurrence_of_a_character() {
    assert_eq!(find_char("--a=b=c", '=', 2), 3);
    assert_eq!(find_char("--a=b=c", '=', 4), 5);
    assert_eq!(find_char("--abc", '=', 2), 5);
    assert_eq!(find_char("=", '=', 2), 1);
}

#[test]
fn messages_name_the_program() {
    assert_eq!(version_message(), "pmi 0.1.0");
    assert!(help_message().starts_with("pmi 0.1.0 - Protect My Images\n"));
    assert!(help_message().contains("-j, --jobs <N>"));
}
