//! Command-line arguments: the options of a run, parsed by hand.

use crate::error::Error;
use crate::formats::same_text;
use vstd::prelude::*;
use vstd::string::*;

verus! {

/// Application name.
pub const NAME: &'static str = "pmi";

/// Application version.
pub const VERSION: &'static str = "0.1.0";

/// The options of a run.
#[derive(Debug, Clone)]
pub struct Config {
    /// Input paths (files or directories).
    pub paths: Vec<String>,
    /// Output directory for cleaned images.
    pub output_dir: Option<String>,
    /// Process directories recursively.
    pub recursive: bool,
    /// Overwrite existing output files.
    pub force: bool,
    /// Modify files in place.
    pub in_place: bool,
    /// Show detailed processing info.
    pub verbose: bool,
    /// Suppress all output except errors.
    pub quiet: bool,
    /// Show what would be done without making changes.
    pub dry_run: bool,
    /// Show help message.
    pub help: bool,
    /// Show version.
    pub version: bool,
    /// Number of parallel jobs (threads) for processing.
    pub jobs: Option<usize>,
}

/// The options of a run as the contracts see them.
pub struct ConfigView {
    pub paths: Seq<Seq<char>>,
    pub output_dir: Option<Seq<char>>,
    pub recursive: bool,
    pub force: bool,
    pub in_place: bool,
    pub verbose: bool,
    pub quiet: bool,
    pub dry_run: bool,
    pub help: bool,
    pub version: bool,
    pub jobs: Option<usize>,
}

/// What one option does: it changes the options and may use up the
/// argument behind it, or it lacks that argument, or it is not understood.
pub enum Step {
    Go(ConfigView, bool),
    Missing,
    Invalid,
}

/// What a command line comes to.
pub enum Outcome {
    Done(ConfigView),
    Missing,
    Invalid,
}

/// The options before any argument is read.
pub open spec fn default_view() -> ConfigView {
    ConfigView {
        paths: Seq::empty(),
        output_dir: None,
        recursive: false,
        force: false,
        in_place: false,
        verbose: false,
        quiet: false,
        dry_run: false,
        help: false,
        version: false,
        jobs: None,
    }
}

/// A decimal digit.
pub open spec fn is_digit(c: char) -> bool {
    48 <= (c as u32) <= 57
}

/// The number that a sequence of digits denotes.
pub open spec fn digits_value(digits: Seq<char>) -> nat
    decreases digits.len(),
{
    if digits.len() == 0 {
        0
    } else {
        digits_value(digits.drop_last()) * 10 + ((digits.last() as u32) - 48) as nat
    }
}

/// The digits of a number: the text without a leading plus sign.
pub open spec fn digits_of(text: Seq<char>) -> Seq<char> {
    if text.len() > 0 && text[0] == '+' {
        text.subrange(1, text.len() as int)
    } else {
        text
    }
}

/// The number that a text denotes: an optional plus sign and at least one
/// decimal digit.
pub open spec fn unsigned_of(text: Seq<char>) -> Option<nat> {
    let digits = digits_of(text);
    if digits.len() == 0 || !(forall|i: int| 0 <= i < digits.len() ==> is_digit(digits[i])) {
        None
    } else {
        Some(digits_value(digits))
    }
}

/// The number of jobs that a text asks for: a number of at least one that
/// the machine can hold.
pub open spec fn jobs_of(text: Seq<char>) -> Option<usize> {
    match unsigned_of(text) {
        Some(value) => if 1 <= value <= usize::MAX {
            Some(value as usize)
        } else {
            None
        },
        None => None,
    }
}

/// The options after a flag that is given by its long name; `None` where
/// the name is no flag.
pub open spec fn long_flag(config: ConfigView, name: Seq<char>) -> Option<ConfigView> {
    if name == "help"@ {
        Some(ConfigView { help: true, ..config })
    } else if name == "version"@ {
        Some(ConfigView { version: true, ..config })
    } else if name == "recursive"@ {
        Some(ConfigView { recursive: true, ..config })
    } else if name == "force"@ {
        Some(ConfigView { force: true, ..config })
    } else if name == "in-place"@ {
        Some(ConfigView { in_place: true, ..config })
    } else if name == "verbose"@ {
        Some(ConfigView { verbose: true, ..config })
    } else if name == "quiet"@ {
        Some(ConfigView { quiet: true, ..config })
    } else if name == "dry-run"@ {
        Some(ConfigView { dry_run: true, ..config })
    } else {
        None
    }
}

/// The options after a flag that is given by its letter; `None` where the
/// letter is no flag.
pub open spec fn short_flag(config: ConfigView, letter: char) -> Option<ConfigView> {
    if letter == 'h' {
        Some(ConfigView { help: true, ..config })
    } else if letter == 'V' {
        Some(ConfigView { version: true, ..config })
    } else if letter == 'r' {
        Some(ConfigView { recursive: true, ..config })
    } else if letter == 'f' {
        Some(ConfigView { force: true, ..config })
    } else if letter == 'i' {
        Some(ConfigView { in_place: true, ..config })
    } else if letter == 'v' {
        Some(ConfigView { verbose: true, ..config })
    } else if letter == 'q' {
        Some(ConfigView { quiet: true, ..config })
    } else if letter == 'n' {
        Some(ConfigView { dry_run: true, ..config })
    } else {
        None
    }
}

/// What the output directory (`directory` true) or the number of jobs is
/// set to by `value`.
pub open spec fn with_value(config: ConfigView, directory: bool, value: Seq<char>) -> Step {
    if directory {
        Step::Go(ConfigView { output_dir: Some(value), ..config }, false)
    } else {
        match jobs_of(value) {
            Some(jobs) => Step::Go(ConfigView { jobs: Some(jobs), ..config }, false),
            None => Step::Invalid,
        }
    }
}

/// What an option that takes its value from the next argument does.
pub open spec fn with_next(config: ConfigView, directory: bool, next: Option<Seq<char>>) -> Step {
    match next {
        None => Step::Missing,
        Some(value) => match with_value(config, directory, value) {
            Step::Go(changed, _) => Step::Go(changed, true),
            other => other,
        },
    }
}

/// What `--name` does, with `next` the argument behind it.
pub open spec fn long_option(config: ConfigView, name: Seq<char>, next: Option<Seq<char>>) -> Step {
    match long_flag(config, name) {
        Some(changed) => Step::Go(changed, false),
        None => if name == "output-dir"@ {
            with_next(config, true, next)
        } else if name == "jobs"@ {
            with_next(config, false, next)
        } else {
            Step::Invalid
        },
    }
}

/// What `--key=value` does.
pub open spec fn long_option_with_value(config: ConfigView, key: Seq<char>, value: Seq<char>) -> Step {
    if key == "output-dir"@ {
        with_value(config, true, value)
    } else if key == "jobs"@ {
        with_value(config, false, value)
    } else {
        Step::Invalid
    }
}

/// What one letter of `-abc` does: `o` and `j` take the next argument and
/// must stand last.
pub open spec fn short_option(
    config: ConfigView,
    letter: char,
    is_last: bool,
    next: Option<Seq<char>>,
) -> Step {
    match short_flag(config, letter) {
        Some(changed) => Step::Go(changed, false),
        None => if letter == 'o' || letter == 'j' {
            if is_last {
                with_next(config, letter == 'o', next)
            } else {
                Step::Invalid
            }
        } else {
            Step::Invalid
        },
    }
}

/// What the letters of `arg` from index `at` on do, one after the other.
pub open spec fn short_options(
    config: ConfigView,
    arg: Seq<char>,
    at: int,
    next: Option<Seq<char>>,
    used: bool,
) -> Step
    decreases arg.len() - at,
{
    if at < 1 || at >= arg.len() {
        Step::Go(config, used)
    } else {
        match short_option(config, arg[at], at == arg.len() - 1, next) {
            Step::Go(changed, taken) => short_options(changed, arg, at + 1, next, used || taken),
            other => other,
        }
    }
}

/// The index of the first `c` in `text` from `from` on, or the length.
pub open spec fn index_of(text: Seq<char>, c: char, from: int) -> int
    decreases text.len() - from,
{
    if from < 0 || from >= text.len() {
        text.len() as int
    } else if text[from] == c {
        from
    } else {
        index_of(text, c, from + 1)
    }
}

/// What one argument does, with `next` the argument behind it: a long
/// option with or without a value, a group of letters, or a path.
pub open spec fn argument(config: ConfigView, arg: Seq<char>, next: Option<Seq<char>>) -> Step {
    if arg.len() >= 2 && arg[0] == '-' && arg[1] == '-' {
        let eq = index_of(arg, '=', 2);
        if eq < arg.len() {
            long_option_with_value(
                config,
                arg.subrange(2, eq),
                arg.subrange(eq + 1, arg.len() as int),
            )
        } else {
            long_option(config, arg.subrange(2, arg.len() as int), next)
        }
    } else if arg.len() > 1 && arg[0] == '-' {
        short_options(config, arg, 1, next, false)
    } else {
        Step::Go(ConfigView { paths: config.paths.push(arg), ..config }, false)
    }
}

/// The check behind the last argument: paths are needed unless help or
/// the version is asked for, and quiet and verbose exclude each other.
pub open spec fn finished(config: ConfigView) -> Outcome {
    if !config.help && !config.version && config.paths.len() == 0 {
        Outcome::Missing
    } else if config.quiet && config.verbose {
        Outcome::Invalid
    } else {
        Outcome::Done(config)
    }
}

/// The argument behind index `at`, where there is one.
pub open spec fn next_of(args: Seq<Seq<char>>, at: int) -> Option<Seq<char>> {
    if 0 <= at && at + 1 < args.len() {
        Some(args[at + 1])
    } else {
        None
    }
}

/// What the arguments from index `at` on come to.
pub open spec fn parse_from(args: Seq<Seq<char>>, at: int, config: ConfigView) -> Outcome
    decreases args.len() - at,
{
    if at < 0 || at >= args.len() {
        finished(config)
    } else {
        match argument(config, args[at], next_of(args, at)) {
            Step::Go(changed, used) => if used && at + 2 <= args.len() {
                parse_from(args, at + 2, changed)
            } else {
                parse_from(args, at + 1, changed)
            },
            Step::Missing => Outcome::Missing,
            Step::Invalid => Outcome::Invalid,
        }
    }
}

/// What a command line comes to; its first argument, the program's name,
/// is passed over.
pub open spec fn parsed(args: Seq<Seq<char>>) -> Outcome {
    parse_from(args, 1, default_view())
}

/// The texts of a list of arguments.
pub open spec fn texts(args: Seq<&str>) -> Seq<Seq<char>> {
    args.map_values(|arg: &str| arg@)
}

/// Whether `result` is what `step` asks for: the options changed and the
/// use of the next argument reported, or the matching error with the
/// options as they were.
pub open spec fn follows(step: Step, before: ConfigView, after: ConfigView, result: Result<bool, Error>) -> bool {
    match step {
        Step::Go(changed, used) => result == Ok::<bool, Error>(used) && after == changed,
        Step::Missing => result.is_err() && result.unwrap_err().is_missing_argument(),
        Step::Invalid => result.is_err() && result.unwrap_err().is_invalid_argument(),
    }
}

impl View for Config {
    type V = ConfigView;

    open spec fn view(&self) -> ConfigView {
        ConfigView {
            paths: self.paths@.map_values(|path: String| path@),
            output_dir: match self.output_dir {
                Some(dir) => Some(dir@),
                None => None,
            },
            recursive: self.recursive,
            force: self.force,
            in_place: self.in_place,
            verbose: self.verbose,
            quiet: self.quiet,
            dry_run: self.dry_run,
            help: self.help,
            version: self.version,
            jobs: self.jobs,
        }
    }
}

impl Default for Config {
    fn default() -> (config: Config)
        ensures
            config@ == default_view(),
    {
        let config = Config {
            paths: Vec::new(),
            output_dir: None,
            recursive: false,
            force: false,
            in_place: false,
            verbose: false,
            quiet: false,
            dry_run: false,
            help: false,
            version: false,
            jobs: None,
        };
        assert(config@.paths =~= Seq::<Seq<char>>::empty());
        config
    }
}

/// The text of one character, by `char::to_string`: the string that holds
/// that character and nothing else.
#[verifier::external_body]
fn letter_text(letter: char) -> (text: String)
    ensures
        text@ == seq![letter],
{
    letter.to_string()
}

/// The help text behind its first line.
pub const HELP_BODY: &'static str = " - Protect My Images

Strip metadata from images to protect your privacy.

USAGE:
    pmi [OPTIONS] <PATHS>...

ARGUMENTS:
    <PATHS>...    Image files or directories to process

OPTIONS:
    -o, --output-dir <DIR>    Save cleaned images to specified directory
    -r, --recursive           Process directories recursively
    -f, --force               Overwrite existing output files
    -i, --in-place            Modify files in place (default: create *_clean suffix)
    -j, --jobs <N>            Number of parallel threads (default: auto-detect CPU cores)
    -v, --verbose             Show detailed processing information
    -q, --quiet               Suppress all output except errors
    -n, --dry-run             Show what would be done without making changes
    -h, --help                Print this help message
    -V, --version             Print version information

EXAMPLES:
    pmi photo.jpg                      Create photo_clean.jpg
    pmi -i photo.jpg                   Overwrite photo.jpg in place
    pmi -o ./clean/ *.jpg              Output to ./clean/ directory
    pmi -r ./photos/                   Process directory recursively
    pmi -j 4 -r ./photos/              Process with 4 threads
    pmi -n -v ./photos/                Dry run with verbose output

SUPPORTED FORMATS:
    JPEG (.jpg, .jpeg)
    PNG  (.png)
    GIF  (.gif)
    WebP (.webp)
    TIFF (.tif, .tiff)
";

/// Generate the version message: name and version.
pub fn version_message() -> (text: String)
    ensures
        text@ == NAME@ + " "@ + VERSION@,
{
    String::from_str(NAME).concat(" ").concat(VERSION)
}

/// Generate the help message: the version message and the help text.
pub fn help_message() -> (text: String)
    ensures
        text@ == NAME@ + " "@ + VERSION@ + HELP_BODY@,
{
    version_message().concat(HELP_BODY)
}

/// All digits up to an index denote no more than all digits do.
pub proof fn lemma_digits_value_grows(digits: Seq<char>, upto: int)
    requires
        0 <= upto <= digits.len(),
    ensures
        digits_value(digits.subrange(0, upto)) <= digits_value(digits),
    decreases digits.len() - upto,
{
    if upto < digits.len() {
        lemma_digits_value_grows(digits, upto + 1);
        let longer = digits.subrange(0, upto + 1);
        assert(longer.drop_last() =~= digits.subrange(0, upto));
    } else {
        assert(digits.subrange(0, upto) =~= digits);
    }
}

/// Reads a number: an optional plus sign and at least one decimal digit.
/// `None` where the text is none, or the number is more than the machine
/// can hold.
pub fn parse_unsigned(value: &str) -> (number: Option<usize>)
    ensures
        number == match unsigned_of(value@) {
            Some(v) => if v <= usize::MAX {
                Some(v as usize)
            } else {
                None
            },
            None => None,
        },
{
    let n: usize = value.unicode_len();
    let start: usize = if n > 0 && value.get_char(0) == '+' {
        1
    } else {
        0
    };
    let ghost digits = digits_of(value@);
    assert(digits =~= value@.subrange(start as int, n as int));
    if start == n {
        return None;
    }
    let mut total: usize = 0;
    let mut k: usize = start;
    proof {
        assert(digits.subrange(0, 0) =~= Seq::<char>::empty());
    }
    while k < n
        invariant
            n == value@.len(),
            start <= k <= n,
            start < n,
            digits == value@.subrange(start as int, n as int),
            digits == digits_of(value@),
            forall|i: int| 0 <= i < k - start ==> is_digit(digits[i]),
            total == digits_value(digits.subrange(0, k - start)),
        decreases n - k,
    {
        let c: char = value.get_char(k);
        let code: u32 = c as u32;
        assert(digits[k - start] == c);
        if code < 48 || code > 57 {
            assert(!is_digit(digits[k - start]));
            return None;
        }
        let d: usize = (code - 48) as usize;
        proof {
            let longer = digits.subrange(0, k - start + 1);
            assert(longer.drop_last() =~= digits.subrange(0, k - start));
            assert(longer.last() == c);
        }
        if total > (usize::MAX - d) / 10 {
            proof {
                let longer = digits.subrange(0, k - start + 1);
                assert(digits_value(longer) == total * 10 + d);
                assert(total * 10 + d > usize::MAX);
                lemma_digits_value_grows(digits, k - start + 1);
            }
            return None;
        }
        total = total * 10 + d;
        k += 1;
    }
    proof {
        assert(digits.subrange(0, n - start) =~= digits);
    }
    Some(total)
}

/// Parse a jobs value (positive integer).
pub fn parse_jobs(value: &str) -> (result: Result<usize, Error>)
    ensures
        match jobs_of(value@) {
            Some(jobs) => result == Ok::<usize, Error>(jobs),
            None => result.is_err() && result.unwrap_err().is_invalid_argument(),
        },
{
    match parse_unsigned(value) {
        None => Err(
            Error::InvalidArgument {
                argument: String::from_str("--jobs"),
                reason: String::from_str("'").concat(value).concat("' is not a valid number"),
            },
        ),
        Some(n) => {
            if n == 0 {
                Err(
                    Error::InvalidArgument {
                        argument: String::from_str("--jobs"),
                        reason: String::from_str("Number of jobs must be at least 1"),
                    },
                )
            } else {
                Ok(n)
            }
        },
    }
}

/// Finds the first `c` in `text` from `from` on; the length where there
/// is none.
pub fn find_char(text: &str, c: char, from: usize) -> (at: usize)
    ensures
        at == index_of(text@, c, from as int),
        at <= text@.len(),
        from <= text@.len() ==> from <= at,
{
    let n: usize = text.unicode_len();
    if from >= n {
        return n;
    }
    let mut at: usize = from;
    while at < n
        invariant
            n == text@.len(),
            from <= at <= n,
            index_of(text@, c, from as int) == index_of(text@, c, at as int),
        decreases n - at,
    {
        if text.get_char(at) == c {
            return at;
        }
        at += 1;
    }
    n
}

impl Config {
    /// Sets the flag of the long name given; false where it is no flag.
    pub fn set_long_flag(&mut self, name: &str) -> (known: bool)
        ensures
            match long_flag(old(self)@, name@) {
                Some(changed) => known && final(self)@ == changed,
                None => !known && final(self)@ == old(self)@,
            },
    {
        if same_text(name, "help") {
            self.help = true;
        } else if same_text(name, "version") {
            self.version = true;
        } else if same_text(name, "recursive") {
            self.recursive = true;
        } else if same_text(name, "force") {
            self.force = true;
        } else if same_text(name, "in-place") {
            self.in_place = true;
        } else if same_text(name, "verbose") {
            self.verbose = true;
        } else if same_text(name, "quiet") {
            self.quiet = true;
        } else if same_text(name, "dry-run") {
            self.dry_run = true;
        } else {
            return false;
        }
        true
    }

    /// Sets the flag of the letter given; false where it is no flag.
    pub fn set_short_flag(&mut self, letter: char) -> (known: bool)
        ensures
            match short_flag(old(self)@, letter) {
                Some(changed) => known && final(self)@ == changed,
                None => !known && final(self)@ == old(self)@,
            },
    {
        if letter == 'h' {
            self.help = true;
        } else if letter == 'V' {
            self.version = true;
        } else if letter == 'r' {
            self.recursive = true;
        } else if letter == 'f' {
            self.force = true;
        } else if letter == 'i' {
            self.in_place = true;
        } else if letter == 'v' {
            self.verbose = true;
        } else if letter == 'q' {
            self.quiet = true;
        } else if letter == 'n' {
            self.dry_run = true;
        } else {
            return false;
        }
        true
    }

    /// Sets the output directory (`directory` true) or the number of jobs.
    pub fn set_value(&mut self, directory: bool, value: &str) -> (result: Result<bool, Error>)
        ensures
            follows(with_value(old(self)@, directory, value@), old(self)@, final(self)@, result),
    {
        if directory {
            self.output_dir = Some(String::from_str(value));
            Ok(false)
        } else {
            match parse_jobs(value) {
                Ok(jobs) => {
                    self.jobs = Some(jobs);
                    Ok(false)
                },
                Err(error) => Err(error),
            }
        }
    }

    /// Sets the output directory or the number of jobs from the next
    /// argument, which `name` asks for.
    pub fn set_from_next(&mut self, directory: bool, next: Option<&str>, name: &str) -> (result:
        Result<bool, Error>)
        ensures
            follows(
                with_next(
                    old(self)@,
                    directory,
                    match next {
                        Some(value) => Some(value@),
                        None => None,
                    },
                ),
                old(self)@,
                final(self)@,
                result,
            ),
    {
        match next {
            None => Err(Error::MissingArgument { argument: String::from_str(name) }),
            Some(value) => match self.set_value(directory, value) {
                Ok(_) => Ok(true),
                Err(error) => Err(error),
            },
        }
    }

    /// Handles `--opt`; reports whether it used the next argument.
    pub fn handle_long_option(&mut self, opt: &str, next: Option<&str>) -> (result: Result<
        bool,
        Error,
    >)
        ensures
            follows(
                long_option(
                    old(self)@,
                    opt@,
                    match next {
                        Some(value) => Some(value@),
                        None => None,
                    },
                ),
                old(self)@,
                final(self)@,
                result,
            ),
    {
        if self.set_long_flag(opt) {
            Ok(false)
        } else if same_text(opt, "output-dir") {
            self.set_from_next(true, next, "--output-dir <DIR>")
        } else if same_text(opt, "jobs") {
            self.set_from_next(false, next, "--jobs <N>")
        } else {
            Err(
                Error::InvalidArgument {
                    argument: String::from_str("--").concat(opt),
                    reason: String::from_str("Unknown option"),
                },
            )
        }
    }

    /// Handles `--key=value`.
    pub fn handle_long_option_with_value(&mut self, key: &str, value: &str) -> (result: Result<
        bool,
        Error,
    >)
        ensures
            follows(
                long_option_with_value(old(self)@, key@, value@),
                old(self)@,
                final(self)@,
                result,
            ),
    {
        if same_text(key, "output-dir") {
            self.set_value(true, value)
        } else if same_text(key, "jobs") {
            self.set_value(false, value)
        } else {
            Err(
                Error::InvalidArgument {
                    argument: String::from_str("--").concat(key),
                    reason: String::from_str("Unknown option or option does not take a value"),
                },
            )
        }
    }

    /// Handles one letter of a group; reports whether it used the next
    /// argument.
    pub fn handle_short_option(&mut self, c: char, is_last: bool, next: Option<&str>) -> (result:
        Result<bool, Error>)
        ensures
            follows(
                short_option(
                    old(self)@,
                    c,
                    is_last,
                    match next {
                        Some(value) => Some(value@),
                        None => None,
                    },
                ),
                old(self)@,
                final(self)@,
                result,
            ),
    {
        if self.set_short_flag(c) {
            Ok(false)
        } else if c == 'o' {
            if !is_last {
                return Err(
                    Error::InvalidArgument {
                        argument: String::from_str("-o"),
                        reason: String::from_str("-o must be the last option in a combined flag"),
                    },
                );
            }
            self.set_from_next(true, next, "-o <DIR>")
        } else if c == 'j' {
            if !is_last {
                return Err(
                    Error::InvalidArgument {
                        argument: String::from_str("-j"),
                        reason: String::from_str("-j must be the last option in a combined flag"),
                    },
                );
            }
            self.set_from_next(false, next, "-j <N>")
        } else {
            Err(
                Error::InvalidArgument {
                    argument: String::from_str("-").concat(letter_text(c).as_str()),
                    reason: String::from_str("Unknown option"),
                },
            )
        }
    }

    /// Handles one argument; reports whether it used the next one.
    pub fn handle_argument(&mut self, arg: &str, next: Option<&str>) -> (result: Result<
        bool,
        Error,
    >)
        ensures
            follows(
                argument(
                    old(self)@,
                    arg@,
                    match next {
                        Some(value) => Some(value@),
                        None => None,
                    },
                ),
                old(self)@,
                final(self)@,
                result,
            ),
    {
        let n: usize = arg.unicode_len();
        if n >= 2 && arg.get_char(0) == '-' && arg.get_char(1) == '-' {
            let eq: usize = find_char(arg, '=', 2);
            if eq < n {
                self.handle_long_option_with_value(
                    arg.substring_char(2, eq),
                    arg.substring_char(eq + 1, n),
                )
            } else {
                self.handle_long_option(arg.substring_char(2, n), next)
            }
        } else if n > 1 && arg.get_char(0) == '-' {
            let ghost spec_next: Option<Seq<char>> = match next {
                Some(value) => Some(value@),
                None => None,
            };
            let mut used: bool = false;
            let mut at: usize = 1;
            while at < n
                invariant
                    n == arg@.len(),
                    1 <= at <= n,
                    spec_next == (match next {
                        Some(value) => Some(value@),
                        None => None,
                    }),
                    argument(old(self)@, arg@, spec_next) == short_options(
                        old(self)@,
                        arg@,
                        1,
                        spec_next,
                        false,
                    ),
                    short_options(old(self)@, arg@, 1, spec_next, false) == short_options(
                        self@,
                        arg@,
                        at as int,
                        spec_next,
                        used,
                    ),
                decreases n - at,
            {
                match self.handle_short_option(arg.get_char(at), at == n - 1, next) {
                    Ok(taken) => {
                        used = used || taken;
                    },
                    Err(error) => {
                        return Err(error);
                    },
                }
                at += 1;
            }
            Ok(used)
        } else {
            let ghost before = self.paths@;
            self.paths.push(String::from_str(arg));
            proof {
                assert(self@.paths =~= old(self)@.paths.push(arg@));
            }
            Ok(false)
        }
    }

    /// Parse configuration from command-line arguments, the first of
    /// which is the program's name.
    pub fn parse(args: &[&str]) -> (result: Result<Config, Error>)
        ensures
            match parsed(texts(args@)) {
                Outcome::Done(view) => result.is_ok() && result.unwrap()@ == view,
                Outcome::Missing => result.is_err() && result.unwrap_err().is_missing_argument(),
                Outcome::Invalid => result.is_err() && result.unwrap_err().is_invalid_argument(),
            },
    {
        let mut config = Config::default();
        let count: usize = args.len();
        let mut at: usize = 1;
        while at < count
            invariant
                count == args@.len(),
                1 <= at,
                parsed(texts(args@)) == parse_from(texts(args@), at as int, config@),
            decreases count - at,
        {
            let next: Option<&str> = if at + 1 < count {
                Some(args[at + 1])
            } else {
                None
            };
            proof {
                assert(texts(args@)[at as int] == args@[at as int]@);
                if at + 1 < count {
                    assert(texts(args@)[at + 1] == args@[at + 1]@);
                }
            }
            match config.handle_argument(args[at], next) {
                Ok(used) => {
                    if used && count - at >= 2 {
                        at += 2;
                    } else {
                        at += 1;
                    }
                },
                Err(error) => {
                    return Err(error);
                },
            }
        }
        if !config.help && !config.version && config.paths.len() == 0 {
            return Err(Error::MissingArgument { argument: String::from_str("<PATHS>") });
        }
        if config.quiet && config.verbose {
            return Err(
                Error::InvalidArgument {
                    argument: String::from_str("--quiet, --verbose"),
                    reason: String::from_str("Cannot use both --quiet and --verbose"),
                },
            );
        }
        Ok(config)
    }
}

} // verus!
