//! ANSI colour codes and terminal styling.

use crate::error::{decimal, decimal_of, digit, digit_of};
use vstd::prelude::*;
use vstd::string::*;

verus! {

/// Terminal colors.
#[derive(Debug, Clone, Copy, PartialEq, Eq, Structural)]
pub enum Color {
    Black,
    Red,
    Green,
    Yellow,
    Blue,
    Magenta,
    Cyan,
    White,
    Default,
    /// 256-color mode (0-255).
    Color256(u8),
}

/// Text style attributes.
#[derive(Debug, Clone, Copy, PartialEq, Eq, Structural)]
pub enum Style {
    Bold,
    Dim,
    Italic,
    Underline,
}

/// A styled string with color and formatting.
#[derive(Debug, Clone)]
pub struct Styled {
    content: String,
    color: Option<Color>,
    styles: Vec<Style>,
    enabled: bool,
}

/// What a styled string holds.
pub struct StyledView {
    pub content: Seq<char>,
    pub color: Option<Color>,
    pub styles: Seq<Style>,
    pub enabled: bool,
}

/// Message symbols with colors.
pub struct Symbols {
    enabled: bool,
}

/// The escape sequence that starts a list of codes.
pub open spec fn escape() -> Seq<char> {
    "\x1b["@
}

/// The escape sequence that ends all styling.
pub open spec fn reset() -> Seq<char> {
    "\x1b[0m"@
}

/// The style codes, separated by semicolons.
pub open spec fn style_codes(styles: Seq<Style>) -> Seq<char>
    decreases styles.len(),
{
    if styles.len() == 0 {
        Seq::empty()
    } else if styles.len() == 1 {
        styles[0].code_of()
    } else {
        style_codes(styles.drop_last()) + ";"@ + styles.last().code_of()
    }
}

/// All codes of a styled string, separated by semicolons: the styles in
/// the order they were added, then the colour.
pub open spec fn codes(styled: StyledView) -> Seq<char> {
    match styled.color {
        None => style_codes(styled.styles),
        Some(color) => if styled.styles.len() == 0 {
            color.fg_code_of()
        } else {
            style_codes(styled.styles) + ";"@ + color.fg_code_of()
        },
    }
}

/// The text that a styled string is written as: the content alone where
/// colour is disabled or nothing was asked for, else the content between
/// its codes and a reset.
pub open spec fn rendered(styled: StyledView) -> Seq<char> {
    if !styled.enabled || (styled.color.is_none() && styled.styles.len() == 0) {
        styled.content
    } else {
        escape() + codes(styled) + "m"@ + styled.content + reset()
    }
}

/// The view of a styled string after one more style: unchanged where it
/// has the style already.
pub open spec fn with_style(styled: StyledView, style: Style) -> StyledView {
    if styled.styles.contains(style) {
        styled
    } else {
        StyledView { styles: styled.styles.push(style), ..styled }
    }
}

/// The view of a styled string after its colour is set.
pub open spec fn with_color(styled: StyledView, color: Color) -> StyledView {
    StyledView { color: Some(color), ..styled }
}

/// A plain string, before any colour or style.
pub open spec fn plain(content: Seq<char>, enabled: bool) -> StyledView {
    StyledView { content, color: None, styles: Seq::empty(), enabled }
}

impl Color {
    /// The ANSI foreground colour code.
    pub open spec fn fg_code_of(self) -> Seq<char> {
        match self {
            Color::Black => "30"@,
            Color::Red => "31"@,
            Color::Green => "32"@,
            Color::Yellow => "33"@,
            Color::Blue => "34"@,
            Color::Magenta => "35"@,
            Color::Cyan => "36"@,
            Color::White => "37"@,
            Color::Default => "39"@,
            Color::Color256(n) => "38;5;"@ + decimal_of(n as nat),
        }
    }

    /// Get the ANSI foreground color code.
    pub fn fg_code(self) -> (code: String)
        ensures
            code@ == self.fg_code_of(),
    {
        match self {
            Color::Black => String::from_str("30"),
            Color::Red => String::from_str("31"),
            Color::Green => String::from_str("32"),
            Color::Yellow => String::from_str("33"),
            Color::Blue => String::from_str("34"),
            Color::Magenta => String::from_str("35"),
            Color::Cyan => String::from_str("36"),
            Color::White => String::from_str("37"),
            Color::Default => String::from_str("39"),
            Color::Color256(n) => String::from_str("38;5;").concat(decimal(n as u64).as_str()),
        }
    }
}

impl Style {
    /// The ANSI style code.
    pub open spec fn code_of(self) -> Seq<char> {
        match self {
            Style::Bold => "1"@,
            Style::Dim => "2"@,
            Style::Italic => "3"@,
            Style::Underline => "4"@,
        }
    }

    /// Get the ANSI style code.
    pub fn code(self) -> (code: &'static str)
        ensures
            code@ == self.code_of(),
    {
        match self {
            Style::Bold => "1",
            Style::Dim => "2",
            Style::Italic => "3",
            Style::Underline => "4",
        }
    }
}

impl View for Styled {
    type V = StyledView;

    closed spec fn view(&self) -> StyledView {
        StyledView {
            content: self.content@,
            color: self.color,
            styles: self.styles@,
            enabled: self.enabled,
        }
    }
}

impl Styled {
    /// Create a new styled string, with colour disabled: whether the
    /// terminal takes colour is for the caller to say, through
    /// `with_color_support`.
    pub fn new(content: &str) -> (styled: Styled)
        ensures
            styled@ == plain(content@, false),
    {
        Styled::with_color_support(content, false)
    }

    /// Create a styled string with explicit color support setting.
    pub fn with_color_support(content: &str, enabled: bool) -> (styled: Styled)
        ensures
            styled@ == plain(content@, enabled),
    {
        Styled { content: String::from_str(content), color: None, styles: Vec::new(), enabled }
    }

    /// Set the foreground color.
    pub fn color(self, color: Color) -> (styled: Styled)
        ensures
            styled@ == with_color(self@, color),
    {
        let mut styled = self;
        styled.color = Some(color);
        styled
    }

    /// Add a style attribute, unless the string has it already.
    pub fn style(self, style: Style) -> (styled: Styled)
        ensures
            styled@ == with_style(self@, style),
    {
        let mut styled = self;
        let mut found: bool = false;
        let mut i: usize = 0;
        while i < styled.styles.len()
            invariant
                styled == self,
                i <= styled.styles@.len(),
                found <==> exists|k: int| 0 <= k < i && styled.styles@[k] == style,
            decreases styled.styles@.len() - i,
        {
            if styled.styles[i] == style {
                found = true;
            }
            i += 1;
        }
        if !found {
            styled.styles.push(style);
        }
        styled
    }

    /// Make the text bold.
    pub fn bold(self) -> (styled: Styled)
        ensures
            styled@ == with_style(self@, Style::Bold),
    {
        self.style(Style::Bold)
    }

    /// Make the text dim.
    pub fn dim(self) -> (styled: Styled)
        ensures
            styled@ == with_style(self@, Style::Dim),
    {
        self.style(Style::Dim)
    }

    /// Make the text red.
    pub fn red(self) -> (styled: Styled)
        ensures
            styled@ == with_color(self@, Color::Red),
    {
        self.color(Color::Red)
    }

    /// Make the text green.
    pub fn green(self) -> (styled: Styled)
        ensures
            styled@ == with_color(self@, Color::Green),
    {
        self.color(Color::Green)
    }

    /// Make the text yellow.
    pub fn yellow(self) -> (styled: Styled)
        ensures
            styled@ == with_color(self@, Color::Yellow),
    {
        self.color(Color::Yellow)
    }

    /// Make the text blue.
    pub fn blue(self) -> (styled: Styled)
        ensures
            styled@ == with_color(self@, Color::Blue),
    {
        self.color(Color::Blue)
    }

    /// Make the text cyan.
    pub fn cyan(self) -> (styled: Styled)
        ensures
            styled@ == with_color(self@, Color::Cyan),
    {
        self.color(Color::Cyan)
    }

    /// The text as it is written to the terminal.
    pub fn render(&self) -> (text: String)
        ensures
            text@ == rendered(self@),
    {
        if !self.enabled || (self.color.is_none() && self.styles.len() == 0) {
            return self.content.clone();
        }
        let mut joined: String = String::new();
        let mut i: usize = 0;
        proof {
            assert(self.styles@.subrange(0, 0) =~= Seq::<Style>::empty());
        }
        while i < self.styles.len()
            invariant
                i <= self.styles@.len(),
                joined@ == style_codes(self.styles@.subrange(0, i as int)),
            decreases self.styles@.len() - i,
        {
            let ghost shorter = self.styles@.subrange(0, i as int);
            let ghost longer = self.styles@.subrange(0, i + 1);
            proof {
                assert(longer.drop_last() =~= shorter);
                assert(longer.last() == self.styles@[i as int]);
                assert(longer[0] == self.styles@[0]);
            }
            if i > 0 {
                joined.append(";");
            }
            joined.append(self.styles[i].code());
            proof {
                if i == 0 {
                    assert(joined@ =~= self.styles@[0].code_of());
                }
            }
            i += 1;
        }
        proof {
            assert(self.styles@.subrange(0, self.styles@.len() as int) =~= self.styles@);
        }
        match self.color {
            Some(color) => {
                if self.styles.len() > 0 {
                    joined.append(";");
                }
                joined.append(color.fg_code().as_str());
                proof {
                    if self.styles@.len() == 0 {
                        assert(joined@ =~= color.fg_code_of());
                    }
                }
            },
            None => {},
        }
        String::from_str("\x1b[").concat(joined.as_str()).concat("m").concat(
            self.content.as_str(),
        ).concat("\x1b[0m")
    }
}

impl Symbols {
    /// Whether the symbols are written in colour.
    pub closed spec fn colored(self) -> bool {
        self.enabled
    }

    /// Create a new symbols instance.
    pub fn new(color_enabled: bool) -> (symbols: Symbols)
        ensures
            symbols.colored() == color_enabled,
    {
        Symbols { enabled: color_enabled }
    }

    /// Success symbol (green checkmark).
    pub fn success(&self) -> (symbol: Styled)
        ensures
            symbol@ == with_style(
                with_color(plain("\u{2713}"@, self.colored()), Color::Green),
                Style::Bold,
            ),
    {
        Styled::with_color_support("\u{2713}", self.enabled).green().bold()
    }

    /// Error symbol (red X).
    pub fn error(&self) -> (symbol: Styled)
        ensures
            symbol@ == with_style(
                with_color(plain("\u{2717}"@, self.colored()), Color::Red),
                Style::Bold,
            ),
    {
        Styled::with_color_support("\u{2717}", self.enabled).red().bold()
    }

    /// Warning symbol (yellow warning sign).
    pub fn warning(&self) -> (symbol: Styled)
        ensures
            symbol@ == with_style(
                with_color(plain("\u{26A0}"@, self.colored()), Color::Yellow),
                Style::Bold,
            ),
    {
        Styled::with_color_support("\u{26A0}", self.enabled).yellow().bold()
    }

    /// Info symbol (blue info).
    pub fn info(&self) -> (symbol: Styled)
        ensures
            symbol@ == with_style(
                with_color(plain("\u{2139}"@, self.colored()), Color::Blue),
                Style::Bold,
            ),
    {
        Styled::with_color_support("\u{2139}", self.enabled).blue().bold()
    }

    /// Arrow symbol for progress.
    pub fn arrow(&self) -> (symbol: Styled)
        ensures
            symbol@ == with_color(plain("\u{2192}"@, self.colored()), Color::Cyan),
    {
        Styled::with_color_support("\u{2192}", self.enabled).cyan()
    }
}

/// The number of bytes in a kilobyte.
pub const KB: u64 = 1024;

/// The number of bytes in a megabyte.
pub const MB: u64 = 1048576;

/// The number of bytes in a gigabyte.
pub const GB: u64 = 1073741824;

/// `value / unit` rounded to the nearest whole number, halves to the even
/// neighbour.
pub open spec fn rounded_quotient(value: int, unit: int) -> int {
    let quotient = value / unit;
    let rest = value % unit;
    if 2 * rest > unit || (2 * rest == unit && quotient % 2 == 1) {
        quotient + 1
    } else {
        quotient
    }
}

/// The step between the sizes that are told apart: one below 2^53, and
/// above it the power of two that leaves 53 significant bits.
pub open spec fn step_of(bytes: u64) -> int {
    if bytes < 0x20_0000_0000_0000 {
        1
    } else if bytes < 0x40_0000_0000_0000 {
        2
    } else if bytes < 0x80_0000_0000_0000 {
        4
    } else if bytes < 0x100_0000_0000_0000 {
        8
    } else if bytes < 0x200_0000_0000_0000 {
        16
    } else if bytes < 0x400_0000_0000_0000 {
        32
    } else if bytes < 0x800_0000_0000_0000 {
        64
    } else if bytes < 0x1000_0000_0000_0000 {
        128
    } else if bytes < 0x2000_0000_0000_0000 {
        256
    } else if bytes < 0x4000_0000_0000_0000 {
        512
    } else if bytes < 0x8000_0000_0000_0000 {
        1024
    } else {
        2048
    }
}

/// The size as it is shown: rounded to a multiple of its step.
pub open spec fn shown_size(bytes: u64) -> int {
    rounded_quotient(bytes as int, step_of(bytes)) * step_of(bytes)
}

/// The number of tenths of `unit` in a size, rounded to the nearest,
/// halves to the even neighbour.
pub open spec fn tenths_of(bytes: u64, unit: u64) -> int {
    rounded_quotient(shown_size(bytes) * 10, unit as int)
}

/// A number of tenths with one decimal place.
pub open spec fn one_decimal_of(tenths: int) -> Seq<char> {
    decimal_of((tenths / 10) as nat) + "."@ + digit_of((tenths % 10) as nat)
}

/// A size in human-readable form: in bytes below a kilobyte, and else in
/// the largest of kilobytes, megabytes and gigabytes that it reaches,
/// with one decimal place.
pub open spec fn size_text(bytes: u64) -> Seq<char> {
    if bytes >= GB {
        one_decimal_of(tenths_of(bytes, GB)) + " GB"@
    } else if bytes >= MB {
        one_decimal_of(tenths_of(bytes, MB)) + " MB"@
    } else if bytes >= KB {
        one_decimal_of(tenths_of(bytes, KB)) + " KB"@
    } else {
        decimal_of(bytes as nat) + " B"@
    }
}

/// `value / unit` rounded to the nearest whole number, halves to the even
/// neighbour.
pub fn round_quotient(value: u128, unit: u128) -> (rounded: u128)
    requires
        0 < unit <= u64::MAX,
        value < u128::MAX,
    ensures
        rounded == rounded_quotient(value as int, unit as int),
{
    let quotient: u128 = value / unit;
    let rest: u128 = value % unit;
    if 2 * rest > unit || (2 * rest == unit && quotient % 2 == 1) {
        quotient + 1
    } else {
        quotient
    }
}

/// The step between the sizes that are told apart.
pub fn size_step(bytes: u64) -> (step: u64)
    ensures
        step == step_of(bytes),
        1 <= step <= 2048,
{
    if bytes < 0x20_0000_0000_0000 {
        1
    } else if bytes < 0x40_0000_0000_0000 {
        2
    } else if bytes < 0x80_0000_0000_0000 {
        4
    } else if bytes < 0x100_0000_0000_0000 {
        8
    } else if bytes < 0x200_0000_0000_0000 {
        16
    } else if bytes < 0x400_0000_0000_0000 {
        32
    } else if bytes < 0x800_0000_0000_0000 {
        64
    } else if bytes < 0x1000_0000_0000_0000 {
        128
    } else if bytes < 0x2000_0000_0000_0000 {
        256
    } else if bytes < 0x4000_0000_0000_0000 {
        512
    } else if bytes < 0x8000_0000_0000_0000 {
        1024
    } else {
        2048
    }
}

/// A quotient rounded to the nearest is at most one more than the
/// quotient, which times the divisor is at most the dividend.
pub proof fn lemma_rounded_quotient_bound(value: int, unit: int)
    requires
        0 <= value,
        0 < unit,
    ensures
        0 <= rounded_quotient(value, unit) <= value / unit + 1,
        (value / unit) * unit <= value,
        0 <= value / unit,
{
    assert((value / unit) * unit <= value && 0 <= value / unit) by (nonlinear_arith)
        requires
            0 <= value,
            0 < unit,
    ;
}

/// The number of tenths of `unit` in a size.
pub fn tenths(bytes: u64, unit: u64) -> (count: u128)
    requires
        unit >= 1024,
    ensures
        count == tenths_of(bytes, unit),
        count <= u64::MAX,
{
    let step: u64 = size_step(bytes);
    let steps: u128 = round_quotient(bytes as u128, step as u128);
    proof {
        lemma_rounded_quotient_bound(bytes as int, step as int);
        let quotient = bytes as int / step as int;
        assert(steps * step <= bytes + step) by (nonlinear_arith)
            requires
                0 <= steps <= quotient + 1,
                quotient * step <= bytes,
                1 <= step,
        ;
    }
    let shown: u128 = steps * (step as u128);
    let count = round_quotient(shown * 10, unit as u128);
    proof {
        lemma_rounded_quotient_bound(shown * 10, unit as int);
        let quotient = (shown * 10) / (unit as int);
        assert(quotient * 100 <= shown * 10) by (nonlinear_arith)
            requires
                quotient * unit <= shown * 10,
                unit >= 1024,
                0 <= quotient,
        ;
    }
    count
}

/// Writes a number of tenths with one decimal place.
pub fn one_decimal(count: u128) -> (text: String)
    requires
        count / 10 <= u64::MAX,
    ensures
        text@ == one_decimal_of(count as int),
{
    decimal((count / 10) as u64).concat(".").concat(digit((count % 10) as u64))
}

/// Format a file size in human-readable form.
pub fn format_size(bytes: u64) -> (text: String)
    ensures
        text@ == size_text(bytes),
{
    if bytes >= GB {
        let count = tenths(bytes, GB);
        one_decimal(count).concat(" GB")
    } else if bytes >= MB {
        let count = tenths(bytes, MB);
        one_decimal(count).concat(" MB")
    } else if bytes >= KB {
        let count = tenths(bytes, KB);
        one_decimal(count).concat(" KB")
    } else {
        decimal(bytes).concat(" B")
    }
}

} // verus!
