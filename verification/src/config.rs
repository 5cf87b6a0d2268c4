use vstd::prelude::*;
use vstd::string::StringExecFns;
use crate::hex::{six_hex, six_hex_panics, six_hex_value, six_hex_would_panic};
use crate::text::{chars_of, views};

verus! {

/// How the quote and its author are laid out.
#[derive(Clone, Copy, Debug, PartialEq, Eq, Structural)]
pub enum Layout {
    /// The quote, a blank line, then the author right-aligned behind a dash.
    Default,
    /// The quote and the author inside a box.
    Box,
}

/// The corner characters of the box layout.
#[derive(Clone, Copy, Debug, PartialEq, Eq, Structural)]
pub enum BoxCorners {
    /// `+`, `-` and `|`.
    Pointy,
    /// `╭`, `╮`, `╰`, `╯`, `─` and `│`.
    Rounded,
}

/// The settings of the program.
#[derive(Clone, Debug)]
pub struct Config {
    /// Authors to fetch quotes from.
    pub authors: Vec<String>,
    /// Base colour of the quote: hex, `rgb(..)`, `rgba(..)`, `hsl(..)` or a gradient.
    pub theme_color: String,
    /// Comma-separated style tokens for the quote text.
    pub quote_style: String,
    /// Comma-separated style tokens for the author line.
    pub author_style: String,
    /// Style tokens for quotes nested inside the quote text.
    pub nested_quote_style: String,
    /// How many times to try fetching a quote.
    pub max_tries: usize,
    /// Name of the log file.
    pub log_file: String,
    /// Colour the quote with a rainbow gradient.
    pub rainbow_mode: bool,
    /// Output layout.
    pub layout: Layout,
    /// Corners of the box layout.
    pub box_corners: BoxCorners,
    /// Look in the cache before asking the API.
    pub prefer_cache: bool,
    /// Rate limit of API calls per minute.
    pub api_calls_per_minute: usize,
}

pub open spec fn spec_default_authors() -> Seq<Seq<char>> {
    seq![
        "Mahatma Gandhi"@,
        "Albert Einstein"@,
        "Martin Luther King, Jr."@,
        "Leonardo da Vinci"@,
        "Walt Disney"@,
        "Edgar Allan Poe"@,
        "Sigmund Freud"@,
        "Thomas A. Edison"@,
        "Robin Williams"@,
        "Steve Jobs"@,
    ]
}

/// The default theme colour, `#B7FFFA`.
pub fn default_theme_color() -> (r: String)
    ensures
        r@ == "#B7FFFA"@,
{
    String::from_str("#B7FFFA")
}

/// The default number of tries, 30.
pub fn default_max_tries() -> (r: usize)
    ensures
        r == 30,
{
    30
}

/// The default log file name, `getquotes.log`.
pub fn default_log_file() -> (r: String)
    ensures
        r@ == "getquotes.log"@,
{
    String::from_str("getquotes.log")
}

/// The authors used when none are configured.
pub fn default_authors() -> (r: Vec<String>)
    ensures
        views(r@) == spec_default_authors(),
{
    let r = vec![
        String::from_str("Mahatma Gandhi"),
        String::from_str("Albert Einstein"),
        String::from_str("Martin Luther King, Jr."),
        String::from_str("Leonardo da Vinci"),
        String::from_str("Walt Disney"),
        String::from_str("Edgar Allan Poe"),
        String::from_str("Sigmund Freud"),
        String::from_str("Thomas A. Edison"),
        String::from_str("Robin Williams"),
        String::from_str("Steve Jobs"),
    ];
    assert(views(r@) =~= spec_default_authors());
    r
}

/// Rainbow mode is off by default.
pub fn default_rainbow_mode() -> (r: bool)
    ensures
        r == false,
{
    false
}

/// No extra quote styling by default.
pub fn default_quote_style() -> (r: String)
    ensures
        r@ == Seq::<char>::empty(),
{
    String::new()
}

/// No extra author styling by default (the author line falls back to green).
pub fn default_author_style() -> (r: String)
    ensures
        r@ == Seq::<char>::empty(),
{
    String::new()
}

/// No styling of nested quotes by default.
pub fn default_nested_quote_style() -> (r: String)
    ensures
        r@ == Seq::<char>::empty(),
{
    String::new()
}

/// The default layout.
pub fn default_layout() -> (r: Layout)
    ensures
        r == Layout::Default,
{
    Layout::Default
}

/// Pointy corners by default.
pub fn default_box_corners() -> (r: BoxCorners)
    ensures
        r == BoxCorners::Pointy,
{
    BoxCorners::Pointy
}

/// The API is asked first by default.
pub fn default_prefer_cache() -> (r: bool)
    ensures
        r == false,
{
    false
}

/// Sixty API calls per minute by default.
pub fn default_api_calls_per_minute() -> (r: usize)
    ensures
        r == 60,
{
    60
}

/// The configuration written when no configuration file exists.
pub fn default_config() -> (c: Config)
    ensures
        views(c.authors@) == spec_default_authors(),
        c.theme_color@ == "#B7FFFA"@,
        c.quote_style@ == Seq::<char>::empty(),
        c.author_style@ == Seq::<char>::empty(),
        c.nested_quote_style@ == Seq::<char>::empty(),
        c.max_tries == 30,
        c.log_file@ == "getquotes.log"@,
        c.rainbow_mode == false,
        c.layout == Layout::Default,
        c.box_corners == BoxCorners::Pointy,
        c.prefer_cache == false,
        c.api_calls_per_minute == 60,
{
    Config {
        authors: default_authors(),
        theme_color: default_theme_color(),
        quote_style: default_quote_style(),
        author_style: default_author_style(),
        nested_quote_style: default_nested_quote_style(),
        max_tries: default_max_tries(),
        log_file: default_log_file(),
        rainbow_mode: default_rainbow_mode(),
        layout: default_layout(),
        box_corners: default_box_corners(),
        prefer_cache: default_prefer_cache(),
        api_calls_per_minute: default_api_calls_per_minute(),
    }
}

/// The colour written `#RRGGBB`: a `#`, then six hexadecimal digits.
pub open spec fn hex_color_of(s: Seq<char>) -> Option<(u8, u8, u8)> {
    if s.len() > 0 && s[0] == '#' {
        six_hex(s.drop_first())
    } else {
        None
    }
}

/// Whether reading `s` as `#RRGGBB` would slice inside a multi-byte character.
pub open spec fn hex_color_panics(s: Seq<char>) -> bool {
    s.len() > 0 && s[0] == '#' && six_hex_panics(s.drop_first())
}

fn drop_first_char(v: &Vec<char>) -> (r: Vec<char>)
    requires
        v@.len() > 0,
    ensures
        r@ == v@.drop_first(),
{
    let mut r: Vec<char> = Vec::new();
    let n = v.len();
    let mut i: usize = 1;
    while i < n
        invariant
            n == v@.len(),
            1 <= i <= n,
            r@ == v@.subrange(1, i as int),
        decreases n - i,
    {
        r.push(v[i]);
        assert(r@ =~= v@.subrange(1, i + 1));
        i = i + 1;
    }
    assert(r@ =~= v@.drop_first());
    r
}

/// Parses `#RRGGBB` into its red, green and blue bytes.
pub fn parse_hex_color(hex_str: &str) -> (r: Option<(u8, u8, u8)>)
    requires
        !hex_color_panics(hex_str@),
    ensures
        r == hex_color_of(hex_str@),
{
    let v = chars_of(hex_str);
    if v.len() == 0 || v[0] != '#' {
        return None;
    }
    let clean = drop_first_char(&v);
    six_hex_value(&clean)
}

/// Whether `parse_hex_color` would slice inside a multi-byte character of `hex_str`.
pub fn parse_hex_color_panics(hex_str: &str) -> (b: bool)
    ensures
        b == hex_color_panics(hex_str@),
{
    let v = chars_of(hex_str);
    if v.len() == 0 || v[0] != '#' {
        return false;
    }
    let clean = drop_first_char(&v);
    six_hex_would_panic(&clean)
}

} // verus!
