use vstd::prelude::*;
use vstd::string::StringExecFns;
use crate::config::{BoxCorners, Config, Layout};
use crate::render::paint::{
    lemma_strip_empty, lemma_strip_plain_then, lemma_strip_styled_then, no_escape, shades_anything, strip_codes,
    style_text, styled_ok,
};
use crate::render::style::{
    author_style_ok, nested_overrides_ok, nested_quote_overrides, override_views, parses_anything,
    quote_style_ok, resolve_author_style, resolve_quote_style, spec_default_style, Fill,
    OverrideView, RgbColor,
    StyleOverride, StyleView,
};
use crate::render::wrap::{
    all_chars, lemma_wrapped_lines_chars, lemma_wrapped_lines_fit, wrap_text_lines, wrapped_lines,
};
use crate::text::{chars_of, push_char, string_from, views};

verus! {

/// `n` spaces.
pub open spec fn spaces(n: int) -> Seq<char> {
    Seq::new(if n > 0 { n as nat } else { 0 }, |i: int| ' ')
}

/// `n` copies of `c`.
pub open spec fn repeated(c: char, n: int) -> Seq<char> {
    Seq::new(if n > 0 { n as nat } else { 0 }, |i: int| c)
}

/// `value` followed by spaces up to `width` characters.
pub open spec fn padded_right(value: Seq<char>, width: int) -> Seq<char> {
    value + spaces(width - value.len())
}

/// `value` preceded by spaces up to `width` characters.
pub open spec fn padded_left(value: Seq<char>, width: int) -> Seq<char> {
    spaces(width - value.len()) + value
}

fn push_repeated(s: &mut String, c: char, n: usize)
    ensures
        final(s)@ == old(s)@ + repeated(c, n as int),
{
    let mut i: usize = 0;
    while i < n
        invariant
            i <= n,
            s@ == old(s)@ + repeated(c, i as int),
        decreases n - i,
    {
        push_char(s, c);
        assert(s@ =~= old(s)@ + repeated(c, i + 1));
        i = i + 1;
    }
}

/// `value` followed by spaces up to `width` characters.
pub fn pad_right(value: &str, width: usize) -> (r: String)
    ensures
        r@ == padded_right(value@, width as int),
{
    let v = chars_of(value);
    let mut r = string_from(&v);
    let padding: usize = if width > v.len() { width - v.len() } else { 0 };
    push_repeated(&mut r, ' ', padding);
    assert(repeated(' ', padding as int) =~= spaces(width - value@.len()));
    r
}

/// `value` preceded by spaces up to `width` characters.
pub fn pad_left(value: &str, width: usize) -> (r: String)
    ensures
        r@ == padded_left(value@, width as int),
{
    let v = chars_of(value);
    let padding: usize = if width > v.len() { width - v.len() } else { 0 };
    let mut r = String::new();
    push_repeated(&mut r, ' ', padding);
    r.append(value);
    assert(repeated(' ', padding as int) =~= spaces(width - value@.len()));
    assert(r@ =~= padded_left(value@, width as int));
    r
}

/// The characters that draw a box.
#[derive(Clone, Copy, Debug, PartialEq, Eq, Structural)]
pub struct BoxChars {
    pub top_left: char,
    pub top_right: char,
    pub bottom_left: char,
    pub bottom_right: char,
    pub horizontal: char,
    pub vertical: char,
}

/// The box characters of each corner style.
pub open spec fn spec_box_chars(corners: BoxCorners) -> BoxChars {
    match corners {
        BoxCorners::Pointy => BoxChars {
            top_left: '+',
            top_right: '+',
            bottom_left: '+',
            bottom_right: '+',
            horizontal: '-',
            vertical: '|',
        },
        BoxCorners::Rounded => BoxChars {
            top_left: '\u{256d}',
            top_right: '\u{256e}',
            bottom_left: '\u{2570}',
            bottom_right: '\u{256f}',
            horizontal: '\u{2500}',
            vertical: '\u{2502}',
        },
    }
}

/// The box characters of a corner style: `+`, `-`, `|` for pointy corners and
/// `╭`, `╮`, `╰`, `╯`, `─`, `│` for rounded ones.
pub fn box_chars(corners: BoxCorners) -> (c: BoxChars)
    ensures
        c == spec_box_chars(corners),
{
    match corners {
        BoxCorners::Pointy => BoxChars {
            top_left: '+',
            top_right: '+',
            bottom_left: '+',
            bottom_right: '+',
            horizontal: '-',
            vertical: '|',
        },
        BoxCorners::Rounded => BoxChars {
            top_left: '\u{256d}',
            top_right: '\u{256e}',
            bottom_left: '\u{2570}',
            bottom_right: '\u{256f}',
            horizontal: '\u{2500}',
            vertical: '\u{2502}',
        },
    }
}

/// The quote in double quotes.
pub open spec fn quoted(quote: Seq<char>) -> Seq<char> {
    seq!['"'] + quote + seq!['"']
}

fn quoted_string(quote: &str) -> (r: String)
    ensures
        r@ == quoted(quote@),
{
    let mut r = String::new();
    push_char(&mut r, '"');
    r.append(quote);
    push_char(&mut r, '"');
    assert(r@ =~= quoted(quote@));
    r
}

/// The dash in front of the author: right-aligned in 99 columns (`{:>99}` of `"- "`).
pub open spec fn author_dash() -> Seq<char> {
    spaces(97) + seq!['-', ' ']
}

/// The pieces of the default layout.
pub struct DefaultParts {
    pub quote_style: StyleView,
    pub author_style: StyleView,
    pub nested: Seq<OverrideView>,
    pub styled_quote: Seq<char>,
    pub styled_dash: Seq<char>,
    pub styled_author: Seq<char>,
}

/// `parts` are how the default layout of `quote` and `author` comes out.
pub open spec fn default_parts_ok<P: Fn(&str) -> Option<Fill>, S: Fn(&Fill, usize, usize) -> RgbColor>(
    p: P,
    shade: S,
    cfg: Config,
    quote: Seq<char>,
    author: Seq<char>,
    parts: DefaultParts,
) -> bool {
    &&& quote_style_ok(p, cfg.quote_style@, cfg.theme_color@, cfg.rainbow_mode, parts.quote_style)
    &&& author_style_ok(p, cfg.author_style@, parts.author_style)
    &&& nested_overrides_ok(p, quote, cfg.nested_quote_style@, parts.nested)
    &&& styled_ok(shade, quoted(quote), parts.quote_style, parts.nested, parts.styled_quote)
    &&& styled_ok(shade, author_dash(), parts.author_style, Seq::empty(), parts.styled_dash)
    &&& styled_ok(shade, author, parts.author_style, Seq::empty(), parts.styled_author)
}

/// The default layout: the styled quote in double quotes, a blank line, then a space,
/// the styled right-aligned dash and the styled author.
pub open spec fn default_text(parts: DefaultParts) -> Seq<char> {
    parts.styled_quote + "\n\n "@ + parts.styled_dash + parts.styled_author
}

/// `out` is the default layout of `quote` and `author`.
pub open spec fn default_layout_ok<P: Fn(&str) -> Option<Fill>, S: Fn(&Fill, usize, usize) -> RgbColor>(
    p: P,
    shade: S,
    cfg: Config,
    quote: Seq<char>,
    author: Seq<char>,
    out: Seq<char>,
) -> bool {
    exists|parts: DefaultParts|
        #[trigger] default_parts_ok(p, shade, cfg, quote, author, parts) && out == default_text(parts)
}

/// With its escape codes removed, the default layout is the quote in double quotes, a
/// blank line, then a space, the dash and the author (for a quote and an author that
/// hold no escape character).
pub proof fn lemma_default_layout_plain_text<P: Fn(&str) -> Option<Fill>, S: Fn(&Fill, usize, usize) -> RgbColor>(
    p: P,
    shade: S,
    cfg: Config,
    quote: Seq<char>,
    author: Seq<char>,
    out: Seq<char>,
)
    requires
        default_layout_ok(p, shade, cfg, quote, author, out),
        no_escape(quote),
        no_escape(author),
    ensures
        strip_codes(out) == quoted(quote) + "\n\n "@ + author_dash() + author,
{
    let parts = choose|parts: DefaultParts|
        #[trigger] default_parts_ok(p, shade, cfg, quote, author, parts) && out == default_text(parts);
    reveal_strlit("\n\n ");
    let nl = "\n\n "@;
    assert(nl =~= seq!['\n', '\n', ' ']);
    assert(no_escape(nl));
    assert(no_escape(quoted(quote))) by {
        assert forall|i: int| 0 <= i < quoted(quote).len() implies #[trigger] quoted(quote)[i]
            != '\u{1b}' by {
            if 0 < i < quoted(quote).len() - 1 {
                assert(quoted(quote)[i] == quote[i - 1]);
            }
        }
    }
    assert(no_escape(author_dash())) by {
        assert forall|i: int| 0 <= i < author_dash().len() implies #[trigger] author_dash()[i]
            != '\u{1b}' by {
            if i < 97 {
                assert(author_dash()[i] == spaces(97)[i]);
            }
        }
    }
    let e = Seq::<char>::empty();
    lemma_strip_empty();
    lemma_strip_styled_then(shade, author, parts.author_style, Seq::empty(), parts.styled_author, e);
    assert(parts.styled_author + e =~= parts.styled_author);
    lemma_strip_styled_then(
        shade,
        author_dash(),
        parts.author_style,
        Seq::empty(),
        parts.styled_dash,
        parts.styled_author,
    );
    lemma_strip_plain_then(nl, parts.styled_dash + parts.styled_author);
    lemma_strip_styled_then(
        shade,
        quoted(quote),
        parts.quote_style,
        parts.nested,
        parts.styled_quote,
        nl + (parts.styled_dash + parts.styled_author),
    );
    assert(out =~= parts.styled_quote + (nl + (parts.styled_dash + parts.styled_author)));
    assert(quoted(quote) + (nl + (author_dash() + (author + e))) =~= quoted(quote) + nl
        + author_dash() + author);
}

/// Renders the quote, a blank line, and the author behind a right-aligned dash.
pub fn render_default_layout<P: Fn(&str) -> Option<Fill>, S: Fn(&Fill, usize, usize) -> RgbColor>(
    cfg: &Config,
    quote: &str,
    author: &str,
    parse_fill: &P,
    shade: &S,
) -> (out: String)
    requires
        parses_anything(*parse_fill),
        shades_anything(*shade),
        quote@.len() < usize::MAX,
    ensures
        default_layout_ok(*parse_fill, *shade, *cfg, quote@, author@, out@),
{
    let quote_plain = quoted_string(quote);
    let quote_style = resolve_quote_style(cfg, parse_fill);
    let nested = nested_quote_overrides(quote, cfg.nested_quote_style.as_str(), parse_fill);
    let styled_quote = style_text(quote_plain.as_str(), &quote_style, &nested, shade);
    let author_style = resolve_author_style(cfg, parse_fill);
    let mut dash = String::new();
    push_repeated(&mut dash, ' ', 97);
    push_char(&mut dash, '-');
    push_char(&mut dash, ' ');
    assert(dash@ =~= author_dash());
    let none: Vec<StyleOverride> = Vec::new();
    assert(override_views(none@) =~= Seq::<OverrideView>::empty());
    let styled_dash = style_text(dash.as_str(), &author_style, &none, shade);
    let styled_author = style_text(author, &author_style, &none, shade);
    let mut out = styled_quote;
    out.append("\n\n ");
    out.append(styled_dash.as_str());
    out.append(styled_author.as_str());
    let ghost parts = DefaultParts {
        quote_style: quote_style@,
        author_style: author_style@,
        nested: override_views(nested@),
        styled_quote: styled_quote@,
        styled_dash: styled_dash@,
        styled_author: styled_author@,
    };
    assert(default_parts_ok(*parse_fill, *shade, *cfg, quote@, author@, parts));
    assert(out@ =~= default_text(parts));
    out
}

/// The length of the longest of `lines` (0 when there are none).
pub open spec fn max_len(lines: Seq<Seq<char>>) -> nat
    decreases lines.len(),
{
    if lines.len() == 0 {
        0
    } else {
        let m = max_len(lines.drop_last());
        if lines.last().len() > m {
            lines.last().len()
        } else {
            m
        }
    }
}

/// The inner width of the box: the longest quote line or the author, whichever is
/// longer.
pub open spec fn box_width(lines: Seq<Seq<char>>, author: Seq<char>) -> nat {
    if author.len() > max_len(lines) {
        author.len()
    } else {
        max_len(lines)
    }
}

proof fn lemma_max_len_bound(lines: Seq<Seq<char>>, w: nat)
    requires
        forall|i: int| 0 <= i < lines.len() ==> (#[trigger] lines[i]).len() <= w,
    ensures
        max_len(lines) <= w,
    decreases lines.len(),
{
    if lines.len() > 0 {
        lemma_max_len_bound(lines.drop_last(), w);
        assert(lines.last() == lines[lines.len() - 1]);
    }
}

proof fn lemma_max_len_is_longest(lines: Seq<Seq<char>>)
    ensures
        forall|i: int| 0 <= i < lines.len() ==> (#[trigger] lines[i]).len() <= max_len(lines),
        lines.len() == 0 ==> max_len(lines) == 0,
        lines.len() > 0 ==> exists|i: int| 0 <= i < lines.len() && (#[trigger] lines[i]).len() == max_len(lines),
    decreases lines.len(),
{
    if lines.len() > 0 {
        let p = lines.drop_last();
        lemma_max_len_is_longest(p);
        assert(lines.last() == lines[lines.len() - 1]);
        assert forall|i: int| 0 <= i < lines.len() implies (#[trigger] lines[i]).len() <= max_len(lines) by {
            if i < p.len() {
                assert(lines[i] == p[i]);
            }
        }
        if lines.last().len() <= max_len(p) && p.len() > 0 {
            let j = choose|j: int| 0 <= j < p.len() && (#[trigger] p[j]).len() == max_len(p);
            assert(lines[j] == p[j]);
        }
    }
}

/// The box is as wide as its widest content: its inner width is at least the length
/// of every quote line and of the author, and it is the length of one of them (or
/// zero when there is nothing); so every quote line padded right, and the author
/// padded left, fills the width exactly and none sticks out of the frame.
pub proof fn lemma_box_width_is_longest(lines: Seq<Seq<char>>, author: Seq<char>)
    ensures
        forall|i: int| 0 <= i < lines.len() ==> (#[trigger] lines[i]).len() <= box_width(lines, author),
        author.len() <= box_width(lines, author),
        box_width(lines, author) == author.len() || exists|i: int|
            0 <= i < lines.len() && (#[trigger] lines[i]).len() == box_width(lines, author),
        forall|i: int|
            0 <= i < lines.len() ==> (#[trigger] padded_right(lines[i], box_width(lines, author) as int)).len()
                == box_width(lines, author),
        padded_left(author, box_width(lines, author) as int).len() == box_width(lines, author),
{
    lemma_max_len_is_longest(lines);
    let w = box_width(lines, author);
    assert forall|i: int| 0 <= i < lines.len() implies (#[trigger] padded_right(lines[i], w as int)).len()
        == w by {
        assert(lines[i].len() <= w);
    }
}

/// When the author's name fits in the width the quote is wrapped at, the box is no
/// wider than that width (plus its two borders).
pub proof fn lemma_box_fits_wrap_width(quote: Seq<char>, author: Seq<char>, max_width: nat)
    requires
        max_width > 0,
        author.len() <= max_width,
    ensures
        box_width(wrapped_lines(quoted(quote), max_width), author) <= max_width,
{
    let lines = wrapped_lines(quoted(quote), max_width);
    lemma_wrapped_lines_fit(quoted(quote), max_width);
    lemma_max_len_bound(lines, max_width);
}

/// The pieces of the box layout.
pub struct BoxParts {
    pub quote_style: StyleView,
    pub author_style: StyleView,
    pub rows: Seq<Seq<char>>,
    pub author_row: Seq<char>,
}

/// `row` is quote line `line` padded to `width` and styled with `qs` and the nested
/// quote overrides of the line.
pub open spec fn box_row_ok<P: Fn(&str) -> Option<Fill>, S: Fn(&Fill, usize, usize) -> RgbColor>(
    p: P,
    shade: S,
    nested_style: Seq<char>,
    qs: StyleView,
    line: Seq<char>,
    width: int,
    row: Seq<char>,
) -> bool {
    exists|ovs: Seq<OverrideView>|
        #[trigger] nested_overrides_ok(p, line, nested_style, ovs) && styled_ok(
            shade,
            padded_right(line, width),
            qs,
            ovs,
            row,
        )
}

/// `parts` are how the box layout of `quote` and `author` comes out, the quote
/// wrapped at `max_width` characters.
pub open spec fn box_parts_ok<P: Fn(&str) -> Option<Fill>, S: Fn(&Fill, usize, usize) -> RgbColor>(
    p: P,
    shade: S,
    cfg: Config,
    quote: Seq<char>,
    author: Seq<char>,
    max_width: nat,
    parts: BoxParts,
) -> bool {
    let lines = wrapped_lines(quoted(quote), max_width);
    let width = box_width(lines, author) as int;
    &&& quote_style_ok(p, cfg.quote_style@, cfg.theme_color@, cfg.rainbow_mode, parts.quote_style)
    &&& author_style_ok(p, cfg.author_style@, parts.author_style)
    &&& parts.rows.len() == lines.len()
    &&& forall|i: int|
        0 <= i < lines.len() ==> box_row_ok(
            p,
            shade,
            cfg.nested_quote_style@,
            parts.quote_style,
            lines[i],
            width,
            #[trigger] parts.rows[i],
        )
    &&& styled_ok(shade, padded_left(author, width), parts.author_style, Seq::empty(), parts.author_row)
}

/// Rows framed by the vertical bar and joined by newlines.
pub open spec fn framed_rows(rows: Seq<Seq<char>>, v: char) -> Seq<char>
    decreases rows.len(),
{
    if rows.len() == 0 {
        Seq::empty()
    } else if rows.len() == 1 {
        seq![v] + rows[0] + seq![v]
    } else {
        framed_rows(rows.drop_last(), v) + seq!['\n', v] + rows.last() + seq![v]
    }
}

/// The box: the top edge, the framed quote rows and author row, the bottom edge,
/// one per line.
pub open spec fn box_text(chars: BoxChars, width: int, parts: BoxParts) -> Seq<char> {
    seq![chars.top_left] + repeated(chars.horizontal, width) + seq![chars.top_right, '\n']
        + framed_rows(parts.rows.push(parts.author_row), chars.vertical) + seq!['\n', chars.bottom_left]
        + repeated(chars.horizontal, width) + seq![chars.bottom_right]
}

/// `out` is the box layout of `quote` and `author`.
pub open spec fn box_layout_ok<P: Fn(&str) -> Option<Fill>, S: Fn(&Fill, usize, usize) -> RgbColor>(
    p: P,
    shade: S,
    cfg: Config,
    quote: Seq<char>,
    author: Seq<char>,
    max_width: nat,
    out: Seq<char>,
) -> bool {
    exists|parts: BoxParts|
        #[trigger] box_parts_ok(p, shade, cfg, quote, author, max_width, parts) && out == box_text(
            spec_box_chars(cfg.box_corners),
            box_width(wrapped_lines(quoted(quote), max_width), author) as int,
            parts,
        )
}

fn longest(lines: &Vec<String>, author_len: usize) -> (w: usize)
    ensures
        w == (if author_len > max_len(views(lines@)) {
            author_len as nat
        } else {
            max_len(views(lines@))
        }),
{
    let ghost ls = views(lines@);
    let mut m: usize = 0;
    let n = lines.len();
    for i in 0..n
        invariant
            n == lines@.len(),
            ls == views(lines@),
            m == max_len(ls.take(i as int)),
    {
        let len = chars_of(lines[i].as_str()).len();
        assert(ls.take(i + 1).drop_last() =~= ls.take(i as int));
        assert(ls.take(i + 1).last() == lines@[i as int]@);
        if len > m {
            m = len;
        }
    }
    assert(ls.take(n as int) =~= ls);
    if author_len > m {
        author_len
    } else {
        m
    }
}

/// Renders the quote and the author inside a box; the quote is wrapped at
/// `max_quote_width` characters.
pub fn render_box_layout<P: Fn(&str) -> Option<Fill>, S: Fn(&Fill, usize, usize) -> RgbColor>(
    cfg: &Config,
    quote: &str,
    author: &str,
    max_quote_width: usize,
    parse_fill: &P,
    shade: &S,
) -> (out: String)
    requires
        parses_anything(*parse_fill),
        shades_anything(*shade),
        quote@.len() + 2 < usize::MAX,
        max_quote_width < usize::MAX,
    ensures
        box_layout_ok(*parse_fill, *shade, *cfg, quote@, author@, max_quote_width as nat, out@),
{
    let quote_plain = quoted_string(quote);
    let quote_lines = wrap_text_lines(quote_plain.as_str(), max_quote_width);
    let ghost lines = wrapped_lines(quoted(quote@), max_quote_width as nat);
    let author_len = chars_of(author).len();
    let width = longest(&quote_lines, author_len);
    let quote_style = resolve_quote_style(cfg, parse_fill);
    let n = quote_lines.len();
    let mut rows: Vec<String> = Vec::new();
    for i in 0..n
        invariant
            n == quote_lines@.len(),
            views(quote_lines@) == lines,
            lines == wrapped_lines(quoted(quote@), max_quote_width as nat),
            width == box_width(lines, author@),
            parses_anything(*parse_fill),
            shades_anything(*shade),
            quote@.len() + 2 < usize::MAX,
            max_quote_width < usize::MAX,
            max_quote_width > 0 ==> forall|k: int| 0 <= k < quote_lines@.len() ==> (#[trigger] quote_lines@[k])@.len() <= max_quote_width,
            rows@.len() == i,
            forall|k: int|
                0 <= k < i ==> box_row_ok(
                    *parse_fill,
                    *shade,
                    cfg.nested_quote_style@,
                    quote_style@,
                    lines[k],
                    width as int,
                    #[trigger] views(rows@)[k],
                ),
    {
        let line = quote_lines[i].as_str();
        assert(line@ == lines[i as int]);
        proof {
            if max_quote_width == 0 {
                assert(lines == seq![quoted(quote@)]);
            } else {
                assert(quote_lines@[i as int]@.len() <= max_quote_width);
            }
        }
        let nested = nested_quote_overrides(line, cfg.nested_quote_style.as_str(), parse_fill);
        let row_plain = pad_right(line, width);
        let row = style_text(row_plain.as_str(), &quote_style, &nested, shade);
        let ghost prev = rows@;
        rows.push(row);
        assert forall|k: int|
            0 <= k < i + 1 implies box_row_ok(
                *parse_fill,
                *shade,
                cfg.nested_quote_style@,
                quote_style@,
                lines[k],
                width as int,
                #[trigger] views(rows@)[k],
            ) by {
            if k < i {
                assert(views(rows@)[k] == views(prev)[k]);
            } else {
                assert(views(rows@)[k] == row@);
                assert(nested_overrides_ok(*parse_fill, lines[k], cfg.nested_quote_style@, override_views(nested@)));
            }
        }
    }
    let author_style = resolve_author_style(cfg, parse_fill);
    let author_row_plain = pad_left(author, width);
    let none: Vec<StyleOverride> = Vec::new();
    assert(override_views(none@) =~= Seq::<OverrideView>::empty());
    let styled_author = style_text(author_row_plain.as_str(), &author_style, &none, shade);
    let chars = box_chars(cfg.box_corners);
    let ghost parts = BoxParts {
        quote_style: quote_style@,
        author_style: author_style@,
        rows: views(rows@),
        author_row: styled_author@,
    };
    let mut out = String::new();
    push_char(&mut out, chars.top_left);
    push_repeated(&mut out, chars.horizontal, width);
    push_char(&mut out, chars.top_right);
    push_char(&mut out, '\n');
    let ghost head = out@;
    let mut all_rows = rows;
    all_rows.push(styled_author);
    let ghost all = views(all_rows@);
    assert(all =~= parts.rows.push(parts.author_row));
    let total = all_rows.len();
    for i in 0..total
        invariant
            total == all_rows@.len(),
            all == views(all_rows@),
            out@ == head + framed_rows(all.take(i as int), chars.vertical),
    {
        let ghost before = out@;
        if i > 0 {
            push_char(&mut out, '\n');
        }
        push_char(&mut out, chars.vertical);
        out.append(all_rows[i].as_str());
        push_char(&mut out, chars.vertical);
        assert(all.take(i + 1).drop_last() =~= all.take(i as int));
        assert(all.take(i + 1).last() == all_rows@[i as int]@);
        if i == 0 {
            assert(all.take(0) =~= Seq::<Seq<char>>::empty());
        }
        assert(out@ =~= head + framed_rows(all.take(i + 1), chars.vertical));
    }
    assert(all.take(total as int) =~= all);
    push_char(&mut out, '\n');
    push_char(&mut out, chars.bottom_left);
    push_repeated(&mut out, chars.horizontal, width);
    push_char(&mut out, chars.bottom_right);
    assert(box_parts_ok(*parse_fill, *shade, *cfg, quote@, author@, max_quote_width as nat, parts));
    assert(out@ =~= box_text(chars, width as int, parts));
    out
}

proof fn lemma_strip_framed(rows: Seq<Seq<char>>, plain: Seq<Seq<char>>, v: char, rest: Seq<char>)
    requires
        rows.len() == plain.len(),
        v != '\u{1b}',
        forall|i: int, r: Seq<char>|
            0 <= i < rows.len() ==> #[trigger] strip_codes(rows[i] + r) == plain[i] + strip_codes(r),
    ensures
        strip_codes(framed_rows(rows, v) + rest) == framed_rows(plain, v) + strip_codes(rest),
    decreases rows.len(),
{
    let vv = seq![v];
    assert(no_escape(vv));
    if rows.len() == 0 {
        assert(framed_rows(rows, v) + rest =~= rest);
        assert(framed_rows(plain, v) + strip_codes(rest) =~= strip_codes(rest));
    } else if rows.len() == 1 {
        lemma_strip_plain_then(vv, rest);
        assert(strip_codes(rows[0] + (vv + rest)) == plain[0] + strip_codes(vv + rest));
        lemma_strip_plain_then(vv, rows[0] + (vv + rest));
        assert(framed_rows(rows, v) + rest =~= vv + (rows[0] + (vv + rest)));
        assert(framed_rows(plain, v) + strip_codes(rest) =~= vv + (plain[0] + (vv + strip_codes(rest))));
    } else {
        let n = rows.len() - 1;
        let dl = rows.drop_last();
        let pl = plain.drop_last();
        assert forall|i: int, r: Seq<char>|
            0 <= i < dl.len() implies #[trigger] strip_codes(dl[i] + r) == pl[i] + strip_codes(r) by {
            assert(dl[i] == rows[i] && pl[i] == plain[i]);
            assert(strip_codes(rows[i] + r) == plain[i] + strip_codes(r));
        }
        let nl = seq!['\n', v];
        assert(no_escape(nl));
        let tail = nl + (rows[n] + (vv + rest));
        lemma_strip_framed(dl, pl, v, tail);
        lemma_strip_plain_then(vv, rest);
        assert(strip_codes(rows[n] + (vv + rest)) == plain[n] + strip_codes(vv + rest));
        lemma_strip_plain_then(nl, rows[n] + (vv + rest));
        assert(rows.last() == rows[n] && plain.last() == plain[n]);
        assert(framed_rows(rows, v) + rest =~= framed_rows(dl, v) + tail);
        assert(framed_rows(plain, v) + strip_codes(rest) =~= framed_rows(pl, v) + (nl + (plain[n] + (vv
            + strip_codes(rest)))));
    }
}

/// The box layout as plain text: the quote lines padded right and the author padded
/// left, framed by the box characters (styles play no part in the text).
pub open spec fn plain_box(cfg: Config, quote: Seq<char>, author: Seq<char>, max_width: nat) -> Seq<
    char,
> {
    let lines = wrapped_lines(quoted(quote), max_width);
    let width = box_width(lines, author) as int;
    box_text(
        spec_box_chars(cfg.box_corners),
        width,
        BoxParts {
            quote_style: spec_default_style(),
            author_style: spec_default_style(),
            rows: lines.map_values(|l: Seq<char>| padded_right(l, width)),
            author_row: padded_left(author, width),
        },
    )
}

proof fn lemma_no_escape_spaces(n: int)
    ensures
        no_escape(spaces(n)),
{
}

/// With its escape codes removed, the box layout is the plain box: the quote lines
/// padded right and the author padded left, framed by the box characters (for a quote
/// and an author that hold no escape character).
#[verifier::spinoff_prover]
#[verifier::rlimit(40)]
pub proof fn lemma_box_layout_plain_text<P: Fn(&str) -> Option<Fill>, S: Fn(&Fill, usize, usize) -> RgbColor>(
    p: P,
    shade: S,
    cfg: Config,
    quote: Seq<char>,
    author: Seq<char>,
    max_width: nat,
    out: Seq<char>,
)
    requires
        box_layout_ok(p, shade, cfg, quote, author, max_width, out),
        no_escape(quote),
        no_escape(author),
    ensures
        strip_codes(out) == plain_box(cfg, quote, author, max_width),
{
    let lines = wrapped_lines(quoted(quote), max_width);
    let width = box_width(lines, author) as int;
    let chars = spec_box_chars(cfg.box_corners);
    let parts = choose|parts: BoxParts|
        #[trigger] box_parts_ok(p, shade, cfg, quote, author, max_width, parts) && out == box_text(
            chars,
            width,
            parts,
        );
    let q = |c: char| c != '\u{1b}';
    assert(all_chars(quoted(quote), q)) by {
        assert forall|i: int| 0 <= i < quoted(quote).len() implies q(#[trigger] quoted(quote)[i]) by {
            if 0 < i < quoted(quote).len() - 1 {
                assert(quoted(quote)[i] == quote[i - 1]);
            }
        }
    }
    lemma_wrapped_lines_chars(quoted(quote), max_width, q);
    let plain_rows = lines.map_values(|l: Seq<char>| padded_right(l, width));
    let all = parts.rows.push(parts.author_row);
    let pall = plain_rows.push(padded_left(author, width));
    lemma_no_escape_spaces(width - author.len());
    assert(no_escape(padded_left(author, width)));
    assert forall|i: int, r: Seq<char>|
        0 <= i < all.len() implies #[trigger] strip_codes(all[i] + r) == pall[i] + strip_codes(r) by {
        if i < parts.rows.len() {
            assert(all[i] == parts.rows[i]);
            assert(pall[i] == padded_right(lines[i], width));
            assert(box_row_ok(p, shade, cfg.nested_quote_style@, parts.quote_style, lines[i], width, parts.rows[i]));
            let ovs = choose|ovs: Seq<OverrideView>|
                #[trigger] nested_overrides_ok(p, lines[i], cfg.nested_quote_style@, ovs) && styled_ok(
                    shade,
                    padded_right(lines[i], width),
                    parts.quote_style,
                    ovs,
                    parts.rows[i],
                );
            assert(all_chars(lines[i], q));
            lemma_no_escape_spaces(width - lines[i].len());
            assert(no_escape(padded_right(lines[i], width))) by {
                assert forall|k: int| 0 <= k < padded_right(lines[i], width).len() implies #[trigger] padded_right(lines[i], width)[k] != '\u{1b}' by {
                    if k < lines[i].len() {
                        assert(q(lines[i][k]));
                    } else {
                        assert(padded_right(lines[i], width)[k] == spaces(width - lines[i].len())[k - lines[i].len()]);
                    }
                }
            }
            lemma_strip_styled_then(shade, padded_right(lines[i], width), parts.quote_style, ovs, parts.rows[i], r);
        } else {
            assert(all[i] == parts.author_row);
            assert(pall[i] == padded_left(author, width));
            lemma_strip_styled_then(shade, padded_left(author, width), parts.author_style, Seq::empty(), parts.author_row, r);
        }
    }
    let top = seq![chars.top_left] + repeated(chars.horizontal, width) + seq![chars.top_right, '\n'];
    let bottom = seq!['\n', chars.bottom_left] + repeated(chars.horizontal, width) + seq![chars.bottom_right];
    assert(no_escape(top));
    assert(no_escape(bottom));
    lemma_strip_empty();
    lemma_strip_plain_then(bottom, Seq::empty());
    assert(bottom + Seq::<char>::empty() =~= bottom);
    lemma_strip_framed(all, pall, chars.vertical, bottom);
    lemma_strip_plain_then(top, framed_rows(all, chars.vertical) + bottom);
    assert(out =~= top + (framed_rows(all, chars.vertical) + bottom));
    assert(plain_box(cfg, quote, author, max_width) =~= top + (framed_rows(pall, chars.vertical) + (bottom
        + Seq::<char>::empty())));
}

/// `out` is the rendering of `quote` and `author` in the configured layout, the box
/// wrapping the quote at `inner_width` characters.
pub open spec fn rendered_ok<P: Fn(&str) -> Option<Fill>, S: Fn(&Fill, usize, usize) -> RgbColor>(
    p: P,
    shade: S,
    cfg: Config,
    quote: Seq<char>,
    author: Seq<char>,
    inner_width: nat,
    out: Seq<char>,
) -> bool {
    match cfg.layout {
        Layout::Default => default_layout_ok(p, shade, cfg, quote, author, out),
        Layout::Box => box_layout_ok(p, shade, cfg, quote, author, inner_width, out),
    }
}

/// With its escape codes removed, a rendering is the plain layout: the quoted quote,
/// a blank line and the dashed author, or the plain box (for a quote and an author
/// that hold no escape character).
pub proof fn lemma_rendered_plain_text<P: Fn(&str) -> Option<Fill>, S: Fn(&Fill, usize, usize) -> RgbColor>(
    p: P,
    shade: S,
    cfg: Config,
    quote: Seq<char>,
    author: Seq<char>,
    inner_width: nat,
    out: Seq<char>,
)
    requires
        rendered_ok(p, shade, cfg, quote, author, inner_width, out),
        no_escape(quote),
        no_escape(author),
    ensures
        strip_codes(out) == match cfg.layout {
            Layout::Default => quoted(quote) + "\n\n "@ + author_dash() + author,
            Layout::Box => plain_box(cfg, quote, author, inner_width),
        },
{
    match cfg.layout {
        Layout::Default => lemma_default_layout_plain_text(p, shade, cfg, quote, author, out),
        Layout::Box => lemma_box_layout_plain_text(p, shade, cfg, quote, author, inner_width, out),
    }
}

/// Renders a quote and its author in the configured layout. Fills are read by
/// `parse_fill`; gradient and rainbow colours come from `shade`.
pub fn render_output<P: Fn(&str) -> Option<Fill>, S: Fn(&Fill, usize, usize) -> RgbColor>(
    cfg: &Config,
    quote: &str,
    author: &str,
    inner_width: usize,
    parse_fill: &P,
    shade: &S,
) -> (out: String)
    requires
        parses_anything(*parse_fill),
        shades_anything(*shade),
        quote@.len() + 2 < usize::MAX,
        inner_width < usize::MAX,
    ensures
        rendered_ok(*parse_fill, *shade, *cfg, quote@, author@, inner_width as nat, out@),
{
    match cfg.layout {
        Layout::Default => render_default_layout(cfg, quote, author, parse_fill, shade),
        Layout::Box => render_box_layout(cfg, quote, author, inner_width, parse_fill, shade),
    }
}

/// Inner width of the box when the terminal width is not known.
pub const DEFAULT_INNER_WIDTH: usize = 100;

/// The inner width of the box for a terminal `columns` wide: two columns less for
/// the borders, at least 20; 100 when the width is not known.
pub open spec fn spec_inner_width(columns: Option<usize>) -> usize {
    match columns {
        Some(c) => {
            let w = if c >= 2 { (c - 2) as usize } else { 0 };
            if w < 20 { 20 } else { w }
        },
        None => 100,
    }
}

/// The inner width of the box for a terminal `columns` wide.
pub fn inner_width_for_columns(columns: Option<usize>) -> (w: usize)
    ensures
        w == spec_inner_width(columns),
{
    match columns {
        Some(c) => {
            let w = if c >= 2 { c - 2 } else { 0 };
            if w < 20 { 20 } else { w }
        },
        None => DEFAULT_INNER_WIDTH,
    }
}

} // verus!
