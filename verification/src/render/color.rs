use vstd::prelude::*;
use crate::hex::{six_hex, six_hex_panics, six_hex_value, six_hex_would_panic};
use crate::render::style::{normalized, normalize_chars, RgbColor};
use crate::text::{chars_equal, chars_of, string_from};

verus! {

/// The colour written by six hexadecimal digits (without `#`).
pub open spec fn hex_rgb_of(s: Seq<char>) -> Option<RgbColor> {
    match six_hex(s) {
        Some((r, g, b)) => Some(RgbColor { r, g, b }),
        None => None,
    }
}

/// Reads six hexadecimal digits `RRGGBB` into a colour.
pub fn parse_hex_color(value: &str) -> (c: Option<RgbColor>)
    requires
        !six_hex_panics(value@),
    ensures
        c == hex_rgb_of(value@),
{
    let v = chars_of(value);
    match six_hex_value(&v) {
        Some((r, g, b)) => Some(RgbColor { r, g, b }),
        None => None,
    }
}

/// Whether `parse_hex_color` would slice inside a multi-byte character of `value`.
pub fn parse_hex_color_panics(value: &str) -> (b: bool)
    ensures
        b == six_hex_panics(value@),
{
    let v = chars_of(value);
    six_hex_would_panic(&v)
}

/// The colour that CSS names `name` (ASCII case ignored), from `cssparser`'s table of
/// named colours.
pub uninterp spec fn css_named_color(name: Seq<char>) -> Option<(u8, u8, u8)>;

/// `cssparser::color::parse_named_color`: looks `name` up in the table of CSS named
/// colours. The contract names the result `css_named_color(name@)` and says nothing
/// else of it.
#[verifier::external_body]
fn lookup_named_color(name: &str) -> (r: Option<(u8, u8, u8)>)
    ensures
        r == css_named_color(name@),
{
    cssparser::color::parse_named_color(name).ok()
}

/// The CSS keyword that a (normalized) terminal colour name stands for: the bright
/// ANSI colours map to their CSS counterparts, other names are kept.
pub open spec fn color_keyword(w: Seq<char>) -> Seq<char> {
    if w == "brightblack"@ {
        "gray"@
    } else if w == "brightred"@ {
        "red"@
    } else if w == "brightgreen"@ {
        "lime"@
    } else if w == "brightyellow"@ {
        "yellow"@
    } else if w == "brightblue"@ {
        "blue"@
    } else if w == "brightmagenta"@ || w == "brightpurple"@ {
        "magenta"@
    } else if w == "brightcyan"@ {
        "cyan"@
    } else if w == "brightwhite"@ {
        "white"@
    } else {
        w
    }
}

/// The colour a CSS colour keyword gives: `transparent` is black with no opacity, so
/// (premultiplied) black; `currentcolor` has no colour of its own; other keywords are
/// the named colours.
pub open spec fn keyword_color(k: Seq<char>) -> Option<RgbColor> {
    if k == "transparent"@ {
        Some(RgbColor { r: 0, g: 0, b: 0 })
    } else if k == "currentcolor"@ {
        None
    } else {
        match css_named_color(k) {
            Some((r, g, b)) => Some(RgbColor { r, g, b }),
            None => None,
        }
    }
}

/// The colour named `name`, normalized, with the bright terminal names mapped.
pub open spec fn named_color_of(name: Seq<char>) -> Option<RgbColor> {
    keyword_color(color_keyword(normalized(name)))
}

fn keyword_for(w: &Vec<char>) -> (k: Vec<char>)
    ensures
        k@ == color_keyword(w@),
{
    let mapped = if chars_equal(w, "brightblack") {
        "gray"
    } else if chars_equal(w, "brightred") {
        "red"
    } else if chars_equal(w, "brightgreen") {
        "lime"
    } else if chars_equal(w, "brightyellow") {
        "yellow"
    } else if chars_equal(w, "brightblue") {
        "blue"
    } else if chars_equal(w, "brightmagenta") || chars_equal(w, "brightpurple") {
        "magenta"
    } else if chars_equal(w, "brightcyan") {
        "cyan"
    } else if chars_equal(w, "brightwhite") {
        "white"
    } else {
        let mut k: Vec<char> = Vec::new();
        let n = w.len();
        for i in 0..n
            invariant
                n == w@.len(),
                k@ == w@.take(i as int),
        {
            k.push(w[i]);
            assert(k@ =~= w@.take(i + 1));
        }
        assert(w@.take(n as int) =~= w@);
        return k;
    };
    chars_of(mapped)
}

/// The colour that `name` names: a CSS colour keyword, or a bright terminal colour
/// name mapped to one.
pub fn named_color_rgb(name: &str) -> (c: Option<RgbColor>)
    ensures
        c == named_color_of(name@),
{
    let v = chars_of(name);
    let w = normalize_chars(&v);
    let k = keyword_for(&w);
    if chars_equal(&k, "transparent") {
        return Some(RgbColor { r: 0, g: 0, b: 0 });
    }
    if chars_equal(&k, "currentcolor") {
        return None;
    }
    let ks = string_from(&k);
    match lookup_named_color(ks.as_str()) {
        Some((r, g, b)) => Some(RgbColor { r, g, b }),
        None => None,
    }
}

} // verus!
