use vstd::prelude::*;
use vstd::string::StringExecFns;
use anstyle::{Color as AnsiColor, Effects, RgbColor as AnsiRgbColor, Style as AnsiStyle};
use crate::render::style::{
    Decorations, Fill, FillView, OverrideView, RgbColor, StyleOverride, StyleView, TextStyle,
    fallback_color, fill_opt_view, override_views, parsed_by, parses_anything,
    spec_fallback_color, spec_plain,
};
use crate::text::{chars_of, push_char};
use crate::page::first_match_from;

verus! {

/// The decimal digits of `n`, without leading zeros (`0` for zero), as `anstyle`
/// writes a colour component.
pub open spec fn decimal(n: u8) -> Seq<char> {
    let digit = |k: int| ((k + 48) as u32) as char;
    let m = n as int;
    if m >= 100 {
        seq![digit(m / 100), digit((m / 10) % 10), digit(m % 10)]
    } else if m >= 10 {
        seq![digit(m / 10), digit(m % 10)]
    } else {
        seq![digit(m)]
    }
}

/// `code` when `on`, else nothing.
pub open spec fn code_if(on: bool, code: Seq<char>) -> Seq<char> {
    if on {
        code
    } else {
        Seq::empty()
    }
}

/// The text that `anstyle` writes for the character `ch` styled with the foreground
/// colour `rgb` and the effects `(bold, italic, underline, strikethrough, dimmed,
/// reversed)`: the effect codes in `anstyle`'s order (bold, dimmed, italic,
/// underline, invert, strikethrough), the 24-bit colour code, the character, then
/// the reset code `ESC[0m` unless the style is plain.
#[verifier::opaque]
pub open spec fn ansi_styled_char(
    ch: char,
    rgb: Option<(u8, u8, u8)>,
    effects: (bool, bool, bool, bool, bool, bool),
) -> Seq<char> {
    let (bold, italic, underline, strikethrough, dimmed, invert) = effects;
    let plain = rgb is None && !bold && !italic && !underline && !strikethrough && !dimmed
        && !invert;
    code_if(bold, "\u{1b}[1m"@) + (code_if(dimmed, "\u{1b}[2m"@) + (code_if(italic, "\u{1b}[3m"@) + (
    code_if(underline, "\u{1b}[4m"@) + (code_if(invert, "\u{1b}[7m"@) + (code_if(
        strikethrough,
        "\u{1b}[9m"@,
    ) + (color_code(rgb) + (seq![ch] + code_if(!plain, "\u{1b}[0m"@))))))))
}

/// Formats `{style}{ch}{style:#}` with an `anstyle::Style` whose foreground colour is
/// `rgb` and whose effects are `effects` (bold, italic, underline, strikethrough,
/// dimmed, invert). The contract states the text, as `anstyle`'s `Display` for
/// `Style` writes it (`ansi_styled_char`).
#[verifier::external_body]
fn paint_char(ch: char, rgb: Option<(u8, u8, u8)>, effects: (bool, bool, bool, bool, bool, bool)) -> (painted: String)
    ensures
        painted@ == ansi_styled_char(ch, rgb, effects),
{
    let (bold, italic, underline, strikethrough, dimmed, invert) = effects;
    let fx = Effects::new().set(Effects::BOLD, bold).set(Effects::ITALIC, italic).set(
        Effects::UNDERLINE,
        underline,
    ).set(Effects::STRIKETHROUGH, strikethrough).set(Effects::DIMMED, dimmed).set(Effects::INVERT, invert);
    let style = AnsiStyle::new().fg_color(rgb.map(|(r, g, b)| AnsiColor::Rgb(AnsiRgbColor(r, g, b)))).effects(fx);
    format!("{style}{ch}{style:#}")
}

/// The colour as a tuple.
pub open spec fn rgb_tuple(c: Option<RgbColor>) -> Option<(u8, u8, u8)> {
    match c {
        Some(x) => Some((x.r, x.g, x.b)),
        None => None,
    }
}

/// The effects as a tuple.
pub open spec fn effects_tuple(d: Decorations) -> (bool, bool, bool, bool, bool, bool) {
    (d.bold, d.italic, d.underline, d.strikethrough, d.dimmed, d.reversed)
}

/// The text shown for one character: the character alone when it has no colour and no
/// effect, else the character wrapped in its escape codes.
pub open spec fn painted_char(ch: char, color: Option<RgbColor>, d: Decorations) -> Seq<char> {
    if color is None && d == spec_plain() {
        seq![ch]
    } else {
        ansi_styled_char(ch, rgb_tuple(color), effects_tuple(d))
    }
}

/// Styles one character.
pub fn style_char(ch: char, color: Option<RgbColor>, decorations: Decorations) -> (s: String)
    ensures
        s@ == painted_char(ch, color, decorations),
{
    if color.is_none() && decorations.is_plain() {
        let mut s = String::new();
        push_char(&mut s, ch);
        assert(s@ =~= seq![ch]);
        return s;
    }
    let rgb = match color {
        Some(c) => Some((c.r, c.g, c.b)),
        None => None,
    };
    paint_char(
        ch,
        rgb,
        (
            decorations.bold,
            decorations.italic,
            decorations.underline,
            decorations.strikethrough,
            decorations.dimmed,
            decorations.reversed,
        ),
    )
}

proof fn lemma_or_effect(a: Decorations, b: Decorations, k: int)
    ensures
        crate::render::style::effect_on(a.or(b), k) == (crate::render::style::effect_on(a, k)
            || crate::render::style::effect_on(b, k)),
{
}

/// An override adds effects and never removes any: effect `k` is on at character `i`
/// exactly when it is on in the base or in some override that covers `i`.
pub proof fn lemma_decorations_at_combine(base: Decorations, ovs: Seq<OverrideView>, i: int)
    ensures
        forall|k: int|
            0 <= k < 6 ==> (crate::render::style::effect_on(#[trigger] decorations_at(base, ovs, i), k)
                <==> crate::render::style::effect_on(base, k) || exists|j: int|
                0 <= j < ovs.len() && covers(ovs[j], i) && crate::render::style::effect_on(
                    #[trigger] ovs[j].style.decorations,
                    k,
                )),
    decreases ovs.len(),
{
    if ovs.len() > 0 {
        let p = ovs.drop_last();
        lemma_decorations_at_combine(base, p, i);
        let n = ovs.len() - 1;
        assert(ovs.last() == ovs[n]);
        let dp = decorations_at(base, p, i);
        assert forall|k: int| 0 <= k < 6 implies crate::render::style::effect_on(
            #[trigger] decorations_at(base, ovs, i),
            k,
        ) == (crate::render::style::effect_on(dp, k) || (covers(ovs[n], i)
            && crate::render::style::effect_on(ovs[n].style.decorations, k))) by {
            lemma_or_effect(dp, ovs[n].style.decorations, k);
        }
        assert forall|k: int| 0 <= k < 6 implies (crate::render::style::effect_on(
            #[trigger] decorations_at(base, ovs, i),
            k,
        ) <==> crate::render::style::effect_on(base, k) || exists|j: int|
            0 <= j < ovs.len() && covers(ovs[j], i) && crate::render::style::effect_on(
                #[trigger] ovs[j].style.decorations,
                k,
            )) by {
            if exists|j: int|
                0 <= j < ovs.len() && covers(ovs[j], i) && crate::render::style::effect_on(
                    #[trigger] ovs[j].style.decorations,
                    k,
                ) {
                let j = choose|j: int|
                    0 <= j < ovs.len() && covers(ovs[j], i) && crate::render::style::effect_on(
                        #[trigger] ovs[j].style.decorations,
                        k,
                    );
                if j < n {
                    assert(p[j] == ovs[j]);
                    assert(crate::render::style::effect_on(p[j].style.decorations, k));
                }
            }
            if exists|j: int|
                0 <= j < p.len() && covers(p[j], i) && crate::render::style::effect_on(
                    #[trigger] p[j].style.decorations,
                    k,
                ) {
                let j = choose|j: int|
                    0 <= j < p.len() && covers(p[j], i) && crate::render::style::effect_on(
                        #[trigger] p[j].style.decorations,
                        k,
                    );
                assert(p[j] == ovs[j]);
                assert(crate::render::style::effect_on(ovs[j].style.decorations, k));
            }
        }
    }
}


/// Where a character's colour comes from.
#[derive(Clone, Copy, Debug, PartialEq, Eq, Structural)]
pub enum FillSource {
    /// No colour.
    Unfilled,
    /// The base style's fill.
    Base,
    /// The fill of the override with this index.
    Override(usize),
}

/// Whether override `o` covers character `i`.
pub open spec fn covers(o: OverrideView, i: int) -> bool {
    o.start <= i < o.end
}

/// The effects of character `i`: the base effects and those of every override that
/// covers it.
pub open spec fn decorations_at(base: Decorations, ovs: Seq<OverrideView>, i: int) -> Decorations
    decreases ovs.len(),
{
    if ovs.len() == 0 {
        base
    } else {
        let d = decorations_at(base, ovs.drop_last(), i);
        if covers(ovs.last(), i) {
            d.or(ovs.last().style.decorations)
        } else {
            d
        }
    }
}

/// Where the colour of character `i` comes from: the last override that covers it
/// and has a fill, else the base style when it has a fill.
pub open spec fn source_at(base_filled: bool, ovs: Seq<OverrideView>, i: int) -> FillSource
    decreases ovs.len(),
{
    if ovs.len() == 0 {
        if base_filled {
            FillSource::Base
        } else {
            FillSource::Unfilled
        }
    } else if covers(ovs.last(), i) && ovs.last().style.fill is Some {
        FillSource::Override((ovs.len() - 1) as usize)
    } else {
        source_at(base_filled, ovs.drop_last(), i)
    }
}

/// The sources of the first `n` characters.
pub open spec fn sources(base: StyleView, ovs: Seq<OverrideView>, n: int) -> Seq<FillSource> {
    Seq::new(n as nat, |i: int| source_at(base.fill is Some, ovs, i))
}

/// How many of the first `k` characters take their colour from `s`.
pub open spec fn count_source(srcs: Seq<FillSource>, s: FillSource, k: int) -> nat
    decreases k,
{
    if k <= 0 {
        0
    } else {
        count_source(srcs, s, k - 1) + if srcs[k - 1] == s {
            1nat
        } else {
            0nat
        }
    }
}

/// A character takes its colour from the last override that covers it and has a
/// fill; from the base style, when it has a fill, only if no such override exists;
/// and from nothing when neither does.
pub proof fn lemma_source_is_last_filled_override(base_filled: bool, ovs: Seq<OverrideView>, i: int)
    requires
        ovs.len() <= usize::MAX,
    ensures
        source_at(base_filled, ovs, i) matches FillSource::Override(j) ==> 0 <= j < ovs.len() && covers(
            ovs[j as int],
            i,
        ) && ovs[j as int].style.fill is Some && forall|l: int|
            j < l < ovs.len() ==> !(covers(#[trigger] ovs[l], i) && ovs[l].style.fill is Some),
        !(source_at(base_filled, ovs, i) is Override) ==> forall|l: int|
            0 <= l < ovs.len() ==> !(covers(#[trigger] ovs[l], i) && ovs[l].style.fill is Some),
        source_at(base_filled, ovs, i) is Base <==> (base_filled && !(source_at(base_filled, ovs, i) is Override)),
        source_at(base_filled, ovs, i) is Unfilled <==> (!base_filled && !(source_at(
            base_filled,
            ovs,
            i,
        ) is Override)),
    decreases ovs.len(),
{
    if ovs.len() > 0 {
        let p = ovs.drop_last();
        lemma_source_is_last_filled_override(base_filled, p, i);
        let n = ovs.len() - 1;
        assert(ovs.last() == ovs[n]);
        if !(covers(ovs[n], i) && ovs[n].style.fill is Some) {
            match source_at(base_filled, p, i) {
                FillSource::Override(j) => {
                    assert forall|l: int| j < l < ovs.len() implies !(covers(#[trigger] ovs[l], i)
                        && ovs[l].style.fill is Some) by {
                        if l < n {
                            assert(ovs[l] == p[l]);
                        }
                    }
                    assert(ovs[j as int] == p[j as int]);
                },
                _ => {
                    assert forall|l: int| 0 <= l < ovs.len() implies !(covers(#[trigger] ovs[l], i)
                        && ovs[l].style.fill is Some) by {
                        if l < n {
                            assert(ovs[l] == p[l]);
                        }
                    }
                },
            }
        }
    }
}

/// Characters of one source are coloured in turn: a later character of the source has
/// a higher rank, and every rank is below the source's number of characters.
pub proof fn lemma_ranks_in_order(srcs: Seq<FillSource>, s: FillSource, i: int, j: int)
    requires
        0 <= i < j <= srcs.len(),
        srcs[i] == s,
    ensures
        count_source(srcs, s, i) < count_source(srcs, s, j),
    decreases j - i,
{
    if j == i + 1 {
    } else {
        lemma_ranks_in_order(srcs, s, i, j - 1);
    }
}

/// The fill that source `s` stands for.
pub open spec fn fill_of_source(base: StyleView, ovs: Seq<OverrideView>, s: FillSource) -> FillView {
    match s {
        FillSource::Override(k) => ovs[k as int].style.fill.unwrap(),
        _ => base.fill.unwrap(),
    }
}

/// `shade` may answer `c` for step `step` of `total` of the fill `fv`.
pub open spec fn shaded_by<S: Fn(&Fill, usize, usize) -> RgbColor>(
    shade: S,
    fv: FillView,
    step: int,
    total: int,
    c: RgbColor,
) -> bool {
    exists|f: Fill| f@ == fv && #[trigger] call_ensures(shade, (&f, step as usize, total as usize), c)
}

/// `c` is the colour at step `step` of `total` of the fill `fv`: a solid fill's own
/// colour, else an answer of `shade`.
pub open spec fn color_ok<S: Fn(&Fill, usize, usize) -> RgbColor>(
    shade: S,
    fv: FillView,
    step: int,
    total: int,
    c: RgbColor,
) -> bool {
    match fv {
        FillView::Solid(x) => c == x,
        _ => shaded_by(shade, fv, step, total, c),
    }
}

/// `colors` colour the `n` characters: a character takes the colour of its source's
/// fill at its rank among the characters of that source, out of their number.
pub open spec fn colors_ok<S: Fn(&Fill, usize, usize) -> RgbColor>(
    shade: S,
    base: StyleView,
    ovs: Seq<OverrideView>,
    n: int,
    colors: Seq<Option<RgbColor>>,
) -> bool {
    let srcs = sources(base, ovs, n);
    &&& colors.len() == n
    &&& forall|i: int|
        0 <= i < n ==> match #[trigger] srcs[i] {
            FillSource::Unfilled => colors[i] is None,
            _ => colors[i] is Some && color_ok(
                shade,
                fill_of_source(base, ovs, srcs[i]),
                count_source(srcs, srcs[i], i) as int,
                count_source(srcs, srcs[i], n) as int,
                colors[i].unwrap(),
            ),
        }
}

/// The text shown for the first `k` characters of `chars`.
pub open spec fn painted(
    chars: Seq<char>,
    colors: Seq<Option<RgbColor>>,
    base: Decorations,
    ovs: Seq<OverrideView>,
    k: int,
) -> Seq<char>
    decreases k,
{
    if k <= 0 {
        Seq::empty()
    } else {
        painted(chars, colors, base, ovs, k - 1) + painted_char(
            chars[k - 1],
            colors[k - 1],
            decorations_at(base, ovs, k - 1),
        )
    }
}

/// `out` is `text` styled with `base` and the overrides `ovs`, with some colouring
/// that `colors_ok` allows.
pub open spec fn styled_ok<S: Fn(&Fill, usize, usize) -> RgbColor>(
    shade: S,
    text: Seq<char>,
    base: StyleView,
    ovs: Seq<OverrideView>,
    out: Seq<char>,
) -> bool {
    exists|colors: Seq<Option<RgbColor>>|
        #[trigger] colors_ok(shade, base, ovs, text.len() as int, colors) && out == painted(
            text,
            colors,
            base.decorations,
            ovs,
            text.len() as int,
        )
}

/// `shade` may be asked anything.
pub open spec fn shades_anything<S: Fn(&Fill, usize, usize) -> RgbColor>(shade: S) -> bool {
    forall|f: &Fill, s: usize, t: usize| #[trigger] call_requires(shade, (f, s, t))
}

fn classify(i: usize, base: &TextStyle, overrides: &Vec<StyleOverride>) -> (r: (Decorations, FillSource))
    ensures
        r.0 == decorations_at(base.decorations, override_views(overrides@), i as int),
        r.1 == source_at(base.fill is Some, override_views(overrides@), i as int),
{
    let ghost ovs = override_views(overrides@);
    let mut d = base.decorations;
    let mut src = if base.fill.is_some() {
        FillSource::Base
    } else {
        FillSource::Unfilled
    };
    let m = overrides.len();
    for k in 0..m
        invariant
            m == overrides@.len(),
            ovs == override_views(overrides@),
            d == decorations_at(base.decorations, ovs.take(k as int), i as int),
            src == source_at(base.fill is Some, ovs.take(k as int), i as int),
    {
        let o = &overrides[k];
        assert(ovs.take(k + 1).drop_last() =~= ovs.take(k as int));
        assert(ovs.take(k + 1).last() == o@);
        if o.range.start <= i && i < o.range.end {
            d.apply_override(o.style.decorations);
            if o.style.fill.is_some() {
                src = FillSource::Override(k);
            }
        }
    }
    assert(ovs.take(m as int) =~= ovs);
    (d, src)
}

proof fn lemma_source_bound(base_filled: bool, ovs: Seq<OverrideView>, i: int)
    requires
        ovs.len() <= usize::MAX,
    ensures
        source_at(base_filled, ovs, i) matches FillSource::Override(k) ==> k < ovs.len() && ovs[k as int].style.fill is Some,
        source_at(base_filled, ovs, i) is Base ==> base_filled,
    decreases ovs.len(),
{
    if ovs.len() > 0 {
        lemma_source_bound(base_filled, ovs.drop_last(), i);
    }
}

fn fill_color<S: Fn(&Fill, usize, usize) -> RgbColor>(
    fill: &Fill,
    step: usize,
    total: usize,
    shade: &S,
) -> (c: RgbColor)
    requires
        shades_anything(*shade),
    ensures
        color_ok(*shade, fill@, step as int, total as int, c),
{
    match fill {
        Fill::Solid(x) => {
            let r = *x;
            assert(fill@ == FillView::Solid(r));
            assert(color_ok(*shade, FillView::Solid(r), step as int, total as int, r));
            assert(color_ok(*shade, fill@, step as int, total as int, r));
            r
        },
        _ => {
            let c = shade(fill, step, total);
            assert(call_ensures(*shade, (fill, step, total), c));
            let ghost f = *fill;
            assert(call_ensures(*shade, (&f, (step as int) as usize, (total as int) as usize), c));
            assert(shaded_by(*shade, fill@, step as int, total as int, c));
            c
        },
    }
}

/// Styles `text`: every character gets the effects of `base_style` and of the
/// overrides that cover it, and a colour from the last covering override with a fill
/// (else from the base fill). Characters that share a fill are coloured in turn, each
/// with its rank among them and their number; solid fills give their own colour and
/// gradients and rainbows the colour that `shade` computes.
pub fn style_text<S: Fn(&Fill, usize, usize) -> RgbColor>(
    text: &str,
    base_style: &TextStyle,
    overrides: &Vec<StyleOverride>,
    shade: &S,
) -> (out: String)
    requires
        shades_anything(*shade),
    ensures
        styled_ok(*shade, text@, base_style@, override_views(overrides@), out@),
{
    let chars = chars_of(text);
    let n = chars.len();
    let m = overrides.len();
    let ghost ovs = override_views(overrides@);
    let ghost base = base_style@;
    let ghost srcs = sources(base, ovs, n as int);
    let mut decs: Vec<Decorations> = Vec::new();
    let mut srcv: Vec<FillSource> = Vec::new();
    for i in 0..n
        invariant
            n == chars@.len(),
            m == overrides@.len(),
            ovs == override_views(overrides@),
            base == base_style@,
            srcs == sources(base, ovs, n as int),
            decs@.len() == i,
            srcv@.len() == i,
            forall|j: int| 0 <= j < i ==> #[trigger] decs@[j] == decorations_at(base_style.decorations, ovs, j),
            forall|j: int| 0 <= j < i ==> #[trigger] srcv@[j] == srcs[j],
    {
        let (d, s) = classify(i, base_style, overrides);
        decs.push(d);
        srcv.push(s);
    }
    let mut base_total: usize = 0;
    let mut totals: Vec<usize> = Vec::new();
    for t in 0..m
        invariant
            totals@.len() == t,
            forall|u: int| 0 <= u < t ==> #[trigger] totals@[u] == 0,
    {
        totals.push(0);
    }
    for i in 0..n
        invariant
            n == chars@.len(),
            m == overrides@.len(),
            ovs == override_views(overrides@),
            srcs == sources(base, ovs, n as int),
            srcv@.len() == n,
            forall|j: int| 0 <= j < n ==> #[trigger] srcv@[j] == srcs[j],
            base_total == count_source(srcs, FillSource::Base, i as int),
            base_total <= i,
            totals@.len() == m,
            forall|u: int| 0 <= u < m ==> #[trigger] totals@[u] == count_source(srcs, FillSource::Override(u as usize), i as int),
            forall|u: int| 0 <= u < m ==> #[trigger] totals@[u] <= i,
    {
        let s = srcv[i];
        proof {
            lemma_source_bound(base.fill is Some, ovs, i as int);
        }
        match s {
            FillSource::Unfilled => {},
            FillSource::Base => {
                base_total = base_total + 1;
            },
            FillSource::Override(k) => {
                totals.set(k, totals[k] + 1);
            },
        }
        assert forall|u: int| 0 <= u < m implies #[trigger] totals@[u] == count_source(srcs, FillSource::Override(u as usize), i + 1) by {
            assert(count_source(srcs, FillSource::Override(u as usize), i + 1) == count_source(srcs, FillSource::Override(u as usize), i as int) + if srcs[i as int] == FillSource::Override(u as usize) { 1nat } else { 0nat });
        }
        assert(count_source(srcs, FillSource::Base, i + 1) == count_source(srcs, FillSource::Base, i as int) + if srcs[i as int] == FillSource::Base { 1nat } else { 0nat });
    }
    let mut base_count: usize = 0;
    let mut counters: Vec<usize> = Vec::new();
    for t in 0..m
        invariant
            counters@.len() == t,
            forall|u: int| 0 <= u < t ==> #[trigger] counters@[u] == 0,
    {
        counters.push(0);
    }
    let mut out = String::new();
    let ghost mut colors: Seq<Option<RgbColor>> = Seq::empty();
    for i in 0..n
        invariant
            n == chars@.len(),
            chars@ == text@,
            m == overrides@.len(),
            ovs == override_views(overrides@),
            base == base_style@,
            shades_anything(*shade),
            srcs == sources(base, ovs, n as int),
            srcv@.len() == n,
            decs@.len() == n,
            forall|j: int| 0 <= j < n ==> #[trigger] srcv@[j] == srcs[j],
            forall|j: int| 0 <= j < n ==> #[trigger] decs@[j] == decorations_at(base_style.decorations, ovs, j),
            base_total == count_source(srcs, FillSource::Base, n as int),
            totals@.len() == m,
            forall|u: int| 0 <= u < m ==> #[trigger] totals@[u] == count_source(srcs, FillSource::Override(u as usize), n as int),
            base_count == count_source(srcs, FillSource::Base, i as int),
            base_count <= i,
            counters@.len() == m,
            forall|u: int| 0 <= u < m ==> #[trigger] counters@[u] == count_source(srcs, FillSource::Override(u as usize), i as int),
            forall|u: int| 0 <= u < m ==> #[trigger] counters@[u] <= i,
            colors.len() == i,
            forall|j: int| 0 <= j < i ==> match #[trigger] srcs[j] {
                FillSource::Unfilled => colors[j] is None,
                _ => colors[j] is Some && color_ok(
                    *shade,
                    fill_of_source(base, ovs, srcs[j]),
                    count_source(srcs, srcs[j], j) as int,
                    count_source(srcs, srcs[j], n as int) as int,
                    colors[j].unwrap(),
                ),
            },
            out@ == painted(text@, colors, base_style.decorations, ovs, i as int),
    {
        let s = srcv[i];
        proof {
            lemma_source_bound(base.fill is Some, ovs, i as int);
        }
        let color: Option<RgbColor> = match s {
            FillSource::Unfilled => None,
            FillSource::Base => {
                let step = base_count;
                let fill = base_style.fill.as_ref().unwrap();
                let c = fill_color(fill, step, base_total, shade);
                base_count = step + 1;
                Some(c)
            },
            FillSource::Override(k) => {
                let step = counters[k];
                let total = totals[k];
                let o = &overrides[k];
                assert(ovs[k as int] == o@);
                let fill = o.style.fill.as_ref().unwrap();
                let c = fill_color(fill, step, total, shade);
                counters.set(k, step + 1);
                Some(c)
            },
        };
        assert forall|u: int| 0 <= u < m implies #[trigger] counters@[u] == count_source(srcs, FillSource::Override(u as usize), i + 1) by {
            assert(count_source(srcs, FillSource::Override(u as usize), i + 1) == count_source(srcs, FillSource::Override(u as usize), i as int) + if srcs[i as int] == FillSource::Override(u as usize) { 1nat } else { 0nat });
        }
        assert(count_source(srcs, FillSource::Base, i + 1) == count_source(srcs, FillSource::Base, i as int) + if srcs[i as int] == FillSource::Base { 1nat } else { 0nat });
        let piece = style_char(chars[i], color, decs[i]);
        let ghost prev_colors = colors;
        proof {
            colors = colors.push(color);
            lemma_painted_prefix(text@, prev_colors, colors, base_style.decorations, ovs, i as int);
            assert(painted(text@, colors, base_style.decorations, ovs, i + 1) == painted(text@, colors, base_style.decorations, ovs, i as int) + painted_char(text@[i as int], colors[i as int], decorations_at(base_style.decorations, ovs, i as int)));
        }
        out.append(piece.as_str());
    }
    proof {
        assert(colors_ok(*shade, base, ovs, n as int, colors));
    }
    out
}

proof fn lemma_painted_prefix(
    chars: Seq<char>,
    c1: Seq<Option<RgbColor>>,
    c2: Seq<Option<RgbColor>>,
    base: Decorations,
    ovs: Seq<OverrideView>,
    k: int,
)
    requires
        0 <= k <= c1.len(),
        k <= c2.len(),
        forall|j: int| 0 <= j < k ==> c1[j] == c2[j],
    ensures
        painted(chars, c1, base, ovs, k) == painted(chars, c2, base, ovs, k),
    decreases k,
{
    if k > 0 {
        lemma_painted_prefix(chars, c1, c2, base, ovs, k - 1);
    }
}

/// The style of text painted with the theme colour: no effects, and the fill that
/// the theme colour gives, or the fallback colour where it gives none.
pub open spec fn theme_style(ans: Option<FillView>) -> StyleView {
    StyleView {
        decorations: spec_plain(),
        fill: Some(
            match ans {
                Some(f) => f,
                None => FillView::Solid(spec_fallback_color()),
            },
        ),
    }
}

/// `text` painted with the theme colour, which `parse_fill` reads (the fallback
/// colour where it reads none); colours of gradients and rainbows come from `shade`.
pub fn paint_theme<P: Fn(&str) -> Option<Fill>, S: Fn(&Fill, usize, usize) -> RgbColor>(
    text: &str,
    theme_color: &str,
    parse_fill: &P,
    shade: &S,
) -> (out: String)
    requires
        parses_anything(*parse_fill),
        shades_anything(*shade),
    ensures
        exists|ans: Option<FillView>|
            #[trigger] parsed_by(*parse_fill, theme_color@, ans) && styled_ok(
                *shade,
                text@,
                theme_style(ans),
                Seq::empty(),
                out@,
            ),
{
    let ans = parse_fill(theme_color);
    assert(call_ensures(*parse_fill, (theme_color,), ans));
    assert(parsed_by(*parse_fill, theme_color@, fill_opt_view(ans)));
    let fill = match ans {
        Some(f) => f,
        None => Fill::Solid(fallback_color()),
    };
    let style = TextStyle { decorations: Decorations::plain(), fill: Some(fill) };
    let none: Vec<StyleOverride> = Vec::new();
    assert(override_views(none@) =~= Seq::<OverrideView>::empty());
    style_text(text, &style, &none, shade)
}

// ---------------------------------------------------------------- escape codes removed

/// `s` with its escape codes `ESC [ … m` removed (an `ESC [` that no `m` closes is
/// removed to the end).
#[verifier::opaque]
pub open spec fn strip_codes(s: Seq<char>) -> Seq<char>
    decreases s.len(),
{
    if s.len() == 0 {
        s
    } else if s.len() >= 2 && s[0] == '\u{1b}' && s[1] == '[' {
        match first_match_from(s, seq!['m'], 2) {
            Some(j) => if 2 <= j < s.len() {
                strip_codes(s.skip(j + 1))
            } else {
                Seq::empty()
            },
            None => Seq::empty(),
        }
    } else {
        seq![s[0]] + strip_codes(s.drop_first())
    }
}

proof fn lemma_first_m(s: Seq<char>, from: int, to: int)
    requires
        0 <= from <= to < s.len(),
        s[to] == 'm',
        forall|k: int| from <= k < to ==> s[k] != 'm',
    ensures
        first_match_from(s, seq!['m'], from) == Some(to),
    decreases to - from,
{
    assert(s.subrange(from, from + 1) =~= seq![s[from]]);
    if from < to {
        assert(s.subrange(from, from + 1) != seq!['m']) by {
            assert(s.subrange(from, from + 1)[0] == s[from]);
        }
        lemma_first_m(s, from + 1, to);
    }
}

/// Removing codes from an escape code followed by `rest` leaves `rest` with its
/// codes removed.
proof fn lemma_strip_code(body: Seq<char>, rest: Seq<char>)
    requires
        forall|k: int| 0 <= k < body.len() ==> #[trigger] body[k] != 'm',
    ensures
        strip_codes(seq!['\u{1b}', '['] + body + seq!['m'] + rest) == strip_codes(rest),
{
    reveal(strip_codes);
    let s = seq!['\u{1b}', '['] + body + seq!['m'] + rest;
    let to: int = 2 + body.len() as int;
    assert(s[0] == '\u{1b}' && s[1] == '[');
    assert(s[to] == 'm');
    assert forall|k: int| 2 <= k < to implies s[k] != 'm' by {
        assert(s[k] == body[k - 2]);
    }
    lemma_first_m(s, 2, to);
    assert(s.skip(to + 1) =~= rest);
}

proof fn lemma_strip_keep(c: char, rest: Seq<char>)
    requires
        c != '\u{1b}',
    ensures
        strip_codes(seq![c] + rest) == seq![c] + strip_codes(rest),
{
    reveal(strip_codes);
    assert((seq![c] + rest).drop_first() =~= rest);
}

/// A one-digit effect code.
proof fn lemma_strip_effect(on: bool, code: Seq<char>, digit: char, rest: Seq<char>)
    requires
        code == seq!['\u{1b}', '[', digit, 'm'],
        digit != 'm',
    ensures
        strip_codes(code_if(on, code) + rest) == strip_codes(rest),
{
    if on {
        assert(code =~= seq!['\u{1b}', '['] + seq![digit] + seq!['m']);
        lemma_strip_code(seq![digit], rest);
        assert(code_if(on, code) + rest =~= seq!['\u{1b}', '['] + seq![digit] + seq!['m'] + rest);
    } else {
        assert(code_if(on, code) + rest =~= rest);
    }
}

proof fn lemma_decimal_no_m(n: u8)
    ensures
        forall|k: int| 0 <= k < decimal(n).len() ==> #[trigger] decimal(n)[k] != 'm',
{
    let m = n as int;
    assert forall|k: int| 0 <= k < decimal(n).len() implies #[trigger] decimal(n)[k] != 'm' by {
        let d = decimal(n)[k];
        assert((d as u32) < 58);
    }
}

proof fn lemma_code_literals()
    ensures
        "\u{1b}[1m"@ == seq!['\u{1b}', '[', '1', 'm'],
        "\u{1b}[2m"@ == seq!['\u{1b}', '[', '2', 'm'],
        "\u{1b}[3m"@ == seq!['\u{1b}', '[', '3', 'm'],
        "\u{1b}[4m"@ == seq!['\u{1b}', '[', '4', 'm'],
        "\u{1b}[7m"@ == seq!['\u{1b}', '[', '7', 'm'],
        "\u{1b}[9m"@ == seq!['\u{1b}', '[', '9', 'm'],
        "\u{1b}[0m"@ == seq!['\u{1b}', '[', '0', 'm'],
        "\u{1b}[38;2;"@ == seq!['\u{1b}', '[', '3', '8', ';', '2', ';'],
        ";"@ == seq![';'],
        "m"@ == seq!['m'],
{
    reveal_strlit("\u{1b}[1m");
    reveal_strlit("\u{1b}[2m");
    reveal_strlit("\u{1b}[3m");
    reveal_strlit("\u{1b}[4m");
    reveal_strlit("\u{1b}[7m");
    reveal_strlit("\u{1b}[9m");
    reveal_strlit("\u{1b}[0m");
    reveal_strlit("\u{1b}[38;2;");
    reveal_strlit(";");
    reveal_strlit("m");
    assert("\u{1b}[1m"@ =~= seq!['\u{1b}', '[', '1', 'm']);
    assert("\u{1b}[2m"@ =~= seq!['\u{1b}', '[', '2', 'm']);
    assert("\u{1b}[3m"@ =~= seq!['\u{1b}', '[', '3', 'm']);
    assert("\u{1b}[4m"@ =~= seq!['\u{1b}', '[', '4', 'm']);
    assert("\u{1b}[7m"@ =~= seq!['\u{1b}', '[', '7', 'm']);
    assert("\u{1b}[9m"@ =~= seq!['\u{1b}', '[', '9', 'm']);
    assert("\u{1b}[0m"@ =~= seq!['\u{1b}', '[', '0', 'm']);
    assert("\u{1b}[38;2;"@ =~= seq!['\u{1b}', '[', '3', '8', ';', '2', ';']);
    assert(";"@ =~= seq![';']);
    assert("m"@ =~= seq!['m']);
}

/// The 24-bit colour code.
pub open spec fn color_code(rgb: Option<(u8, u8, u8)>) -> Seq<char> {
    match rgb {
        Some((r, g, b)) => "\u{1b}[38;2;"@ + decimal(r) + ";"@ + decimal(g) + ";"@ + decimal(b)
            + "m"@,
        None => Seq::empty(),
    }
}

proof fn lemma_strip_color(rgb: Option<(u8, u8, u8)>, rest: Seq<char>)
    ensures
        strip_codes(color_code(rgb) + rest) == strip_codes(rest),
{
    lemma_code_literals();
    match rgb {
        Some((r, g, b)) => {
            let body = seq!['3', '8', ';', '2', ';'] + decimal(r) + seq![';'] + decimal(g) + seq![';']
                + decimal(b);
            lemma_decimal_no_m(r);
            lemma_decimal_no_m(g);
            lemma_decimal_no_m(b);
            assert forall|k: int| 0 <= k < body.len() implies #[trigger] body[k] != 'm' by {
                let a = 5 + decimal(r).len();
                let b2 = a + 1 + decimal(g).len();
                if k < 5 {
                } else if k < a {
                    assert(body[k] == decimal(r)[k - 5]);
                } else if k == a {
                } else if k < b2 {
                    assert(body[k] == decimal(g)[k - a - 1]);
                } else if k == b2 {
                } else {
                    assert(body[k] == decimal(b)[k - b2 - 1]);
                }
            }
            lemma_strip_code(body, rest);
            assert(color_code(rgb) + rest =~= seq!['\u{1b}', '['] + body + seq!['m'] + rest);
        },
        None => {
            assert(color_code(rgb) + rest =~= rest);
        },
    }
}

proof fn lemma_strip_front_effect(on: bool, code: Seq<char>, digit: char, y: Seq<char>, rest: Seq<char>)
    requires
        code == seq!['\u{1b}', '[', digit, 'm'],
        digit != 'm',
    ensures
        strip_codes((code_if(on, code) + y) + rest) == strip_codes(y + rest),
{
    assert((code_if(on, code) + y) + rest =~= code_if(on, code) + (y + rest));
    lemma_strip_effect(on, code, digit, y + rest);
}

proof fn lemma_strip_ansi(
    ch: char,
    rgb: Option<(u8, u8, u8)>,
    fx: (bool, bool, bool, bool, bool, bool),
    rest: Seq<char>,
)
    requires
        ch != '\u{1b}',
    ensures
        strip_codes(ansi_styled_char(ch, rgb, fx) + rest) == seq![ch] + strip_codes(rest),
{
    lemma_code_literals();
    let (bold, italic, underline, strikethrough, dimmed, invert) = fx;
    let plain = rgb is None && !bold && !italic && !underline && !strikethrough && !dimmed
        && !invert;
    let reset = code_if(!plain, "\u{1b}[0m"@);
    let y7 = seq![ch] + reset;
    let y6 = color_code(rgb) + y7;
    let y5 = code_if(strikethrough, "\u{1b}[9m"@) + y6;
    let y4 = code_if(invert, "\u{1b}[7m"@) + y5;
    let y3 = code_if(underline, "\u{1b}[4m"@) + y4;
    let y2 = code_if(italic, "\u{1b}[3m"@) + y3;
    let y1 = code_if(dimmed, "\u{1b}[2m"@) + y2;
    assert(ansi_styled_char(ch, rgb, fx) == code_if(bold, "\u{1b}[1m"@) + y1) by {
        reveal(ansi_styled_char);
    }
    lemma_strip_front_effect(bold, "\u{1b}[1m"@, '1', y1, rest);
    lemma_strip_front_effect(dimmed, "\u{1b}[2m"@, '2', y2, rest);
    lemma_strip_front_effect(italic, "\u{1b}[3m"@, '3', y3, rest);
    lemma_strip_front_effect(underline, "\u{1b}[4m"@, '4', y4, rest);
    lemma_strip_front_effect(invert, "\u{1b}[7m"@, '7', y5, rest);
    lemma_strip_front_effect(strikethrough, "\u{1b}[9m"@, '9', y6, rest);
    assert(y6 + rest =~= color_code(rgb) + (y7 + rest));
    lemma_strip_color(rgb, y7 + rest);
    assert(y7 + rest =~= seq![ch] + (reset + rest));
    lemma_strip_keep(ch, reset + rest);
    lemma_strip_effect(!plain, "\u{1b}[0m"@, '0', rest);
}

/// Removing the codes from a painted character followed by `rest` leaves the
/// character followed by `rest` with its codes removed.
proof fn lemma_strip_painted_char(ch: char, color: Option<RgbColor>, d: Decorations, rest: Seq<char>)
    requires
        ch != '\u{1b}',
    ensures
        strip_codes(painted_char(ch, color, d) + rest) == seq![ch] + strip_codes(rest),
{
    if color is None && d == spec_plain() {
        lemma_strip_keep(ch, rest);
    } else {
        lemma_strip_ansi(ch, rgb_tuple(color), effects_tuple(d), rest);
    }
}

proof fn lemma_strip_painted(
    chars: Seq<char>,
    colors: Seq<Option<RgbColor>>,
    base: Decorations,
    ovs: Seq<OverrideView>,
    k: int,
    rest: Seq<char>,
)
    requires
        0 <= k <= chars.len(),
        forall|i: int| 0 <= i < chars.len() ==> #[trigger] chars[i] != '\u{1b}',
    ensures
        strip_codes(painted(chars, colors, base, ovs, k) + rest) == chars.take(k) + strip_codes(rest),
    decreases k,
{
    if k == 0 {
        assert(painted(chars, colors, base, ovs, 0) + rest =~= rest);
        assert(chars.take(0) + strip_codes(rest) =~= strip_codes(rest));
    } else {
        let pc = painted_char(chars[k - 1], colors[k - 1], decorations_at(base, ovs, k - 1));
        lemma_strip_painted(chars, colors, base, ovs, k - 1, pc + rest);
        assert(painted(chars, colors, base, ovs, k) + rest =~= painted(chars, colors, base, ovs, k - 1)
            + (pc + rest));
        lemma_strip_painted_char(chars[k - 1], colors[k - 1], decorations_at(base, ovs, k - 1), rest);
        assert(chars.take(k - 1) + (seq![chars[k - 1]] + strip_codes(rest)) =~= chars.take(k)
            + strip_codes(rest));
    }
}

/// Styling only adds escape codes: with them removed, a styled text is the text itself
/// (for a text that holds no escape character), whatever colours the shading gives.
pub proof fn lemma_styled_text_strips_to_text<S: Fn(&Fill, usize, usize) -> RgbColor>(
    shade: S,
    text: Seq<char>,
    base: StyleView,
    ovs: Seq<OverrideView>,
    out: Seq<char>,
)
    requires
        styled_ok(shade, text, base, ovs, out),
        forall|i: int| 0 <= i < text.len() ==> #[trigger] text[i] != '\u{1b}',
    ensures
        strip_codes(out) == text,
{
    let colors = choose|colors: Seq<Option<RgbColor>>|
        #[trigger] colors_ok(shade, base, ovs, text.len() as int, colors) && out == painted(
            text,
            colors,
            base.decorations,
            ovs,
            text.len() as int,
        );
    lemma_strip_painted(text, colors, base.decorations, ovs, text.len() as int, Seq::empty());
    assert(out + Seq::<char>::empty() =~= out);
    assert(strip_codes(Seq::<char>::empty()) =~= Seq::<char>::empty()) by {
        reveal(strip_codes);
    }
    assert(text.take(text.len() as int) + Seq::<char>::empty() =~= text);
}

/// Removing codes from nothing gives nothing.
pub proof fn lemma_strip_empty()
    ensures
        strip_codes(Seq::<char>::empty()) == Seq::<char>::empty(),
{
    reveal(strip_codes);
}

/// Whether `s` holds no escape character.
pub open spec fn no_escape(s: Seq<char>) -> bool {
    forall|i: int| 0 <= i < s.len() ==> #[trigger] s[i] != '\u{1b}'
}

/// Removing the codes from plain text followed by `rest` keeps the plain text.
pub proof fn lemma_strip_plain_then(p: Seq<char>, rest: Seq<char>)
    requires
        no_escape(p),
    ensures
        strip_codes(p + rest) == p + strip_codes(rest),
    decreases p.len(),
{
    if p.len() == 0 {
        assert(p + rest =~= rest);
        assert(p + strip_codes(rest) =~= strip_codes(rest));
    } else {
        let t = p.drop_first();
        assert forall|i: int| 0 <= i < t.len() implies #[trigger] t[i] != '\u{1b}' by {
            assert(t[i] == p[i + 1]);
        }
        lemma_strip_plain_then(t, rest);
        assert(p + rest =~= seq![p[0]] + (t + rest));
        lemma_strip_keep(p[0], t + rest);
        assert(seq![p[0]] + (t + strip_codes(rest)) =~= p + strip_codes(rest));
    }
}

/// Removing the codes from a styled text followed by `rest` gives the text followed by
/// `rest` with its codes removed.
pub proof fn lemma_strip_styled_then<S: Fn(&Fill, usize, usize) -> RgbColor>(
    shade: S,
    text: Seq<char>,
    base: StyleView,
    ovs: Seq<OverrideView>,
    out: Seq<char>,
    rest: Seq<char>,
)
    requires
        styled_ok(shade, text, base, ovs, out),
        no_escape(text),
    ensures
        strip_codes(out + rest) == text + strip_codes(rest),
{
    let colors = choose|colors: Seq<Option<RgbColor>>|
        #[trigger] colors_ok(shade, base, ovs, text.len() as int, colors) && out == painted(
            text,
            colors,
            base.decorations,
            ovs,
            text.len() as int,
        );
    lemma_strip_painted(text, colors, base.decorations, ovs, text.len() as int, rest);
    assert(text.take(text.len() as int) =~= text);
}

} // verus!
