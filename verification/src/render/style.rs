use vstd::prelude::*;
use std::ops::Range;
use crate::config::Config;
use crate::page::{lemma_split_not_empty, lemma_split_push, split_on};
use crate::render::color::{named_color_of, named_color_rgb};
use crate::text::{
    ascii_lower, ascii_lower_seq, chars_equal, chars_of, eq_ignore_ascii_case, is_ws,
    string_from, strings_from, to_ascii_lower, trim, trim_chars, views, vviews,
};

verus! {

/// A 24-bit colour.
#[derive(Clone, Copy, Debug, PartialEq, Eq, Structural)]
pub struct RgbColor {
    pub r: u8,
    pub g: u8,
    pub b: u8,
}

/// The colour used where a configured colour cannot be read (`#1E90FF`).
pub open spec fn spec_fallback_color() -> RgbColor {
    RgbColor { r: 0x1E, g: 0x90, b: 0xFF }
}

/// The colour used where a configured colour cannot be read (`#1E90FF`).
pub fn fallback_color() -> (c: RgbColor)
    ensures
        c == spec_fallback_color(),
{
    RgbColor { r: 0x1E, g: 0x90, b: 0xFF }
}

/// How characters are coloured.
#[derive(Clone, Debug)]
pub enum Fill {
    /// One colour for every character.
    Solid(RgbColor),
    /// Colours spread across the characters from the first stop to the last.
    Gradient(Vec<RgbColor>),
    /// A full turn of the hue wheel across the characters.
    Rainbow,
}

/// The abstract value of a `Fill`.
pub enum FillView {
    Solid(RgbColor),
    Gradient(Seq<RgbColor>),
    Rainbow,
}

impl View for Fill {
    type V = FillView;

    open spec fn view(&self) -> FillView {
        match self {
            Fill::Solid(c) => FillView::Solid(*c),
            Fill::Gradient(stops) => FillView::Gradient(stops@),
            Fill::Rainbow => FillView::Rainbow,
        }
    }
}

/// The view of an optional fill.
pub open spec fn fill_opt_view(f: Option<Fill>) -> Option<FillView> {
    match f {
        Some(x) => Some(x@),
        None => None,
    }
}

/// A copy of `f`.
pub fn copy_fill(f: &Fill) -> (r: Fill)
    ensures
        r@ == f@,
{
    match f {
        Fill::Solid(c) => Fill::Solid(*c),
        Fill::Gradient(stops) => {
            let mut v: Vec<RgbColor> = Vec::new();
            let n = stops.len();
            for i in 0..n
                invariant
                    n == stops@.len(),
                    v@ == stops@.take(i as int),
            {
                v.push(stops[i]);
                assert(v@ =~= stops@.take(i + 1));
            }
            assert(stops@.take(n as int) =~= stops@);
            Fill::Gradient(v)
        },
        Fill::Rainbow => Fill::Rainbow,
    }
}

/// Text effects.
#[derive(Clone, Copy, Debug, PartialEq, Eq, Structural)]
pub struct Decorations {
    pub bold: bool,
    pub italic: bool,
    pub underline: bool,
    pub strikethrough: bool,
    pub dimmed: bool,
    pub reversed: bool,
}

/// No effects.
pub open spec fn spec_plain() -> Decorations {
    Decorations {
        bold: false,
        italic: false,
        underline: false,
        strikethrough: false,
        dimmed: false,
        reversed: false,
    }
}

impl Decorations {
    /// The effects of `self` and of `other` together.
    pub open spec fn or(self, other: Decorations) -> Decorations {
        Decorations {
            bold: self.bold || other.bold,
            italic: self.italic || other.italic,
            underline: self.underline || other.underline,
            strikethrough: self.strikethrough || other.strikethrough,
            dimmed: self.dimmed || other.dimmed,
            reversed: self.reversed || other.reversed,
        }
    }

    /// Whether no effect is on.
    pub open spec fn spec_is_plain(self) -> bool {
        self == spec_plain()
    }

    /// No effects.
    pub fn plain() -> (d: Decorations)
        ensures
            d == spec_plain(),
    {
        Decorations {
            bold: false,
            italic: false,
            underline: false,
            strikethrough: false,
            dimmed: false,
            reversed: false,
        }
    }

    /// Turns on every effect that `other` has on.
    pub fn apply_override(&mut self, other: Decorations)
        ensures
            *final(self) == old(self).or(other),
    {
        self.bold = self.bold || other.bold;
        self.italic = self.italic || other.italic;
        self.underline = self.underline || other.underline;
        self.strikethrough = self.strikethrough || other.strikethrough;
        self.dimmed = self.dimmed || other.dimmed;
        self.reversed = self.reversed || other.reversed;
    }

    /// Whether no effect is on.
    pub fn is_plain(&self) -> (b: bool)
        ensures
            b == self.spec_is_plain(),
    {
        !self.bold && !self.italic && !self.underline && !self.strikethrough && !self.dimmed
            && !self.reversed
    }
}

/// Effects and colouring of a piece of text.
#[derive(Clone, Debug)]
pub struct TextStyle {
    pub decorations: Decorations,
    pub fill: Option<Fill>,
}

/// The abstract value of a `TextStyle`.
pub struct StyleView {
    pub decorations: Decorations,
    pub fill: Option<FillView>,
}

impl View for TextStyle {
    type V = StyleView;

    open spec fn view(&self) -> StyleView {
        StyleView { decorations: self.decorations, fill: fill_opt_view(self.fill) }
    }
}

/// The style with no effects and no fill (`TextStyle::default()`).
pub open spec fn spec_default_style() -> StyleView {
    StyleView { decorations: spec_plain(), fill: None }
}

impl TextStyle {
    /// The style with no effects and no fill.
    pub fn plain() -> (s: TextStyle)
        ensures
            s@ == spec_default_style(),
    {
        TextStyle { decorations: Decorations::plain(), fill: None }
    }

    /// Whether this is the style with no effects and no fill.
    pub fn is_default(&self) -> (b: bool)
        ensures
            b == (self@ == spec_default_style()),
    {
        self.decorations.is_plain() && self.fill.is_none()
    }

    /// A copy of this style.
    pub fn copy(&self) -> (r: TextStyle)
        ensures
            r@ == self@,
    {
        let fill = match &self.fill {
            Some(f) => Some(copy_fill(f)),
            None => None,
        };
        TextStyle { decorations: self.decorations, fill }
    }
}

/// A style laid over the characters `range` of a text.
#[derive(Debug)]
pub struct StyleOverride {
    pub range: Range<usize>,
    pub style: TextStyle,
}

/// The abstract value of a `StyleOverride`.
pub struct OverrideView {
    pub start: int,
    pub end: int,
    pub style: StyleView,
}

impl View for StyleOverride {
    type V = OverrideView;

    open spec fn view(&self) -> OverrideView {
        OverrideView { start: self.range.start as int, end: self.range.end as int, style: self.style@ }
    }
}

/// The views of a sequence of overrides.
pub open spec fn override_views(v: Seq<StyleOverride>) -> Seq<OverrideView> {
    v.map_values(|o: StyleOverride| o@)
}

/// Units of a CSS angle.
#[derive(Clone, Copy, Debug, PartialEq, Eq, Structural)]
pub enum AngleUnit {
    Deg,
    Grad,
    Rad,
    Turn,
}

// ---------------------------------------------------------------- tokens

/// The characters that token normalization removes.
pub open spec fn is_separator(c: char) -> bool {
    c == '-' || c == '_' || c == ' '
}

/// `s` without separator characters.
pub open spec fn drop_separators(s: Seq<char>) -> Seq<char>
    decreases s.len(),
{
    if s.len() == 0 {
        s
    } else if is_separator(s.last()) {
        drop_separators(s.drop_last())
    } else {
        drop_separators(s.drop_last()).push(s.last())
    }
}

/// A token trimmed, lower-cased (ASCII) and stripped of `-`, `_` and spaces.
pub open spec fn normalized(s: Seq<char>) -> Seq<char> {
    drop_separators(trim(s).map_values(|c: char| ascii_lower(c)))
}

pub fn normalize_chars(v: &Vec<char>) -> (r: Vec<char>)
    ensures
        r@ == normalized(v@),
{
    let t = trim_chars(v);
    let ghost low = t@.map_values(|c: char| ascii_lower(c));
    let n = t.len();
    let mut r: Vec<char> = Vec::new();
    for i in 0..n
        invariant
            n == t@.len(),
            low == t@.map_values(|c: char| ascii_lower(c)),
            t@ == trim(v@),
            r@ == drop_separators(low.take(i as int)),
    {
        let c = to_ascii_lower(t[i]);
        assert(low.take(i + 1).drop_last() =~= low.take(i as int));
        assert(low.take(i + 1).last() == c);
        if !(c == '-' || c == '_' || c == ' ') {
            r.push(c);
        }
    }
    assert(low.take(n as int) =~= low);
    r
}

/// Trims a token, lower-cases its ASCII letters and removes `-`, `_` and spaces.
pub fn normalize_token(token: &str) -> (r: String)
    ensures
        r@ == normalized(token@),
{
    let v = chars_of(token);
    let n = normalize_chars(&v);
    string_from(&n)
}

/// State of the split at the top nesting level.
pub struct SplitState {
    pub parts: Seq<Seq<char>>,
    pub current: Seq<char>,
    pub depth: nat,
}

/// One character of the split.
pub open spec fn split_step(st: SplitState, ch: char, delimiter: char) -> SplitState {
    if ch == '(' {
        SplitState { parts: st.parts, current: st.current.push(ch), depth: st.depth + 1 }
    } else if ch == ')' {
        SplitState {
            parts: st.parts,
            current: st.current.push(ch),
            depth: if st.depth > 0 { (st.depth - 1) as nat } else { 0 },
        }
    } else if ch == delimiter && st.depth == 0 {
        SplitState { parts: st.parts.push(trim(st.current)), current: Seq::empty(), depth: st.depth }
    } else {
        SplitState { parts: st.parts, current: st.current.push(ch), depth: st.depth }
    }
}

/// The state of the split after reading `s`.
pub open spec fn split_scan(s: Seq<char>, delimiter: char) -> SplitState
    decreases s.len(),
{
    if s.len() == 0 {
        SplitState { parts: Seq::empty(), current: Seq::empty(), depth: 0 }
    } else {
        split_step(split_scan(s.drop_last(), delimiter), s.last(), delimiter)
    }
}

/// The trimmed pieces of `s` between the delimiters that stand outside parentheses;
/// an empty last piece is left out.
pub open spec fn split_top(s: Seq<char>, delimiter: char) -> Seq<Seq<char>> {
    let st = split_scan(s, delimiter);
    if st.current.len() > 0 {
        st.parts.push(trim(st.current))
    } else {
        st.parts
    }
}

/// Splits `value` at each `delimiter` outside parentheses and trims the pieces.
pub fn split_top_level(value: &str, delimiter: char) -> (parts: Vec<String>)
    ensures
        views(parts@) == split_top(value@, delimiter),
{
    let v = chars_of(value);
    let n = v.len();
    let mut parts: Vec<Vec<char>> = Vec::new();
    let mut current: Vec<char> = Vec::new();
    let mut depth: usize = 0;
    for i in 0..n
        invariant
            n == v@.len(),
            v@ == value@,
            depth <= i,
            ({
                let st = split_scan(v@.take(i as int), delimiter);
                &&& vviews(parts@) == st.parts
                &&& current@ == st.current
                &&& depth == st.depth
            }),
    {
        let ch = v[i];
        assert(v@.take(i + 1).drop_last() =~= v@.take(i as int));
        assert(v@.take(i + 1).last() == ch);
        if ch == '(' {
            depth = depth + 1;
            current.push(ch);
        } else if ch == ')' {
            if depth > 0 {
                depth = depth - 1;
            }
            current.push(ch);
        } else if ch == delimiter && depth == 0 {
            let piece = trim_chars(&current);
            let ghost prev = parts@;
            parts.push(piece);
            assert(vviews(parts@) =~= vviews(prev).push(piece@));
            current = Vec::new();
        } else {
            current.push(ch);
        }
    }
    assert(v@.take(n as int) =~= v@);
    if current.len() > 0 {
        let piece = trim_chars(&current);
        let ghost prev = parts@;
        parts.push(piece);
        assert(vviews(parts@) =~= vviews(prev).push(piece@));
    }
    strings_from(&parts)
}

/// Each piece trimmed.
pub open spec fn trim_all(ps: Seq<Seq<char>>) -> Seq<Seq<char>> {
    ps.map_values(|p: Seq<char>| trim(p))
}

/// Whether `s` holds no parenthesis.
pub open spec fn no_parens(s: Seq<char>) -> bool {
    forall|i: int| 0 <= i < s.len() ==> #[trigger] s[i] != '(' && s[i] != ')'
}

proof fn lemma_split_scan_without_parens(s: Seq<char>, d: char)
    requires
        no_parens(s),
        d != '(' && d != ')',
    ensures
        split_scan(s, d) == (SplitState {
            parts: trim_all(split_on(s, seq![d]).drop_last()),
            current: split_on(s, seq![d]).last(),
            depth: 0,
        }),
    decreases s.len(),
{
    let pat = seq![d];
    if s.len() == 0 {
        assert(split_on(s, pat) == seq![s.subrange(0, 0)]);
        assert(s.subrange(0, 0) =~= Seq::<char>::empty());
        assert(trim_all(split_on(s, pat).drop_last()) =~= Seq::<Seq<char>>::empty());
    } else {
        let p = s.drop_last();
        let c = s.last();
        assert(no_parens(p)) by {
            assert forall|i: int| 0 <= i < p.len() implies #[trigger] p[i] != '(' && p[i] != ')' by {
                assert(p[i] == s[i]);
            }
        }
        lemma_split_scan_without_parens(p, d);
        assert(c == s[s.len() - 1]);
        assert(p.push(c) =~= s);
        lemma_split_push(p, d, c, 0);
        lemma_split_not_empty(p, pat, 0);
        let sp = split_on(p, pat);
        let ss = split_on(s, pat);
        if c == d {
            assert(ss == sp.push(Seq::empty()));
            assert(ss.drop_last() =~= sp);
            assert(trim_all(sp) =~= trim_all(sp.drop_last()).push(trim(sp.last())));
        } else {
            assert(ss == sp.update(sp.len() - 1, sp.last().push(c)));
            assert(ss.drop_last() =~= sp.drop_last());
        }
    }
}

/// Without parentheses, splitting at the top level is `str::split` at the delimiter
/// with every piece trimmed, where an empty last piece is left out.
pub proof fn lemma_split_top_without_parens(s: Seq<char>, d: char)
    requires
        no_parens(s),
        d != '(' && d != ')',
    ensures
        split_top(s, d) == trim_all(split_on(s, seq![d]).drop_last()) + (if split_on(
            s,
            seq![d],
        ).last().len() == 0 {
            Seq::<Seq<char>>::empty()
        } else {
            seq![trim(split_on(s, seq![d]).last())]
        }),
{
    lemma_split_scan_without_parens(s, d);
    let ps = trim_all(split_on(s, seq![d]).drop_last());
    assert(ps + Seq::<Seq<char>>::empty() =~= ps);
    assert(ps + seq![trim(split_on(s, seq![d]).last())] =~= ps.push(trim(split_on(s, seq![d]).last())));
}

/// The number of `(` in `s` less the number of `)`.
pub open spec fn paren_net(s: Seq<char>) -> int
    decreases s.len(),
{
    if s.len() == 0 {
        0
    } else {
        paren_net(s.drop_last()) + if s.last() == '(' {
            1int
        } else if s.last() == ')' {
            -1int
        } else {
            0int
        }
    }
}

/// Whether no prefix of `s` closes more parentheses than it opens.
pub open spec fn parens_open_first(s: Seq<char>) -> bool {
    forall|k: int| 0 <= k <= s.len() ==> paren_net(#[trigger] s.take(k)) >= 0
}

/// Whether the parentheses of `s` are balanced.
pub open spec fn parens_balanced(s: Seq<char>) -> bool {
    parens_open_first(s) && paren_net(s) == 0
}

proof fn lemma_paren_net_add(a: Seq<char>, b: Seq<char>)
    ensures
        paren_net(a + b) == paren_net(a) + paren_net(b),
    decreases b.len(),
{
    if b.len() == 0 {
        assert(a + b =~= a);
    } else {
        lemma_paren_net_add(a, b.drop_last());
        assert((a + b).drop_last() =~= a + b.drop_last());
        assert((a + b).last() == b.last());
    }
}

proof fn lemma_paren_net_ws(s: Seq<char>)
    requires
        forall|j: int| 0 <= j < s.len() ==> is_ws(#[trigger] s[j]),
    ensures
        paren_net(s) == 0,
    decreases s.len(),
{
    if s.len() > 0 {
        assert(s.last() == s[s.len() - 1]);
        assert forall|j: int| 0 <= j < s.drop_last().len() implies is_ws(#[trigger] s.drop_last()[j]) by {
            assert(s.drop_last()[j] == s[j]);
        }
        lemma_paren_net_ws(s.drop_last());
    }
}

proof fn lemma_open_first_prefix(p: Seq<char>, c: char)
    requires
        parens_open_first(p.push(c)),
    ensures
        parens_open_first(p),
        paren_net(p.push(c)) >= 0,
{
    assert forall|k: int| 0 <= k <= p.len() implies paren_net(#[trigger] p.take(k)) >= 0 by {
        assert(p.push(c).take(k) =~= p.take(k));
    }
    assert(p.push(c).take(p.len() as int + 1) =~= p.push(c));
}

proof fn lemma_open_first_push(p: Seq<char>, c: char)
    requires
        parens_open_first(p),
        paren_net(p.push(c)) >= 0,
    ensures
        parens_open_first(p.push(c)),
{
    assert forall|k: int| 0 <= k <= p.len() + 1 implies paren_net(#[trigger] p.push(c).take(k)) >= 0 by {
        if k <= p.len() {
            assert(p.push(c).take(k) =~= p.take(k));
        } else {
            assert(p.push(c).take(k) =~= p.push(c));
        }
    }
}

#[verifier::spinoff_prover]
#[verifier::rlimit(40)]
proof fn lemma_balanced_trim(x: Seq<char>)
    requires
        parens_balanced(x),
    ensures
        parens_balanced(trim(x)),
{
    let t0 = crate::text::trim_start(x);
    crate::text::lemma_lead_ws_bound(x);
    crate::text::lemma_trail_ws_bound(t0);
    let lo = crate::text::lead_ws(x) as int;
    let hi = lo + t0.len() - crate::text::trail_ws(t0);
    let t = trim(x);
    assert(t =~= x.subrange(lo, hi));
    let front = x.take(lo);
    let back = x.skip(hi);
    assert forall|j: int| 0 <= j < front.len() implies is_ws(#[trigger] front[j]) by {
        assert(front[j] == x[j]);
    }
    assert forall|j: int| 0 <= j < back.len() implies is_ws(#[trigger] back[j]) by {
        assert(back[j] == x[hi + j]);
        assert(back[j] == t0[hi + j - lo]);
    }
    lemma_paren_net_ws(front);
    lemma_paren_net_ws(back);
    assert(x =~= front + t + back);
    lemma_paren_net_add(front, t);
    lemma_paren_net_add(front + t, back);
    assert forall|k: int| 0 <= k <= t.len() implies paren_net(#[trigger] t.take(k)) >= 0 by {
        assert(x.take(lo + k) =~= front + t.take(k));
        lemma_paren_net_add(front, t.take(k));
        assert(paren_net(x.take(lo + k)) >= 0);
    }
}

proof fn lemma_split_scan_balanced(s: Seq<char>, d: char)
    requires
        parens_open_first(s),
    ensures
        split_scan(s, d).depth == paren_net(s),
        paren_net(split_scan(s, d).current) == paren_net(s),
        parens_open_first(split_scan(s, d).current),
        forall|i: int|
            0 <= i < split_scan(s, d).parts.len() ==> parens_balanced(#[trigger] split_scan(s, d).parts[i]),
    decreases s.len(),
{
    if s.len() == 0 {
        assert forall|k: int| 0 <= k <= 0 implies paren_net(#[trigger] Seq::<char>::empty().take(k)) >= 0 by {
            assert(Seq::<char>::empty().take(k) =~= Seq::<char>::empty());
        }
    } else {
        let p = s.drop_last();
        let c = s.last();
        assert(p.push(c) =~= s);
        lemma_open_first_prefix(p, c);
        lemma_split_scan_balanced(p, d);
        let st = split_scan(p, d);
        let cur = split_scan(s, d);
        if c == '(' || c == ')' || !(c == d && st.depth == 0) {
            assert(cur.current == st.current.push(c));
            assert(st.current.push(c).drop_last() =~= st.current);
            lemma_open_first_push(st.current, c);
        } else {
            assert(parens_balanced(st.current));
            lemma_balanced_trim(st.current);
            assert forall|k: int| 0 <= k <= 0 implies paren_net(#[trigger] Seq::<char>::empty().take(k))
                >= 0 by {
                assert(Seq::<char>::empty().take(k) =~= Seq::<char>::empty());
            }
            assert forall|i: int| 0 <= i < cur.parts.len() implies parens_balanced(#[trigger] cur.parts[i]) by {
                if i < st.parts.len() {
                    assert(cur.parts[i] == st.parts[i]);
                }
            }
        }
    }
}

/// A delimiter splits only outside parentheses: when the parentheses of `s` are
/// balanced, so are those of every piece, and a delimiter inside parentheses stays
/// inside its piece.
pub proof fn lemma_split_top_pieces_balanced(s: Seq<char>, d: char)
    requires
        parens_balanced(s),
    ensures
        forall|i: int| 0 <= i < split_top(s, d).len() ==> parens_balanced(#[trigger] split_top(s, d)[i]),
{
    lemma_split_scan_balanced(s, d);
    let st = split_scan(s, d);
    if st.current.len() > 0 {
        lemma_balanced_trim(st.current);
        assert forall|i: int| 0 <= i < split_top(s, d).len() implies parens_balanced(
            #[trigger] split_top(s, d)[i],
        ) by {
            if i < st.parts.len() {
                assert(split_top(s, d)[i] == st.parts[i]);
            }
        }
    }
}

// ---------------------------------------------------------------- style tokens

/// The effects after the keyword `w` (already normalized), or `None` when `w` is not
/// an effect keyword.
pub open spec fn with_keyword(d: Decorations, w: Seq<char>) -> Option<Decorations> {
    if w == "bold"@ {
        Some(Decorations { bold: true, ..d })
    } else if w == "italic"@ {
        Some(Decorations { italic: true, ..d })
    } else if w == "underline"@ {
        Some(Decorations { underline: true, ..d })
    } else if w == "strikethrough"@ || w == "strike"@ {
        Some(Decorations { strikethrough: true, ..d })
    } else if w == "dimmed"@ || w == "dim"@ {
        Some(Decorations { dimmed: true, ..d })
    } else if w == "reversed"@ || w == "reverse"@ {
        Some(Decorations { reversed: true, ..d })
    } else {
        None
    }
}

fn keyword_decorations(d: Decorations, w: &Vec<char>) -> (r: Option<Decorations>)
    ensures
        r == with_keyword(d, w@),
{
    if chars_equal(w, "bold") {
        Some(Decorations { bold: true, ..d })
    } else if chars_equal(w, "italic") {
        Some(Decorations { italic: true, ..d })
    } else if chars_equal(w, "underline") {
        Some(Decorations { underline: true, ..d })
    } else if chars_equal(w, "strikethrough") || chars_equal(w, "strike") {
        Some(Decorations { strikethrough: true, ..d })
    } else if chars_equal(w, "dimmed") || chars_equal(w, "dim") {
        Some(Decorations { dimmed: true, ..d })
    } else if chars_equal(w, "reversed") || chars_equal(w, "reverse") {
        Some(Decorations { reversed: true, ..d })
    } else {
        None
    }
}

/// Whether the token is handed to the fill parser: it is not blank and not an effect
/// keyword.
pub open spec fn fill_token(tok: Seq<char>) -> bool {
    trim(tok).len() > 0 && with_keyword(spec_plain(), normalized(trim(tok))) is None
}

/// `p` may answer `ans` when asked to parse `text` as a fill.
pub open spec fn parsed_by<P: Fn(&str) -> Option<Fill>>(
    p: P,
    text: Seq<char>,
    ans: Option<FillView>,
) -> bool {
    exists|s: &str, r: Option<Fill>|
        s@ == text && #[trigger] call_ensures(p, (s,), r) && fill_opt_view(r) == ans
}

/// The style that a list of style tokens gives, where `answers[i]` is what the fill
/// parser answered for token `i` (consulted only for fill tokens): effect keywords
/// turn effects on, and the last token read as a fill sets the fill.
pub open spec fn style_of_tokens(toks: Seq<Seq<char>>, answers: Seq<Option<FillView>>) -> StyleView
    decreases toks.len(),
{
    if toks.len() == 0 {
        spec_default_style()
    } else {
        let prev = style_of_tokens(toks.drop_last(), answers.drop_last());
        let t = trim(toks.last());
        if t.len() == 0 {
            prev
        } else {
            match with_keyword(prev.decorations, normalized(t)) {
                Some(d) => StyleView { decorations: d, fill: prev.fill },
                None => match answers.last() {
                    Some(f) => StyleView { decorations: prev.decorations, fill: Some(f) },
                    None => prev,
                },
            }
        }
    }
}

/// Effect `k` of `d`: 0 bold, 1 italic, 2 underline, 3 strikethrough, 4 dimmed,
/// 5 reversed.
pub open spec fn effect_on(d: Decorations, k: int) -> bool {
    if k == 0 {
        d.bold
    } else if k == 1 {
        d.italic
    } else if k == 2 {
        d.underline
    } else if k == 3 {
        d.strikethrough
    } else if k == 4 {
        d.dimmed
    } else {
        d.reversed
    }
}

/// The effects that a style token names, when it is an effect keyword.
pub open spec fn token_effects(tok: Seq<char>) -> Option<Decorations> {
    if trim(tok).len() == 0 {
        None
    } else {
        with_keyword(spec_plain(), normalized(trim(tok)))
    }
}

/// Whether the token is an effect keyword that turns on effect `k`.
pub open spec fn token_sets(tok: Seq<char>, k: int) -> bool {
    token_effects(tok) matches Some(e) && effect_on(e, k)
}

/// The answer for the last fill token of `toks` that the fill reader answered with a
/// fill (`None` when there is none).
pub open spec fn last_fill(toks: Seq<Seq<char>>, answers: Seq<Option<FillView>>) -> Option<
    FillView,
>
    decreases toks.len(),
{
    if toks.len() == 0 {
        None
    } else if fill_token(toks.last()) && answers.last() is Some {
        answers.last()
    } else {
        last_fill(toks.drop_last(), answers.drop_last())
    }
}

proof fn lemma_with_keyword_effects(d: Decorations, w: Seq<char>, k: int)
    ensures
        (with_keyword(d, w) is Some) == (with_keyword(spec_plain(), w) is Some),
        with_keyword(d, w) matches Some(d2) ==> (effect_on(d2, k) <==> effect_on(d, k) || (
        with_keyword(spec_plain(), w) matches Some(e) && effect_on(e, k))),
{
}

/// What a list of style tokens gives: an effect is on exactly when some token is a
/// keyword for it, wherever that token stands, and the fill is the last fill that the
/// reader gave for a fill token.
pub proof fn lemma_style_of_tokens_parts(toks: Seq<Seq<char>>, answers: Seq<Option<FillView>>)
    requires
        answers.len() == toks.len(),
    ensures
        forall|k: int|
            0 <= k < 6 ==> (effect_on(style_of_tokens(toks, answers).decorations, k) <==> exists|
                i: int,
            | 0 <= i < toks.len() && #[trigger] token_sets(toks[i], k)),
        style_of_tokens(toks, answers).fill == last_fill(toks, answers),
    decreases toks.len(),
{
    if toks.len() > 0 {
        let n = toks.len() - 1;
        let p = toks.drop_last();
        lemma_style_of_tokens_parts(p, answers.drop_last());
        assert(toks.last() == toks[n]);
        let prev = style_of_tokens(p, answers.drop_last());
        let cur = style_of_tokens(toks, answers);
        assert forall|k: int| 0 <= k < 6 implies (effect_on(cur.decorations, k) <==> effect_on(
            prev.decorations,
            k,
        ) || token_sets(toks[n], k)) by {
            lemma_with_keyword_effects(prev.decorations, normalized(trim(toks[n])), k);
        }
        assert forall|k: int| 0 <= k < 6 implies (effect_on(
            style_of_tokens(toks, answers).decorations,
            k,
        ) <==> exists|i: int| 0 <= i < toks.len() && #[trigger] token_sets(toks[i], k)) by {
            if exists|i: int| 0 <= i < toks.len() && #[trigger] token_sets(toks[i], k) {
                let i = choose|i: int| 0 <= i < toks.len() && #[trigger] token_sets(toks[i], k);
                if i < n {
                    assert(p[i] == toks[i]);
                    assert(token_sets(p[i], k));
                }
            }
            if exists|i: int| 0 <= i < p.len() && #[trigger] token_sets(p[i], k) {
                let i = choose|i: int| 0 <= i < p.len() && #[trigger] token_sets(p[i], k);
                assert(p[i] == toks[i]);
                assert(token_sets(toks[i], k));
            }
        }
    }
}

/// Moving an effect keyword (or a blank token) past its neighbour leaves the style
/// as it was: only the order of the fill tokens matters.
pub proof fn lemma_style_ignores_keyword_order(
    toks: Seq<Seq<char>>,
    answers: Seq<Option<FillView>>,
    k: int,
)
    requires
        answers.len() == toks.len(),
        0 <= k,
        k + 1 < toks.len(),
        !fill_token(toks[k]) || !fill_token(toks[k + 1]),
    ensures
        style_of_tokens(
            toks.update(k, toks[k + 1]).update(k + 1, toks[k]),
            answers.update(k, answers[k + 1]).update(k + 1, answers[k]),
        ) == style_of_tokens(toks, answers),
{
    let st = toks.update(k, toks[k + 1]).update(k + 1, toks[k]);
    let sa = answers.update(k, answers[k + 1]).update(k + 1, answers[k]);
    lemma_style_of_tokens_parts(toks, answers);
    lemma_style_of_tokens_parts(st, sa);
    let d1 = style_of_tokens(toks, answers).decorations;
    let d2 = style_of_tokens(st, sa).decorations;
    assert forall|e: int| 0 <= e < 6 implies effect_on(d1, e) == effect_on(d2, e) by {
        if exists|i: int| 0 <= i < toks.len() && #[trigger] token_sets(toks[i], e) {
            let i = choose|i: int| 0 <= i < toks.len() && #[trigger] token_sets(toks[i], e);
            let j = if i == k {
                k + 1
            } else if i == k + 1 {
                k
            } else {
                i
            };
            assert(st[j] == toks[i]);
            assert(token_sets(st[j], e));
        }
        if exists|i: int| 0 <= i < st.len() && #[trigger] token_sets(st[i], e) {
            let i = choose|i: int| 0 <= i < st.len() && #[trigger] token_sets(st[i], e);
            let j = if i == k {
                k + 1
            } else if i == k + 1 {
                k
            } else {
                i
            };
            assert(toks[j] == st[i]);
            assert(token_sets(toks[j], e));
        }
    }
    assert(effect_on(d1, 0) == effect_on(d2, 0));
    assert(effect_on(d1, 1) == effect_on(d2, 1));
    assert(effect_on(d1, 2) == effect_on(d2, 2));
    assert(effect_on(d1, 3) == effect_on(d2, 3));
    assert(effect_on(d1, 4) == effect_on(d2, 4));
    assert(effect_on(d1, 5) == effect_on(d2, 5));
    assert(d1 == d2);
    lemma_last_fill_swap(toks, answers, k, toks.len() as int);
    assert(st.take(toks.len() as int) =~= st);
    assert(sa.take(toks.len() as int) =~= sa);
    assert(toks.take(toks.len() as int) =~= toks);
    assert(answers.take(toks.len() as int) =~= answers);
}

proof fn lemma_last_fill_swap(toks: Seq<Seq<char>>, answers: Seq<Option<FillView>>, k: int, m: int)
    requires
        answers.len() == toks.len(),
        0 <= k,
        k + 2 <= m <= toks.len(),
        !fill_token(toks[k]) || !fill_token(toks[k + 1]),
    ensures
        last_fill(
            toks.update(k, toks[k + 1]).update(k + 1, toks[k]).take(m),
            answers.update(k, answers[k + 1]).update(k + 1, answers[k]).take(m),
        ) == last_fill(toks.take(m), answers.take(m)),
    decreases m,
{
    let st = toks.update(k, toks[k + 1]).update(k + 1, toks[k]);
    let sa = answers.update(k, answers[k + 1]).update(k + 1, answers[k]);
    if m > k + 2 {
        lemma_last_fill_swap(toks, answers, k, m - 1);
        assert(st.take(m).drop_last() =~= st.take(m - 1));
        assert(sa.take(m).drop_last() =~= sa.take(m - 1));
        assert(toks.take(m).drop_last() =~= toks.take(m - 1));
        assert(answers.take(m).drop_last() =~= answers.take(m - 1));
        assert(st.take(m).last() == toks.take(m).last());
        assert(sa.take(m).last() == answers.take(m).last());
    } else {
        reveal_with_fuel(last_fill, 3);
        assert(st.take(m).drop_last() =~= st.take(k + 1));
        assert(st.take(k + 1).drop_last() =~= toks.take(k));
        assert(sa.take(m).drop_last() =~= sa.take(k + 1));
        assert(sa.take(k + 1).drop_last() =~= answers.take(k));
        assert(toks.take(m).drop_last() =~= toks.take(k + 1));
        assert(toks.take(k + 1).drop_last() =~= toks.take(k));
        assert(answers.take(m).drop_last() =~= answers.take(k + 1));
        assert(answers.take(k + 1).drop_last() =~= answers.take(k));
        assert(st.take(m).last() == toks[k]);
        assert(st.take(k + 1).last() == toks[k + 1]);
        assert(toks.take(m).last() == toks[k + 1]);
        assert(toks.take(k + 1).last() == toks[k]);
        assert(sa.take(m).last() == answers[k]);
        assert(sa.take(k + 1).last() == answers[k + 1]);
        assert(answers.take(m).last() == answers[k + 1]);
        assert(answers.take(k + 1).last() == answers[k]);
    }
}

/// `answers` are answers that `p` may give for the fill tokens of `toks`.
pub open spec fn answers_ok<P: Fn(&str) -> Option<Fill>>(
    p: P,
    toks: Seq<Seq<char>>,
    answers: Seq<Option<FillView>>,
) -> bool {
    &&& answers.len() == toks.len()
    &&& forall|i: int|
        0 <= i < toks.len() && fill_token(toks[i]) ==> parsed_by(p, trim(toks[i]), #[trigger] answers[i])
}

/// `st` is the style that `spec` gives, its fill tokens read by `p`.
pub open spec fn parsed_style<P: Fn(&str) -> Option<Fill>>(p: P, spec: Seq<char>, st: StyleView) -> bool {
    exists|answers: Seq<Option<FillView>>|
        #[trigger] answers_ok(p, split_top(spec, ','), answers) && st == style_of_tokens(
            split_top(spec, ','),
            answers,
        )
}

/// What a parsed style text gives: an effect is on exactly when some token of the
/// text is a keyword for it, in whatever order the tokens stand, and the fill is the
/// last fill that the reader gave for a fill token.
pub proof fn lemma_parsed_style_parts<P: Fn(&str) -> Option<Fill>>(
    p: P,
    spec: Seq<char>,
    st: StyleView,
)
    requires
        parsed_style(p, spec, st),
    ensures
        forall|k: int|
            0 <= k < 6 ==> (effect_on(st.decorations, k) <==> exists|i: int|
                0 <= i < split_top(spec, ',').len() && #[trigger] token_sets(
                    split_top(spec, ',')[i],
                    k,
                )),
        exists|answers: Seq<Option<FillView>>|
            #[trigger] answers_ok(p, split_top(spec, ','), answers) && st.fill == last_fill(
                split_top(spec, ','),
                answers,
            ),
{
    let toks = split_top(spec, ',');
    let a = choose|answers: Seq<Option<FillView>>|
        #[trigger] answers_ok(p, toks, answers) && st == style_of_tokens(toks, answers);
    lemma_style_of_tokens_parts(toks, a);
}

/// The fill parser may be asked anything.
pub open spec fn parses_anything<P: Fn(&str) -> Option<Fill>>(p: P) -> bool {
    forall|s: &str| #[trigger] call_requires(p, (s,))
}

/// Reads a comma-separated list of style tokens: effect keywords (`bold`, `italic`,
/// `underline`, `strikethrough`/`strike`, `dimmed`/`dim`, `reversed`/`reverse`, in any
/// case and with `-`, `_` or spaces anywhere) and fills, which `parse_fill` reads; the
/// last fill read wins, and tokens that are neither are skipped.
pub fn parse_style_spec<P: Fn(&str) -> Option<Fill>>(spec: &str, parse_fill: &P) -> (style: TextStyle)
    requires
        parses_anything(*parse_fill),
    ensures
        parsed_style(*parse_fill, spec@, style@),
{
    let toks = split_top_level(spec, ',');
    let ghost tv = views(toks@);
    let n = toks.len();
    let mut decorations = Decorations::plain();
    let mut fill: Option<Fill> = None;
    let ghost mut answers: Seq<Option<FillView>> = Seq::empty();
    for i in 0..n
        invariant
            n == toks@.len(),
            tv == views(toks@),
            tv == split_top(spec@, ','),
            parses_anything(*parse_fill),
            answers.len() == i,
            forall|j: int|
                0 <= j < i && fill_token(tv[j]) ==> parsed_by(*parse_fill, trim(tv[j]), #[trigger] answers[j]),
            (StyleView { decorations, fill: fill_opt_view(fill) }) == style_of_tokens(tv.take(i as int), answers),
    {
        let ghost prev_answers = answers;
        assert(tv.take(i + 1).drop_last() =~= tv.take(i as int));
        assert(tv.take(i + 1).last() == tv[i as int]);
        assert(tv[i as int] == toks@[i as int]@);
        let tokv = chars_of(toks[i].as_str());
        let t = trim_chars(&tokv);
        if t.len() == 0 {
            proof {
                answers = answers.push(None);
                assert(answers.drop_last() =~= prev_answers);
            }
        } else {
            let w = normalize_chars(&t);
            assert(trim(t@) =~= t@) by {
                crate::text::lemma_trim_idempotent(tokv@);
            }
            match keyword_decorations(decorations, &w) {
                Some(d) => {
                    decorations = d;
                    proof {
                        answers = answers.push(None);
                        assert(answers.drop_last() =~= prev_answers);
                    }
                },
                None => {
                    let ts = string_from(&t);
                    let tstr = ts.as_str();
                    let ans = parse_fill(tstr);
                    proof {
                        answers = answers.push(fill_opt_view(ans));
                        assert(answers.drop_last() =~= prev_answers);
                        assert(call_ensures(*parse_fill, (tstr,), ans));
                        assert(parsed_by(*parse_fill, trim(tv[i as int]), answers[i as int]));
                    }
                    match ans {
                        Some(f) => {
                            fill = Some(f);
                        },
                        None => {},
                    }
                },
            }
        }
    }
    assert(tv.take(n as int) =~= tv);
    assert(answers_ok(*parse_fill, tv, answers));
    TextStyle { decorations, fill }
}

// ---------------------------------------------------------------- fills

/// Whether a trimmed fill token names the rainbow fill (`rainbow`, in any ASCII case).
pub open spec fn names_rainbow(text: Seq<char>) -> bool {
    ascii_lower_seq(text) == "rainbow"@
}

/// The fill that a list of gradient stops gives: none for no stop, a solid colour
/// for one, a gradient for more.
pub open spec fn fill_of_stops(stops: Seq<RgbColor>) -> Option<FillView> {
    if stops.len() == 0 {
        None
    } else if stops.len() == 1 {
        Some(FillView::Solid(stops[0]))
    } else {
        Some(FillView::Gradient(stops))
    }
}

/// The view of an optional list of stops.
pub open spec fn stops_opt_view(r: Option<Vec<RgbColor>>) -> Option<Seq<RgbColor>> {
    match r {
        Some(v) => Some(v@),
        None => None,
    }
}

/// `g` may answer `ans` when asked to read `text` as a gradient.
pub open spec fn gradient_read_by<G: Fn(&str) -> Option<Vec<RgbColor>>>(
    g: G,
    text: Seq<char>,
    ans: Option<Seq<RgbColor>>,
) -> bool {
    exists|s: &str, r: Option<Vec<RgbColor>>|
        s@ == text && #[trigger] call_ensures(g, (s,), r) && stops_opt_view(r) == ans
}

/// `c` may answer `ans` when asked to read `text` as one colour.
pub open spec fn color_read_by<C: Fn(&str) -> Option<RgbColor>>(
    c: C,
    text: Seq<char>,
    ans: Option<RgbColor>,
) -> bool {
    exists|s: &str| s@ == text && #[trigger] call_ensures(c, (s,), ans)
}

/// `res` is the fill that `spec` gives: `rainbow` is the rainbow fill; otherwise the
/// trimmed text read as a gradient gives its stops, and where it is none, the text
/// read as one colour gives a solid fill.
pub open spec fn fill_spec_ok<G: Fn(&str) -> Option<Vec<RgbColor>>, C: Fn(&str) -> Option<RgbColor>>(
    g: G,
    c: C,
    spec: Seq<char>,
    res: Option<FillView>,
) -> bool {
    let t = trim(spec);
    if names_rainbow(t) {
        res == Some(FillView::Rainbow)
    } else {
        exists|gans: Option<Seq<RgbColor>>|
            #[trigger] gradient_read_by(g, t, gans) && match gans {
                Some(stops) => res == fill_of_stops(stops),
                None => exists|cans: Option<RgbColor>|
                    #[trigger] color_read_by(c, t, cans) && res == match cans {
                        Some(col) => Some(FillView::Solid(col)),
                        None => None,
                    },
            }
    }
}

/// Reads a fill token: `rainbow` (any ASCII case), else a gradient function that
/// `parse_gradient` reads into its stops (no stop gives no fill, one stop a solid
/// colour), else one colour that `parse_color` reads.
pub fn parse_fill_spec<G: Fn(&str) -> Option<Vec<RgbColor>>, C: Fn(&str) -> Option<RgbColor>>(
    spec: &str,
    parse_gradient: &G,
    parse_color: &C,
) -> (fill: Option<Fill>)
    requires
        forall|s: &str| #[trigger] call_requires(*parse_gradient, (s,)),
        forall|s: &str| #[trigger] call_requires(*parse_color, (s,)),
    ensures
        fill_spec_ok(*parse_gradient, *parse_color, spec@, fill_opt_view(fill)),
{
    let v = chars_of(spec);
    let t = trim_chars(&v);
    if eq_ignore_ascii_case(&t, "rainbow") {
        proof {
            reveal_strlit("rainbow");
            assert(ascii_lower_seq("rainbow"@) =~= "rainbow"@);
        }
        return Some(Fill::Rainbow);
    }
    proof {
        reveal_strlit("rainbow");
        assert(ascii_lower_seq("rainbow"@) =~= "rainbow"@);
    }
    let ts = string_from(&t);
    let tstr = ts.as_str();
    let g = parse_gradient(tstr);
    assert(call_ensures(*parse_gradient, (tstr,), g));
    assert(gradient_read_by(*parse_gradient, trim(spec@), stops_opt_view(g)));
    match g {
        Some(stops) => {
            if stops.len() == 0 {
                None
            } else if stops.len() == 1 {
                Some(Fill::Solid(stops[0]))
            } else {
                Some(Fill::Gradient(stops))
            }
        },
        None => {
            let c = parse_color(tstr);
            assert(call_ensures(*parse_color, (tstr,), c));
            assert(color_read_by(*parse_color, trim(spec@), c));
            match c {
                Some(col) => Some(Fill::Solid(col)),
                None => None,
            }
        },
    }
}

// ---------------------------------------------------------------- small classifiers

/// Whether the normalized name is one of the gradient functions.
pub open spec fn gradient_function_name(w: Seq<char>) -> bool {
    ||| w == "lineargradient"@
    ||| w == "radialgradient"@
    ||| w == "conicgradient"@
    ||| w == "repeatinglineargradient"@
    ||| w == "repeatingradialgradient"@
    ||| w == "repeatingconicgradient"@
}

/// Whether `name` names a supported gradient function (`linear-gradient`,
/// `radial-gradient`, `conic-gradient` or a `repeating-` variant).
pub fn is_supported_gradient_function(name: &str) -> (b: bool)
    ensures
        b == gradient_function_name(normalized(name@)),
{
    let v = chars_of(name);
    let w = normalize_chars(&v);
    chars_equal(&w, "lineargradient") || chars_equal(&w, "radialgradient") || chars_equal(
        &w,
        "conicgradient",
    ) || chars_equal(&w, "repeatinglineargradient") || chars_equal(&w, "repeatingradialgradient")
        || chars_equal(&w, "repeatingconicgradient")
}

/// The angle unit that `unit` names, once normalized.
pub open spec fn angle_unit_of(w: Seq<char>) -> Option<AngleUnit> {
    if w == "deg"@ {
        Some(AngleUnit::Deg)
    } else if w == "grad"@ {
        Some(AngleUnit::Grad)
    } else if w == "rad"@ {
        Some(AngleUnit::Rad)
    } else if w == "turn"@ {
        Some(AngleUnit::Turn)
    } else {
        None
    }
}

/// Reads a CSS angle unit: `deg`, `grad`, `rad` or `turn`.
pub fn parse_angle_unit(unit: &str) -> (r: Option<AngleUnit>)
    ensures
        r == angle_unit_of(normalized(unit@)),
{
    let v = chars_of(unit);
    let w = normalize_chars(&v);
    if chars_equal(&w, "deg") {
        Some(AngleUnit::Deg)
    } else if chars_equal(&w, "grad") {
        Some(AngleUnit::Grad)
    } else if chars_equal(&w, "rad") {
        Some(AngleUnit::Rad)
    } else if chars_equal(&w, "turn") {
        Some(AngleUnit::Turn)
    } else {
        None
    }
}

// ---------------------------------------------------------------- nested quotes

/// State of the scan for nested quotes: the ranges found, and where an open `"` and
/// an open `“` stand.
pub struct QuoteScan {
    pub ranges: Seq<(int, int)>,
    pub ascii_start: Option<int>,
    pub curly_start: Option<int>,
}

/// The scan after the character `ch` at index `idx`: a `"` closes an open `"` or
/// opens one; `“` (re)opens a curly quote; `”` closes an open curly quote.
pub open spec fn quote_step(st: QuoteScan, idx: int, ch: char) -> QuoteScan {
    if ch == '"' {
        match st.ascii_start {
            Some(start) => QuoteScan {
                ranges: st.ranges.push((start, idx + 1)),
                ascii_start: None,
                curly_start: st.curly_start,
            },
            None => QuoteScan {
                ranges: st.ranges,
                ascii_start: Some(idx),
                curly_start: st.curly_start,
            },
        }
    } else if ch == '\u{201c}' {
        QuoteScan { ranges: st.ranges, ascii_start: st.ascii_start, curly_start: Some(idx) }
    } else if ch == '\u{201d}' {
        match st.curly_start {
            Some(start) => QuoteScan {
                ranges: st.ranges.push((start, idx + 1)),
                ascii_start: st.ascii_start,
                curly_start: None,
            },
            None => st,
        }
    } else {
        st
    }
}

/// The scan after reading `s`.
pub open spec fn quote_scan(s: Seq<char>) -> QuoteScan
    decreases s.len(),
{
    if s.len() == 0 {
        QuoteScan { ranges: Seq::empty(), ascii_start: None, curly_start: None }
    } else {
        quote_step(quote_scan(s.drop_last()), s.len() - 1, s.last())
    }
}

/// The character ranges of the quotes nested in `s`, in the order they close.
pub open spec fn nested_quote_ranges(s: Seq<char>) -> Seq<(int, int)> {
    quote_scan(s).ranges
}

/// The bounds of a sequence of ranges.
pub open spec fn range_views(v: Seq<Range<usize>>) -> Seq<(int, int)> {
    v.map_values(|r: Range<usize>| (r.start as int, r.end as int))
}

proof fn lemma_quote_scan_bounds(s: Seq<char>)
    ensures
        forall|i: int| 0 <= i < quote_scan(s).ranges.len() ==> 0 <= (#[trigger] quote_scan(s).ranges[i]).0 < quote_scan(s).ranges[i].1 <= s.len(),
        quote_scan(s).ascii_start matches Some(a) ==> 0 <= a < s.len(),
        quote_scan(s).curly_start matches Some(a) ==> 0 <= a < s.len(),
    decreases s.len(),
{
    if s.len() > 0 {
        lemma_quote_scan_bounds(s.drop_last());
    }
}

/// Whether `r` is a quote in `s`: it starts with `"` and ends with another `"`, or
/// starts with `“` and ends with `”`, within `s`.
pub open spec fn quote_range_in(s: Seq<char>, r: (int, int)) -> bool {
    &&& 0 <= r.0 < r.1 <= s.len()
    &&& (s[r.0] == '"' && s[r.1 - 1] == '"') || (s[r.0] == '\u{201c}' && s[r.1 - 1] == '\u{201d}')
    &&& r.0 < r.1 - 1
}

proof fn lemma_quote_scan_shape(s: Seq<char>)
    ensures
        forall|i: int|
            0 <= i < quote_scan(s).ranges.len() ==> quote_range_in(s, #[trigger] quote_scan(s).ranges[i]),
        forall|i: int, j: int|
            0 <= i < j < quote_scan(s).ranges.len() ==> (#[trigger] quote_scan(s).ranges[i]).1 < (
            #[trigger] quote_scan(s).ranges[j]).1,
        forall|i: int| 0 <= i < quote_scan(s).ranges.len() ==> (#[trigger] quote_scan(s).ranges[i]).1 <= s.len(),
        quote_scan(s).ascii_start matches Some(a) ==> 0 <= a < s.len() && s[a] == '"',
        quote_scan(s).curly_start matches Some(a) ==> 0 <= a < s.len() && s[a] == '\u{201c}',
    decreases s.len(),
{
    if s.len() > 0 {
        let p = s.drop_last();
        lemma_quote_scan_shape(p);
        let st = quote_scan(p);
        let cur = quote_scan(s);
        assert forall|k: int| 0 <= k < p.len() implies p[k] == s[k] by {}
        assert forall|i: int| 0 <= i < cur.ranges.len() implies quote_range_in(s, #[trigger] cur.ranges[i]) by {
            if i < st.ranges.len() {
                assert(cur.ranges[i] == st.ranges[i]);
                let r = st.ranges[i];
                assert(quote_range_in(p, r));
                assert(s[r.0] == p[r.0]);
                assert(s[r.1 - 1] == p[r.1 - 1]);
            }
        }
        assert forall|i: int, j: int|
            0 <= i < j < cur.ranges.len() implies (#[trigger] cur.ranges[i]).1 < (
            #[trigger] cur.ranges[j]).1 by {
            if j < st.ranges.len() {
                assert(cur.ranges[i] == st.ranges[i]);
                assert(cur.ranges[j] == st.ranges[j]);
            } else {
                assert(cur.ranges[i] == st.ranges[i]);
                assert(st.ranges[i].1 <= p.len());
            }
        }
        assert forall|i: int| 0 <= i < cur.ranges.len() implies (#[trigger] cur.ranges[i]).1 <= s.len() by {
            if i < st.ranges.len() {
                assert(cur.ranges[i] == st.ranges[i]);
            }
        }
    }
}

/// The nested quote ranges are quotes of the text, each from its opening mark to its
/// own closing mark, and they come in the order they close.
pub proof fn lemma_nested_quote_ranges_well_formed(s: Seq<char>)
    ensures
        forall|i: int|
            0 <= i < nested_quote_ranges(s).len() ==> quote_range_in(s, #[trigger] nested_quote_ranges(s)[i]),
        forall|i: int, j: int|
            0 <= i < j < nested_quote_ranges(s).len() ==> (#[trigger] nested_quote_ranges(s)[i]).1 < (
            #[trigger] nested_quote_ranges(s)[j]).1,
{
    lemma_quote_scan_shape(s);
}

/// The number of `"` in `s`.
pub open spec fn count_quote_marks(s: Seq<char>) -> nat
    decreases s.len(),
{
    if s.len() == 0 {
        0
    } else {
        count_quote_marks(s.drop_last()) + if s.last() == '"' {
            1nat
        } else {
            0nat
        }
    }
}

proof fn lemma_quote_scan_pairs(s: Seq<char>)
    requires
        forall|k: int| 0 <= k < s.len() ==> #[trigger] s[k] != '\u{201c}' && s[k] != '\u{201d}',
    ensures
        quote_scan(s).ranges.len() == count_quote_marks(s) / 2,
        (quote_scan(s).ascii_start is Some) == (count_quote_marks(s) % 2 == 1),
        quote_scan(s).ascii_start matches Some(a) ==> forall|k: int| a < k < s.len() ==> #[trigger] s[k] != '"',
        forall|i: int, k: int|
            0 <= i < quote_scan(s).ranges.len() && (#[trigger] quote_scan(s).ranges[i]).0 < k < quote_scan(
                s,
            ).ranges[i].1 - 1 ==> #[trigger] s[k] != '"',
    decreases s.len(),
{
    if s.len() > 0 {
        let p = s.drop_last();
        assert forall|k: int| 0 <= k < p.len() implies #[trigger] p[k] != '\u{201c}' && p[k] != '\u{201d}' by {
            assert(p[k] == s[k]);
        }
        lemma_quote_scan_pairs(p);
        lemma_quote_scan_shape(p);
        let st = quote_scan(p);
        let cur = quote_scan(s);
        let c = s.last();
        assert(c == s[s.len() - 1]);
        assert forall|k: int| 0 <= k < p.len() implies p[k] == s[k] by {}
        assert forall|i: int, k: int|
            0 <= i < cur.ranges.len() && (#[trigger] cur.ranges[i]).0 < k < cur.ranges[i].1 - 1 implies #[trigger] s[k]
            != '"' by {
            if i < st.ranges.len() {
                assert(cur.ranges[i] == st.ranges[i]);
                assert(st.ranges[i].1 <= p.len());
                assert(p[k] != '"');
            }
        }
    }
}

/// With straight quotes only, the nested quote ranges pair the quote marks in order:
/// there are half as many ranges as `"` marks, and no `"` stands inside a range, so
/// each range runs from one mark to the next.
pub proof fn lemma_straight_quotes_pair_up(s: Seq<char>)
    requires
        forall|k: int| 0 <= k < s.len() ==> #[trigger] s[k] != '\u{201c}' && s[k] != '\u{201d}',
    ensures
        nested_quote_ranges(s).len() == count_quote_marks(s) / 2,
        forall|i: int, k: int|
            0 <= i < nested_quote_ranges(s).len() && (#[trigger] nested_quote_ranges(s)[i]).0 < k
                < nested_quote_ranges(s)[i].1 - 1 ==> #[trigger] s[k] != '"',
{
    lemma_quote_scan_pairs(s);
}

/// The character ranges of the `"…"` and `“…”` quotes inside `text`, in the order
/// they close (an unmatched `”` is ignored; a later `“` replaces an open one).
pub fn find_nested_quote_ranges(text: &str) -> (ranges: Vec<Range<usize>>)
    ensures
        range_views(ranges@) == nested_quote_ranges(text@),
{
    let v = chars_of(text);
    let n = v.len();
    let mut ranges: Vec<Range<usize>> = Vec::new();
    let mut ascii_start: Option<usize> = None;
    let mut curly_start: Option<usize> = None;
    for idx in 0..n
        invariant
            n == v@.len(),
            v@ == text@,
            ({
                let st = quote_scan(v@.take(idx as int));
                &&& range_views(ranges@) == st.ranges
                &&& (match ascii_start {
                    Some(a) => st.ascii_start == Some(a as int),
                    None => st.ascii_start is None,
                })
                &&& (match curly_start {
                    Some(a) => st.curly_start == Some(a as int),
                    None => st.curly_start is None,
                })
            }),
    {
        let ch = v[idx];
        assert(v@.take(idx + 1).drop_last() =~= v@.take(idx as int));
        assert(v@.take(idx + 1).last() == ch);
        proof {
            lemma_quote_scan_bounds(v@.take(idx as int));
        }
        let ghost prev = ranges@;
        if ch == '"' {
            match ascii_start {
                Some(start) => {
                    ranges.push(start..(idx + 1));
                    assert(range_views(ranges@) =~= range_views(prev).push((start as int, idx + 1)));
                    ascii_start = None;
                },
                None => {
                    ascii_start = Some(idx);
                },
            }
        } else if ch == '\u{201c}' {
            curly_start = Some(idx);
        } else if ch == '\u{201d}' {
            match curly_start {
                Some(start) => {
                    ranges.push(start..(idx + 1));
                    assert(range_views(ranges@) =~= range_views(prev).push((start as int, idx + 1)));
                    curly_start = None;
                },
                None => {},
            }
        }
    }
    assert(v@.take(n as int) =~= v@);
    ranges
}

/// The overrides that style the quotes nested in `quote` with `st`; the ranges move
/// one character right, past the opening `"` that the quote gets when shown.
pub open spec fn shifted_overrides(quote: Seq<char>, st: StyleView) -> Seq<OverrideView> {
    nested_quote_ranges(quote).map_values(
        |r: (int, int)| OverrideView { start: r.0 + 1, end: r.1 + 1, style: st },
    )
}

/// `ovs` are the overrides for the nested quotes of `quote`: none when
/// `nested_style` is blank or gives the default style, else the nested quote ranges
/// (shifted one right) styled as `nested_style` says, its fills read by `p`.
pub open spec fn nested_overrides_ok<P: Fn(&str) -> Option<Fill>>(
    p: P,
    quote: Seq<char>,
    nested_style: Seq<char>,
    ovs: Seq<OverrideView>,
) -> bool {
    if trim(nested_style).len() == 0 {
        ovs.len() == 0
    } else {
        exists|st: StyleView|
            #[trigger] parsed_style(p, nested_style, st) && if st == spec_default_style() {
                ovs.len() == 0
            } else {
                ovs == shifted_overrides(quote, st)
            }
    }
}

/// The fill reader gives one answer per text: equal texts get equal fills.
pub open spec fn reads_deterministically<P: Fn(&str) -> Option<Fill>>(p: P) -> bool {
    forall|s1: &str, s2: &str, r1: Option<Fill>, r2: Option<Fill>|
        #![trigger call_ensures(p, (s1,), r1), call_ensures(p, (s2,), r2)]
        s1@ == s2@ && call_ensures(p, (s1,), r1) && call_ensures(p, (s2,), r2) ==> fill_opt_view(r1)
            == fill_opt_view(r2)
}

proof fn lemma_parsed_by_unique<P: Fn(&str) -> Option<Fill>>(
    p: P,
    text: Seq<char>,
    a1: Option<FillView>,
    a2: Option<FillView>,
)
    requires
        reads_deterministically(p),
        parsed_by(p, text, a1),
        parsed_by(p, text, a2),
    ensures
        a1 == a2,
{
    let (s1, r1) = choose|s: &str, r: Option<Fill>|
        s@ == text && #[trigger] call_ensures(p, (s,), r) && fill_opt_view(r) == a1;
    let (s2, r2) = choose|s: &str, r: Option<Fill>|
        s@ == text && #[trigger] call_ensures(p, (s,), r) && fill_opt_view(r) == a2;
    assert(call_ensures(p, (s1,), r1) && call_ensures(p, (s2,), r2));
}

proof fn lemma_style_of_tokens_agree(
    toks: Seq<Seq<char>>,
    a1: Seq<Option<FillView>>,
    a2: Seq<Option<FillView>>,
)
    requires
        a1.len() == toks.len(),
        a2.len() == toks.len(),
        forall|i: int| 0 <= i < toks.len() && fill_token(toks[i]) ==> #[trigger] a1[i] == a2[i],
    ensures
        style_of_tokens(toks, a1) == style_of_tokens(toks, a2),
    decreases toks.len(),
{
    if toks.len() > 0 {
        let n = toks.len() - 1;
        assert forall|i: int|
            0 <= i < toks.drop_last().len() && fill_token(toks.drop_last()[i]) implies #[trigger] a1.drop_last()[i]
            == a2.drop_last()[i] by {
            assert(toks.drop_last()[i] == toks[i]);
            assert(a1.drop_last()[i] == a1[i]);
            assert(a2.drop_last()[i] == a2[i]);
        }
        lemma_style_of_tokens_agree(toks.drop_last(), a1.drop_last(), a2.drop_last());
        assert(toks.last() == toks[n]);
        if fill_token(toks[n]) {
            assert(a1[n] == a2[n]);
        }
    }
}

/// With a fill reader that gives one answer per text, a style text gives one style.
pub proof fn lemma_parsed_style_unique<P: Fn(&str) -> Option<Fill>>(
    p: P,
    spec: Seq<char>,
    st1: StyleView,
    st2: StyleView,
)
    requires
        reads_deterministically(p),
        parsed_style(p, spec, st1),
        parsed_style(p, spec, st2),
    ensures
        st1 == st2,
{
    let toks = split_top(spec, ',');
    let a1 = choose|answers: Seq<Option<FillView>>|
        #[trigger] answers_ok(p, toks, answers) && st1 == style_of_tokens(toks, answers);
    let a2 = choose|answers: Seq<Option<FillView>>|
        #[trigger] answers_ok(p, toks, answers) && st2 == style_of_tokens(toks, answers);
    assert forall|i: int| 0 <= i < toks.len() && fill_token(toks[i]) implies #[trigger] a1[i]
        == a2[i] by {
        assert(parsed_by(p, trim(toks[i]), a1[i]));
        assert(parsed_by(p, trim(toks[i]), a2[i]));
        lemma_parsed_by_unique(p, trim(toks[i]), a1[i], a2[i]);
    }
    lemma_style_of_tokens_agree(toks, a1, a2);
}

/// With a fill reader that gives one answer per text, the nested-quote overrides are
/// those of the style that `parse_style_spec` gives for the nested style: none when
/// the nested style is blank or gives the default style, else the nested quote
/// ranges, shifted one right, in that style.
pub proof fn lemma_nested_overrides_follow_style<P: Fn(&str) -> Option<Fill>>(
    p: P,
    quote: Seq<char>,
    nested_style: Seq<char>,
    ovs: Seq<OverrideView>,
    st: StyleView,
)
    requires
        reads_deterministically(p),
        nested_overrides_ok(p, quote, nested_style, ovs),
        parsed_style(p, nested_style, st),
    ensures
        if trim(nested_style).len() == 0 || st == spec_default_style() {
            ovs.len() == 0
        } else {
            ovs == shifted_overrides(quote, st)
        },
{
    if trim(nested_style).len() > 0 {
        let st0 = choose|st0: StyleView|
            #[trigger] parsed_style(p, nested_style, st0) && if st0 == spec_default_style() {
                ovs.len() == 0
            } else {
                ovs == shifted_overrides(quote, st0)
            };
        lemma_parsed_style_unique(p, nested_style, st0, st);
    }
}

/// The overrides that style the quotes nested inside `quote` with
/// `nested_quote_style`.
pub fn nested_quote_overrides<P: Fn(&str) -> Option<Fill>>(
    quote: &str,
    nested_quote_style: &str,
    parse_fill: &P,
) -> (ovs: Vec<StyleOverride>)
    requires
        parses_anything(*parse_fill),
        quote@.len() < usize::MAX,
    ensures
        nested_overrides_ok(*parse_fill, quote@, nested_quote_style@, override_views(ovs@)),
{
    let sv = chars_of(nested_quote_style);
    let t = trim_chars(&sv);
    if t.len() == 0 {
        return Vec::new();
    }
    let style = parse_style_spec(nested_quote_style, parse_fill);
    if style.is_default() {
        return Vec::new();
    }
    let ranges = find_nested_quote_ranges(quote);
    let ghost rs = nested_quote_ranges(quote@);
    let ghost target = shifted_overrides(quote@, style@);
    let n = ranges.len();
    let mut ovs: Vec<StyleOverride> = Vec::new();
    proof {
        lemma_quote_scan_bounds(quote@);
    }
    for i in 0..n
        invariant
            n == ranges@.len(),
            range_views(ranges@) == rs,
            rs == nested_quote_ranges(quote@),
            quote@.len() < usize::MAX,
            target == shifted_overrides(quote@, style@),
            forall|k: int| 0 <= k < rs.len() ==> 0 <= (#[trigger] rs[k]).0 < rs[k].1 <= quote@.len(),
            override_views(ovs@) == target.take(i as int),
    {
        let r = &ranges[i];
        assert(range_views(ranges@)[i as int] == (r.start as int, r.end as int));
        let ghost prev = ovs@;
        let o = StyleOverride { range: (r.start + 1)..(r.end + 1), style: style.copy() };
        assert(o@ == target[i as int]);
        ovs.push(o);
        assert(override_views(ovs@) =~= override_views(prev).push(o@));
        assert(override_views(ovs@) =~= target.take(i + 1));
    }
    assert(target.take(n as int) =~= target);
    ovs
}

// ---------------------------------------------------------------- resolved styles

/// `st` with its fill replaced.
pub open spec fn with_fill(st: StyleView, f: FillView) -> StyleView {
    StyleView { decorations: st.decorations, fill: Some(f) }
}

/// `st` is the style of the quote text: the quote style tokens, then the rainbow in
/// rainbow mode, else (when the tokens set no fill) the theme colour read by `p`, or
/// the fallback colour when `p` cannot read it.
pub open spec fn quote_style_ok<P: Fn(&str) -> Option<Fill>>(
    p: P,
    quote_style: Seq<char>,
    theme_color: Seq<char>,
    rainbow_mode: bool,
    st: StyleView,
) -> bool {
    exists|base: StyleView|
        #[trigger] parsed_style(p, quote_style, base) && if rainbow_mode {
            st == with_fill(base, FillView::Rainbow)
        } else if base.fill is Some {
            st == base
        } else {
            exists|ans: Option<FillView>|
                #[trigger] parsed_by(p, theme_color, ans) && st == with_fill(
                    base,
                    match ans {
                        Some(f) => f,
                        None => FillView::Solid(spec_fallback_color()),
                    },
                )
        }
}

/// The style of the quote text.
pub fn resolve_quote_style<P: Fn(&str) -> Option<Fill>>(cfg: &Config, parse_fill: &P) -> (style:
    TextStyle)
    requires
        parses_anything(*parse_fill),
    ensures
        quote_style_ok(
            *parse_fill,
            cfg.quote_style@,
            cfg.theme_color@,
            cfg.rainbow_mode,
            style@,
        ),
{
    let mut style = parse_style_spec(cfg.quote_style.as_str(), parse_fill);
    let ghost base = style@;
    if cfg.rainbow_mode {
        style.fill = Some(Fill::Rainbow);
        return style;
    }
    if style.fill.is_none() {
        let theme = cfg.theme_color.as_str();
        let ans = parse_fill(theme);
        proof {
            assert(call_ensures(*parse_fill, (theme,), ans));
            assert(parsed_by(*parse_fill, cfg.theme_color@, fill_opt_view(ans)));
        }
        style.fill = match ans {
            Some(f) => Some(f),
            None => Some(Fill::Solid(fallback_color())),
        };
    }
    style
}

/// The colour of the author line when its tokens set none: the named colour
/// `green`, else the fallback colour.
pub open spec fn spec_author_green() -> RgbColor {
    match named_color_of("green"@) {
        Some(c) => c,
        None => spec_fallback_color(),
    }
}

/// `st` is the style of the author line: its style tokens, filled with the named
/// colour `green` when they set no fill.
pub open spec fn author_style_ok<P: Fn(&str) -> Option<Fill>>(
    p: P,
    author_style: Seq<char>,
    st: StyleView,
) -> bool {
    exists|base: StyleView|
        #[trigger] parsed_style(p, author_style, base) && if base.fill is Some {
            st == base
        } else {
            st == with_fill(base, FillView::Solid(spec_author_green()))
        }
}

/// The style of the author line.
pub fn resolve_author_style<P: Fn(&str) -> Option<Fill>>(cfg: &Config, parse_fill: &P) -> (style:
    TextStyle)
    requires
        parses_anything(*parse_fill),
    ensures
        author_style_ok(*parse_fill, cfg.author_style@, style@),
{
    let mut style = parse_style_spec(cfg.author_style.as_str(), parse_fill);
    if style.fill.is_none() {
        let c = match named_color_rgb("green") {
            Some(c) => c,
            None => fallback_color(),
        };
        style.fill = Some(Fill::Solid(c));
    }
    style
}

} // verus!
