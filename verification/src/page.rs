use vstd::prelude::*;
use crate::text::{chars_of, string_from, trim, trim_chars, views, vviews};

verus! {

// ---------------------------------------------------------------- finding a pattern

/// The first position at or after `from` where `pat` starts in `s`.
pub open spec fn first_match_from(s: Seq<char>, pat: Seq<char>, from: int) -> Option<int>
    decreases s.len() + 1 - from,
{
    if from < 0 || from + pat.len() > s.len() {
        None
    } else if s.subrange(from, from + pat.len()) == pat {
        Some(from)
    } else {
        first_match_from(s, pat, from + 1)
    }
}

/// The pieces of `s` between the places where `pat` stands, read from `from` on
/// (`str::split` with a pattern that is not empty).
pub open spec fn split_from(s: Seq<char>, pat: Seq<char>, from: int) -> Seq<Seq<char>>
    decreases s.len() - from,
{
    match first_match_from(s, pat, from) {
        Some(i) => if pat.len() > 0 && 0 <= from <= i && i + pat.len() <= s.len() {
            seq![s.subrange(from, i)] + split_from(s, pat, i + pat.len())
        } else {
            seq![s.subrange(from, s.len() as int)]
        },
        None => seq![s.subrange(from, s.len() as int)],
    }
}

/// The pieces of `s` between the places where `pat` stands.
pub open spec fn split_on(s: Seq<char>, pat: Seq<char>) -> Seq<Seq<char>> {
    split_from(s, pat, 0)
}

/// What stands in `s` before the first `pat` (all of `s` where there is none).
pub open spec fn text_before(s: Seq<char>, pat: Seq<char>) -> Seq<char> {
    match first_match_from(s, pat, 0) {
        Some(i) => s.take(i),
        None => s,
    }
}

pub proof fn lemma_first_match_bounds(s: Seq<char>, pat: Seq<char>, from: int)
    ensures
        first_match_from(s, pat, from) matches Some(i) ==> from <= i && i + pat.len() <= s.len()
            && s.subrange(i, i + pat.len()) == pat,
    decreases s.len() + 1 - from,
{
    if !(from < 0 || from + pat.len() > s.len()) && s.subrange(from, from + pat.len()) != pat {
        lemma_first_match_bounds(s, pat, from + 1);
    }
}

/// A character added at the end of `s` can only add a match of a one-character
/// pattern at the end.
pub proof fn lemma_first_match_push(s: Seq<char>, d: char, c: char, from: int)
    requires
        0 <= from <= s.len(),
    ensures
        first_match_from(s.push(c), seq![d], from) == (match first_match_from(s, seq![d], from) {
            Some(i) => Some(i),
            None => if c == d {
                Some(s.len() as int)
            } else {
                None
            },
        }),
    decreases s.len() + 1 - from,
{
    let t = s.push(c);
    if from == s.len() {
        assert(t.subrange(from, from + 1) =~= seq![c]);
        if c != d {
            assert(t.subrange(from, from + 1) != seq![d]) by {
                assert(t.subrange(from, from + 1)[0] == c);
            }
        }
    } else {
        assert(t.subrange(from, from + 1) =~= s.subrange(from, from + 1));
        lemma_first_match_push(s, d, c, from + 1);
    }
}

/// Splitting `s` with a character added: a delimiter starts a new empty piece, any
/// other character joins the last piece.
pub proof fn lemma_split_push(s: Seq<char>, d: char, c: char, from: int)
    requires
        0 <= from <= s.len(),
    ensures
        split_from(s.push(c), seq![d], from) == (if c == d {
            split_from(s, seq![d], from).push(Seq::empty())
        } else {
            split_from(s, seq![d], from).update(
                split_from(s, seq![d], from).len() - 1,
                split_from(s, seq![d], from).last().push(c),
            )
        }),
    decreases s.len() + 1 - from,
{
    let t = s.push(c);
    let pat = seq![d];
    lemma_first_match_push(s, d, c, from);
    lemma_first_match_bounds(s, pat, from);
    match first_match_from(s, pat, from) {
        Some(i) => {
            lemma_split_push(s, d, c, i + 1);
            lemma_split_not_empty(s, pat, i + 1);
            assert(t.subrange(from, i) =~= s.subrange(from, i));
            let rest = split_from(s, pat, i + 1);
            let head = seq![s.subrange(from, i)];
            assert(split_from(s, pat, from) == head + rest);
            if c == d {
                assert((head + rest).push(Seq::empty()) =~= head + rest.push(Seq::empty()));
            } else {
                assert((head + rest).update((head + rest).len() - 1, (head + rest).last().push(c))
                    =~= head + rest.update(rest.len() - 1, rest.last().push(c)));
            }
        },
        None => {
            let e: int = s.len() as int + 1;
            if c == d {
                assert(t.subrange(from, s.len() as int) =~= s.subrange(from, s.len() as int));
                assert(t.subrange(e, e) =~= Seq::<char>::empty());
                assert(split_from(t, pat, e) == seq![t.subrange(e, e)]);
                assert(split_from(t, pat, from) =~= seq![s.subrange(from, s.len() as int)].push(
                    Seq::empty(),
                ));
            } else {
                assert(t.subrange(from, t.len() as int) =~= s.subrange(from, s.len() as int).push(c));
                assert(split_from(t, pat, from) =~= seq![s.subrange(from, s.len() as int)].update(
                    0,
                    s.subrange(from, s.len() as int).push(c),
                ));
            }
        },
    }
}

/// Whether `pat` stands in `v` at position `at`.
fn matches_at(v: &Vec<char>, at: usize, pat: &Vec<char>) -> (b: bool)
    requires
        at + pat@.len() <= v@.len(),
    ensures
        b == (v@.subrange(at as int, at + pat@.len()) == pat@),
{
    let n = pat.len();
    for k in 0..n
        invariant
            n == pat@.len(),
            at + n <= v.len(),
            forall|j: int| 0 <= j < k ==> v@[at + j] == pat@[j],
    {
        if v[at + k] != pat[k] {
            assert(v@.subrange(at as int, at + n)[k as int] != pat@[k as int]);
            return false;
        }
    }
    assert(v@.subrange(at as int, at + n) =~= pat@);
    true
}

/// The first position at or after `from` where `pat` starts in `v`.
fn find_from(v: &Vec<char>, from: usize, pat: &Vec<char>) -> (r: Option<usize>)
    requires
        from <= v@.len(),
    ensures
        r matches Some(i) ==> first_match_from(v@, pat@, from as int) == Some(i as int),
        r is None ==> first_match_from(v@, pat@, from as int) is None,
{
    let n = v.len();
    let m = pat.len();
    if m > n {
        return None;
    }
    if m == 0 {
        assert(v@.subrange(from as int, from as int) =~= pat@);
        return Some(from);
    }
    let mut j = from;
    while j <= n - m
        invariant
            n == v@.len(),
            m == pat@.len(),
            0 < m <= n,
            from <= j <= n,
            first_match_from(v@, pat@, from as int) == first_match_from(v@, pat@, j as int),
        decreases n - j,
    {
        if matches_at(v, j, pat) {
            return Some(j);
        }
        j = j + 1;
    }
    None
}

/// `v[lo..hi]`.
fn slice_chars(v: &Vec<char>, lo: usize, hi: usize) -> (r: Vec<char>)
    requires
        lo <= hi <= v@.len(),
    ensures
        r@ == v@.subrange(lo as int, hi as int),
{
    let mut r: Vec<char> = Vec::new();
    let mut i = lo;
    while i < hi
        invariant
            lo <= i <= hi <= v@.len(),
            r@ == v@.subrange(lo as int, i as int),
        decreases hi - i,
    {
        r.push(v[i]);
        assert(r@ =~= v@.subrange(lo as int, i + 1));
        i = i + 1;
    }
    r
}

/// The pieces of `v` between the places where `pat` stands.
pub fn split_chars(v: &Vec<char>, pat: &Vec<char>) -> (r: Vec<Vec<char>>)
    requires
        pat@.len() > 0,
    ensures
        vviews(r@) == split_on(v@, pat@),
{
    let n = v.len();
    let mut r: Vec<Vec<char>> = Vec::new();
    let mut pos: usize = 0;
    let mut done = false;
    while !done
        invariant
            n == v@.len(),
            pat@.len() > 0,
            pos <= n,
            !done ==> split_on(v@, pat@) == vviews(r@) + split_from(v@, pat@, pos as int),
            done ==> split_on(v@, pat@) == vviews(r@),
        decreases n - pos + (if done { 0int } else { 1int }),
    {
        let ghost prev = r@;
        proof {
            lemma_first_match_bounds(v@, pat@, pos as int);
        }
        match find_from(v, pos, pat) {
            Some(i) => {
                let piece = slice_chars(v, pos, i);
                r.push(piece);
                assert(vviews(r@) =~= vviews(prev).push(piece@));
                assert(vviews(prev) + split_from(v@, pat@, pos as int) =~= vviews(r@)
                    + split_from(v@, pat@, i + pat@.len()));
                pos = i + pat.len();
            },
            None => {
                let piece = slice_chars(v, pos, n);
                r.push(piece);
                assert(vviews(r@) =~= vviews(prev).push(piece@));
                assert(vviews(prev) + split_from(v@, pat@, pos as int) =~= vviews(r@));
                done = true;
            },
        }
    }
    r
}

// ---------------------------------------------------------------- tags

/// Whether, after reading `s`, a tag is open: the last of `<` and `>` in `s` is `<`.
pub open spec fn in_tag_after(s: Seq<char>) -> bool
    decreases s.len(),
{
    if s.len() == 0 {
        false
    } else if s.last() == '<' {
        true
    } else if s.last() == '>' {
        false
    } else {
        in_tag_after(s.drop_last())
    }
}

/// `s` with its tags removed: every `<` and `>` goes, and so does every character
/// that stands inside a tag, after a `<` that no `>` has closed yet.
pub open spec fn untagged(s: Seq<char>) -> Seq<char>
    decreases s.len(),
{
    if s.len() == 0 {
        Seq::empty()
    } else {
        let c = s.last();
        let p = s.drop_last();
        if c == '<' || c == '>' || in_tag_after(p) {
            untagged(p)
        } else {
            untagged(p).push(c)
        }
    }
}

/// `v` with its tags removed.
pub fn strip_tags(v: &Vec<char>) -> (r: Vec<char>)
    ensures
        r@ == untagged(v@),
{
    let n = v.len();
    let mut r: Vec<char> = Vec::new();
    let mut in_tag = false;
    for i in 0..n
        invariant
            n == v@.len(),
            in_tag == in_tag_after(v@.take(i as int)),
            r@ == untagged(v@.take(i as int)),
    {
        let c = v[i];
        assert(v@.take(i + 1).drop_last() =~= v@.take(i as int));
        assert(v@.take(i + 1).last() == c);
        if c == '<' {
            in_tag = true;
        } else if c == '>' {
            in_tag = false;
        } else if !in_tag {
            r.push(c);
        }
    }
    assert(v@.take(n as int) =~= v@);
    r
}

/// What stands in `v` before the first `pat` (all of `v` where there is none).
pub fn chars_before(v: &Vec<char>, pat: &Vec<char>) -> (r: Vec<char>)
    ensures
        r@ == text_before(v@, pat@),
{
    proof {
        lemma_first_match_bounds(v@, pat@, 0);
    }
    match find_from(v, 0, pat) {
        Some(i) => slice_chars(v, 0, i),
        None => slice_chars(v, 0, v.len()),
    }
}

// ---------------------------------------------------------------- quotes of a page

/// The text of one list item: what follows its `<li>` up to the next `</li>`, with
/// tags removed and surrounding whitespace trimmed.
pub open spec fn item_text(piece: Seq<char>) -> Seq<char> {
    trim(untagged(text_before(piece, "</li>"@)))
}

/// The texts of the list items of a page, in page order.
pub open spec fn item_texts(html: Seq<char>) -> Seq<Seq<char>> {
    split_on(html, "<li>"@).drop_first().map_values(|piece: Seq<char>| item_text(piece))
}

/// The texts in `ts` that are not empty, in order.
pub open spec fn nonempty_texts(ts: Seq<Seq<char>>) -> Seq<Seq<char>> {
    ts.filter(|t: Seq<char>| t.len() > 0)
}

/// The quotes on a page: the texts of its list items that are not empty.
pub open spec fn page_quotes(html: Seq<char>) -> Seq<Seq<char>> {
    nonempty_texts(item_texts(html))
}

/// The quotes in the HTML of a page section: the text of each list item (what follows
/// an `<li>` up to the next `</li>`, tags removed, trimmed), empty ones left out.
pub fn quotes_from_html(html: &str) -> (quotes: Vec<String>)
    ensures
        views(quotes@) == page_quotes(html@),
{
    let v = chars_of(html);
    let open_tag = chars_of("<li>");
    let close_tag = chars_of("</li>");
    proof {
        reveal_strlit("<li>");
    }
    let pieces = split_chars(&v, &open_tag);
    let ghost items = item_texts(html@);
    let mut quotes: Vec<String> = Vec::new();
    let n = pieces.len();
    if n == 0 {
        proof {
            lemma_split_not_empty(html@, "<li>"@, 0);
        }
        return quotes;
    }
    assert(items.len() == n - 1);
    for k in 1..n
        invariant
            n == pieces@.len(),
            n > 0,
            vviews(pieces@) == split_on(html@, "<li>"@),
            close_tag@ == "</li>"@,
            items == item_texts(html@),
            items.len() == n - 1,
            views(quotes@) == nonempty_texts(items.take(k - 1)),
    {
        let before = chars_before(&pieces[k], &close_tag);
        let bare = strip_tags(&before);
        let t = trim_chars(&bare);
        let ghost prev = quotes@;
        assert(pieces@[k as int]@ == vviews(pieces@)[k as int]);
        assert(t@ == items[k - 1]);
        assert(items.take(k as int).drop_last() =~= items.take(k - 1));
        assert(items.take(k as int).last() == t@);
        if t.len() > 0 {
            let q = string_from(&t);
            quotes.push(q);
            assert(views(quotes@) =~= views(prev).push(q@));
        }
        proof {
            assert(items.take(k as int) =~= items.take(k - 1).push(t@));
            lemma_nonempty_push(items.take(k - 1), t@);
        }
    }
    assert(items.take(n - 1) =~= items);
    quotes
}

proof fn lemma_nonempty_push(ts: Seq<Seq<char>>, t: Seq<char>)
    ensures
        nonempty_texts(ts.push(t)) == (if t.len() > 0 {
            nonempty_texts(ts).push(t)
        } else {
            nonempty_texts(ts)
        }),
{
    reveal(Seq::filter);
    assert(ts.push(t).drop_last() =~= ts);
}

pub proof fn lemma_split_not_empty(s: Seq<char>, pat: Seq<char>, from: int)
    ensures
        split_from(s, pat, from).len() > 0,
    decreases s.len() + 1 - from,
{
    lemma_first_match_bounds(s, pat, from);
    match first_match_from(s, pat, from) {
        Some(i) => {
            if pat.len() > 0 && 0 <= from <= i && i + pat.len() <= s.len() {
                lemma_split_not_empty(s, pat, i + pat.len());
            }
        },
        None => {},
    }
}

/// Removing tags leaves no `<` or `>`, and leaves a text that has neither unchanged.
pub proof fn lemma_untagged_clean(s: Seq<char>)
    ensures
        forall|i: int| 0 <= i < untagged(s).len() ==> #[trigger] untagged(s)[i] != '<' && untagged(s)[i] != '>',
        (forall|i: int| 0 <= i < s.len() ==> #[trigger] s[i] != '<' && s[i] != '>') ==> untagged(s) == s,
    decreases s.len(),
{
    if s.len() > 0 {
        let p = s.drop_last();
        lemma_untagged_clean(p);
        lemma_in_tag_clean(p);
        let u = untagged(p);
        let c = s.last();
        assert forall|i: int| 0 <= i < untagged(s).len() implies #[trigger] untagged(s)[i] != '<' && untagged(s)[i] != '>' by {
            if i < u.len() {
                assert(untagged(s)[i] == u[i] || untagged(s) == u);
            }
        }
        if forall|i: int| 0 <= i < s.len() ==> #[trigger] s[i] != '<' && s[i] != '>' {
            assert forall|i: int| 0 <= i < p.len() implies #[trigger] p[i] != '<' && p[i] != '>' by {
                assert(p[i] == s[i]);
            }
            assert(c == s[s.len() - 1]);
            assert(!in_tag_after(p));
            assert(u == p);
            assert(p.push(c) =~= s);
        }
    }
}

proof fn lemma_in_tag_clean(s: Seq<char>)
    ensures
        (forall|i: int| 0 <= i < s.len() ==> #[trigger] s[i] != '<') ==> !in_tag_after(s),
    decreases s.len(),
{
    if s.len() > 0 {
        lemma_in_tag_clean(s.drop_last());
        if forall|i: int| 0 <= i < s.len() ==> #[trigger] s[i] != '<' {
            assert forall|i: int| 0 <= i < s.drop_last().len() implies #[trigger] s.drop_last()[i] != '<' by {
                assert(s.drop_last()[i] == s[i]);
            }
            assert(s.last() == s[s.len() - 1]);
        }
    }
}

proof fn lemma_nonempty_texts_members(ts: Seq<Seq<char>>)
    ensures
        forall|x: Seq<char>| #[trigger] nonempty_texts(ts).contains(x) <==> (ts.contains(x) && x.len() > 0),
    decreases ts.len(),
{
    if ts.len() > 0 {
        let p = ts.drop_last();
        lemma_nonempty_texts_members(p);
        lemma_nonempty_push(p, ts.last());
        assert(p.push(ts.last()) =~= ts);
        let r = nonempty_texts(ts);
        let rp = nonempty_texts(p);
        assert forall|x: Seq<char>| #[trigger] r.contains(x) <==> (ts.contains(x) && x.len() > 0) by {
            if r.contains(x) {
                let m = choose|m: int| 0 <= m < r.len() && r[m] == x;
                if m < rp.len() {
                    assert(rp[m] == x);
                    assert(rp.contains(x));
                    let j = choose|j: int| 0 <= j < p.len() && p[j] == x;
                    assert(ts[j] == x);
                } else {
                    assert(ts[ts.len() - 1] == x);
                }
            }
            if ts.contains(x) && x.len() > 0 {
                let j = choose|j: int| 0 <= j < ts.len() && ts[j] == x;
                if j < p.len() {
                    assert(p[j] == x);
                    assert(rp.contains(x));
                    let m = choose|m: int| 0 <= m < rp.len() && rp[m] == x;
                    assert(r[m] == x);
                } else {
                    assert(r[r.len() - 1] == x);
                }
            }
        }
    } else {
        reveal(Seq::filter);
    }
}

/// The quotes of a page are the texts of its list items that hold something: each
/// is non-empty, trimmed and free of `<` and `>`, and every list item with text gives
/// one.
pub proof fn lemma_page_quotes_clean(html: Seq<char>)
    ensures
        forall|q: Seq<char>|
            #[trigger] page_quotes(html).contains(q) ==> q.len() > 0 && trim(q) == q && forall|k: int|
                0 <= k < q.len() ==> #[trigger] q[k] != '<' && q[k] != '>',
        forall|i: int|
            0 <= i < item_texts(html).len() && (#[trigger] item_texts(html)[i]).len() > 0
                ==> page_quotes(html).contains(item_texts(html)[i]),
{
    let items = item_texts(html);
    lemma_nonempty_texts_members(items);
    assert forall|q: Seq<char>| #[trigger] page_quotes(html).contains(q) implies q.len() > 0 && trim(q) == q
        && forall|k: int| 0 <= k < q.len() ==> #[trigger] q[k] != '<' && q[k] != '>' by {
        let j = choose|j: int| 0 <= j < items.len() && items[j] == q;
        let pieces = split_on(html, "<li>"@).drop_first();
        let u = untagged(text_before(pieces[j], "</li>"@));
        assert(q == trim(u));
        crate::text::lemma_trim_idempotent(u);
        lemma_untagged_clean(text_before(pieces[j], "</li>"@));
        crate::text::lemma_trim_is_stretch(u);
        let lo = choose|lo: int| 0 <= lo && lo + trim(u).len() <= u.len() && trim(u) == #[trigger] u.subrange(lo, lo + trim(u).len());
        assert forall|k: int| 0 <= k < q.len() implies #[trigger] q[k] != '<' && q[k] != '>' by {
            assert(q[k] == u[lo + k]);
        }
    }
    assert forall|i: int|
        0 <= i < items.len() && (#[trigger] items[i]).len() > 0 implies page_quotes(html).contains(items[i]) by {
        assert(items.contains(items[i]));
    }
}

} // verus!
