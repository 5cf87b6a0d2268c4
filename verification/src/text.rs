use vstd::prelude::*;

verus! {

/// Unicode `White_Space`, the property that `char::is_whitespace` tests.
pub open spec fn is_ws(c: char) -> bool {
    let u = c as u32;
    ||| u == 0x20
    ||| (0x09 <= u && u <= 0x0d)
    ||| u == 0x85
    ||| u == 0xa0
    ||| u == 0x1680
    ||| (0x2000 <= u && u <= 0x200a)
    ||| u == 0x2028
    ||| u == 0x2029
    ||| u == 0x202f
    ||| u == 0x205f
    ||| u == 0x3000
}

/// Number of whitespace characters at the front of `s`.
pub open spec fn lead_ws(s: Seq<char>) -> nat
    decreases s.len(),
{
    if s.len() > 0 && is_ws(s[0]) {
        1 + lead_ws(s.drop_first())
    } else {
        0
    }
}

/// Number of whitespace characters at the back of `s`.
pub open spec fn trail_ws(s: Seq<char>) -> nat
    decreases s.len(),
{
    if s.len() > 0 && is_ws(s.last()) {
        1 + trail_ws(s.drop_last())
    } else {
        0
    }
}

/// `s` without its leading whitespace (`str::trim_start`).
pub open spec fn trim_start(s: Seq<char>) -> Seq<char> {
    s.skip(lead_ws(s) as int)
}

/// `s` without its trailing whitespace (`str::trim_end`).
pub open spec fn trim_end(s: Seq<char>) -> Seq<char> {
    s.take(s.len() - trail_ws(s))
}

/// `s` without leading and trailing whitespace (`str::trim`).
pub open spec fn trim(s: Seq<char>) -> Seq<char> {
    trim_end(trim_start(s))
}

/// ASCII upper-case letters mapped to lower case, everything else unchanged.
pub open spec fn ascii_lower(c: char) -> char {
    if 'A' <= c && c <= 'Z' {
        ((c as u32) + 32) as char
    } else {
        c
    }
}

/// `s` with every character passed through `ascii_lower`.
pub open spec fn ascii_lower_seq(s: Seq<char>) -> Seq<char> {
    s.map_values(|c: char| ascii_lower(c))
}

/// The views of a sequence of strings.
pub open spec fn views(v: Seq<String>) -> Seq<Seq<char>> {
    v.map_values(|s: String| s@)
}

/// The views of a sequence of character vectors.
pub open spec fn vviews(v: Seq<Vec<char>>) -> Seq<Seq<char>> {
    v.map_values(|s: Vec<char>| s@)
}

pub proof fn lemma_lead_ws_bound(s: Seq<char>)
    ensures
        lead_ws(s) <= s.len(),
        forall|j: int| 0 <= j < lead_ws(s) ==> is_ws(#[trigger] s[j]),
        lead_ws(s) < s.len() ==> !is_ws(s[lead_ws(s) as int]),
    decreases s.len(),
{
    if s.len() > 0 && is_ws(s[0]) {
        lemma_lead_ws_bound(s.drop_first());
        assert forall|j: int| 0 <= j < lead_ws(s) implies is_ws(#[trigger] s[j]) by {
            if j > 0 {
                assert(s[j] == s.drop_first()[j - 1]);
            }
        }
    }
}

pub proof fn lemma_trail_ws_bound(s: Seq<char>)
    ensures
        trail_ws(s) <= s.len(),
        forall|j: int| s.len() - trail_ws(s) <= j < s.len() ==> is_ws(#[trigger] s[j]),
        trail_ws(s) < s.len() ==> !is_ws(s[s.len() - trail_ws(s) - 1]),
    decreases s.len(),
{
    if s.len() > 0 && is_ws(s.last()) {
        lemma_trail_ws_bound(s.drop_last());
        assert forall|j: int| s.len() - trail_ws(s) <= j < s.len() implies is_ws(#[trigger] s[j]) by {
            if j < s.len() - 1 {
                assert(s[j] == s.drop_last()[j]);
            }
        }
    }
}

/// Trimming keeps a stretch of the text: every character of the trimmed text is a
/// character of the text, at an offset that trimming fixes.
pub proof fn lemma_trim_is_stretch(s: Seq<char>)
    ensures
        exists|lo: int| 0 <= lo && lo + trim(s).len() <= s.len() && trim(s) == #[trigger] s.subrange(lo, lo + trim(s).len()),
{
    let t0 = trim_start(s);
    lemma_lead_ws_bound(s);
    lemma_trail_ws_bound(t0);
    let lo = lead_ws(s) as int;
    assert(trim(s) =~= s.subrange(lo, lo + trim(s).len()));
}

/// Trimming twice is trimming once.
pub proof fn lemma_trim_idempotent(s: Seq<char>)
    ensures
        trim(trim(s)) == trim(s),
{
    let t = trim_start(s);
    lemma_lead_ws_bound(s);
    lemma_trail_ws_bound(t);
    let u = trim(s);
    lemma_lead_ws_bound(u);
    lemma_trail_ws_bound(u);
    if u.len() > 0 {
        assert(u[0] == t[0]);
        if lead_ws(s) < s.len() {
            assert(t[0] == s[lead_ws(s) as int]);
        }
        assert(lead_ws(u) == 0);
        assert(u.last() == t[t.len() - trail_ws(t) - 1]);
        assert(trail_ws(u) == 0);
    } else {
        assert(lead_ws(u) == 0);
        assert(trail_ws(u) == 0);
    }
    assert(u.skip(0) =~= u);
    assert(u.take(u.len() as int) =~= u);
}

/// Whether `c` is Unicode whitespace (`char::is_whitespace`).
pub fn is_whitespace(c: char) -> (b: bool)
    ensures
        b == is_ws(c),
{
    let u = c as u32;
    u == 0x20 || (0x09 <= u && u <= 0x0d) || u == 0x85 || u == 0xa0 || u == 0x1680 || (0x2000
        <= u && u <= 0x200a) || u == 0x2028 || u == 0x2029 || u == 0x202f || u == 0x205f || u
        == 0x3000
}

/// `ascii_lower` on one character (`char::to_ascii_lowercase`).
pub fn to_ascii_lower(c: char) -> (r: char)
    ensures
        r == ascii_lower(c),
{
    if 'A' <= c && c <= 'Z' {
        let b = c as u8;
        (b + 32) as char
    } else {
        c
    }
}

/// The characters of `s`, in order.
pub fn chars_of(s: &str) -> (v: Vec<char>)
    ensures
        v@ == s@,
{
    let mut v: Vec<char> = Vec::new();
    for c in it: s.chars()
        invariant
            v@ == it.seq().take(it.index() as int),
            it.seq() == s@,
    {
        v.push(c);
    }
    v
}

/// Appends one character to a string (`String::push`).
#[verifier::external_body]
pub(crate) fn push_char(s: &mut String, c: char)
    ensures
        final(s)@ == old(s)@.push(c),
{
    s.push(c);
}

/// A string holding the characters of `v`.
pub fn string_from(v: &Vec<char>) -> (s: String)
    ensures
        s@ == v@,
{
    let mut s = String::new();
    let n = v.len();
    for i in 0..n
        invariant
            n == v@.len(),
            s@ == v@.take(i as int),
    {
        push_char(&mut s, v[i]);
        assert(v@.take(i as int).push(v@[i as int]) =~= v@.take(i + 1));
    }
    assert(v@.take(n as int) =~= v@);
    s
}

/// Strings holding the character vectors of `v`.
pub fn strings_from(v: &Vec<Vec<char>>) -> (r: Vec<String>)
    ensures
        views(r@) == vviews(v@),
{
    let mut r: Vec<String> = Vec::new();
    let n = v.len();
    for i in 0..n
        invariant
            n == v@.len(),
            views(r@) == vviews(v@).take(i as int),
    {
        let s = string_from(&v[i]);
        let ghost prev = r@;
        r.push(s);
        assert(views(prev).len() == prev.len());
        assert(prev.len() == i);
        assert(r@ == prev.push(s));
        assert forall|j: int| 0 <= j < i + 1 implies #[trigger] views(r@)[j] == vviews(v@).take(
            i + 1,
        )[j] by {
            if j < i {
                assert(r@[j] == prev[j]);
                assert(views(prev)[j] == vviews(v@).take(i as int)[j]);
            }
        }
        assert(views(r@) =~= vviews(v@).take(i + 1));
    }
    assert(vviews(v@).take(n as int) =~= vviews(v@));
    r
}

/// `v` without leading and trailing whitespace.
pub fn trim_chars(v: &Vec<char>) -> (r: Vec<char>)
    ensures
        r@ == trim(v@),
{
    let n = v.len();
    let mut lo: usize = 0;
    assert(v@.skip(0) =~= v@);
    while lo < n && is_whitespace(v[lo])
        invariant
            n == v@.len(),
            lo <= n,
            lead_ws(v@) == lo + lead_ws(v@.skip(lo as int)),
        decreases n - lo,
    {
        assert(v@.skip(lo as int).drop_first() =~= v@.skip(lo + 1));
        lo = lo + 1;
    }
    assert(lead_ws(v@) == lo) by {
        if lo < n {
            assert(v@.skip(lo as int)[0] == v@[lo as int]);
        }
    }
    let ghost t = v@.skip(lo as int);
    let mut hi: usize = n;
    assert(t.take(n - lo) =~= t);
    while hi > lo && is_whitespace(v[hi - 1])
        invariant
            n == v@.len(),
            lo <= hi <= n,
            t == v@.skip(lo as int),
            trail_ws(t) == (n - hi) + trail_ws(t.take(hi - lo)),
        decreases hi - lo,
    {
        assert(t.take(hi - lo).drop_last() =~= t.take(hi - 1 - lo));
        assert(t.take(hi - lo).last() == v@[hi - 1]);
        hi = hi - 1;
    }
    assert(trail_ws(t) == n - hi) by {
        if hi > lo {
            assert(t.take(hi - lo).last() == v@[hi - 1]);
        }
    }
    let mut r: Vec<char> = Vec::new();
    let mut i = lo;
    while i < hi
        invariant
            n == v@.len(),
            lo <= i <= hi <= n,
            r@ == v@.subrange(lo as int, i as int),
        decreases hi - i,
    {
        r.push(v[i]);
        assert(r@ =~= v@.subrange(lo as int, i + 1));
        i = i + 1;
    }
    assert(r@ =~= trim(v@));
    r
}

/// Whether `v` holds exactly the characters of `w`.
pub fn chars_equal(v: &Vec<char>, w: &str) -> (b: bool)
    ensures
        b == (v@ == w@),
{
    let wv = chars_of(w);
    if v.len() != wv.len() {
        return false;
    }
    let n = v.len();
    for i in 0..n
        invariant
            n == v@.len(),
            n == wv@.len(),
            wv@ == w@,
            forall|j: int| 0 <= j < i ==> v@[j] == wv@[j],
    {
        if v[i] != wv[i] {
            return false;
        }
    }
    assert(v@ =~= wv@);
    true
}

/// Whether `v` and `w` are equal once their ASCII letters are lower-cased
/// (`str::eq_ignore_ascii_case`).
pub fn eq_ignore_ascii_case(v: &Vec<char>, w: &str) -> (b: bool)
    ensures
        b == (ascii_lower_seq(v@) == ascii_lower_seq(w@)),
{
    let wv = chars_of(w);
    if v.len() != wv.len() {
        assert(ascii_lower_seq(v@).len() != ascii_lower_seq(w@).len());
        return false;
    }
    let n = v.len();
    for i in 0..n
        invariant
            n == v@.len(),
            n == wv@.len(),
            wv@ == w@,
            forall|j: int| 0 <= j < i ==> ascii_lower(v@[j]) == ascii_lower(wv@[j]),
    {
        if to_ascii_lower(v[i]) != to_ascii_lower(wv[i]) {
            assert(ascii_lower_seq(v@)[i as int] != ascii_lower_seq(w@)[i as int]);
            return false;
        }
    }
    assert(ascii_lower_seq(v@) =~= ascii_lower_seq(w@));
    true
}

} // verus!
