use vstd::prelude::*;
use simd_normalizer::UnicodeNormalization;
use vstd::string::StringExecFns;

verus! {

/// The NFKC normal form of `s`, as `simd_normalizer` computes it.
pub uninterp spec fn nfkc_form(s: Seq<char>) -> Seq<char>;

/// `simd_normalizer`'s `UnicodeNormalization::nfkc`: the NFKC normal form of `s`.
/// The contract names the result `nfkc_form(s@)` and states one fact of it, that
/// normalization is stable (UAX #15, whose conformance the crate documents and
/// tests): the normal form of the result is the result itself. It says nothing else
/// of what the normal form is.
#[verifier::external_body]
fn nfkc_string(s: &str) -> (r: String)
    ensures
        r@ == nfkc_form(s@),
        nfkc_form(r@) == r@,
{
    s.nfkc().into_owned()
}

/// Normalizes a quote with NFKC so typographic variants (ligatures, fullwidth
/// forms, composed/decomposed accents) dedupe as the same quote text. Normalizing
/// the result again gives it back unchanged.
pub fn normalize_quote(quote: &str) -> (r: String)
    ensures
        r@ == nfkc_form(quote@),
        nfkc_form(r@) == r@,
{
    nfkc_string(quote)
}

/// The views of a sequence of (author, quote) pairs.
pub open spec fn pair_views(v: Seq<(String, String)>) -> Seq<(Seq<char>, Seq<char>)> {
    v.map_values(|p: (String, String)| (p.0@, p.1@))
}

/// The quotes whose author is one of `authors`, in their order; all quotes when
/// `authors` is empty.
pub open spec fn quotes_by_authors(
    quotes: Seq<(Seq<char>, Seq<char>)>,
    authors: Seq<Seq<char>>,
) -> Seq<(Seq<char>, Seq<char>)>
    decreases quotes.len(),
{
    if authors.len() == 0 || quotes.len() == 0 {
        quotes
    } else {
        let rest = quotes_by_authors(quotes.drop_last(), authors);
        if authors.contains(quotes.last().0) {
            rest.push(quotes.last())
        } else {
            rest
        }
    }
}

/// The quotes by the authors, in order: with an author list, exactly the quotes whose
/// author is in it (nothing dropped, nothing added, order kept); with none, all quotes.
pub proof fn lemma_quotes_by_authors_filters(
    quotes: Seq<(Seq<char>, Seq<char>)>,
    authors: Seq<Seq<char>>,
)
    ensures
        quotes_by_authors(quotes, authors) == (if authors.len() == 0 {
            quotes
        } else {
            quotes.filter(|q: (Seq<char>, Seq<char>)| authors.contains(q.0))
        }),
    decreases quotes.len(),
{
    reveal(Seq::filter);
    if authors.len() > 0 && quotes.len() > 0 {
        lemma_quotes_by_authors_filters(quotes.drop_last(), authors);
    }
    if authors.len() > 0 && quotes.len() == 0 {
        assert(quotes.filter(|q: (Seq<char>, Seq<char>)| authors.contains(q.0)) =~= quotes);
    }
}

fn clone_pair(p: &(String, String)) -> (r: (String, String))
    ensures
        r.0@ == p.0@,
        r.1@ == p.1@,
{
    (p.0.clone(), p.1.clone())
}

/// Whether `name` is one of the strings of `authors`.
pub fn contains_text(authors: &Vec<String>, name: &String) -> (b: bool)
    ensures
        b == crate::text::views(authors@).contains(name@),
{
    let n = authors.len();
    for i in 0..n
        invariant
            n == authors@.len(),
            forall|j: int| 0 <= j < i ==> authors@[j]@ != name@,
    {
        if authors[i] == *name {
            assert(crate::text::views(authors@)[i as int] == name@);
            return true;
        }
    }
    assert forall|j: int| 0 <= j < crate::text::views(authors@).len() implies crate::text::views(
        authors@,
    )[j] != name@ by {
        assert(crate::text::views(authors@)[j] == authors@[j]@);
    }
    false
}

/// Keeps the quotes written by one of `authors` (all of them when `authors` is empty).
pub fn filter_quotes_by_authors(quotes: &Vec<(String, String)>, authors: &Vec<String>) -> (r: Vec<
    (String, String),
>)
    ensures
        pair_views(r@) == quotes_by_authors(pair_views(quotes@), crate::text::views(authors@)),
{
    let ghost a = crate::text::views(authors@);
    let n = quotes.len();
    let mut r: Vec<(String, String)> = Vec::new();
    for i in 0..n
        invariant
            n == quotes@.len(),
            a == crate::text::views(authors@),
            pair_views(r@) == quotes_by_authors(pair_views(quotes@).take(i as int), a),
    {
        let ghost q = pair_views(quotes@);
        proof {
            assert(q.take(i + 1).drop_last() =~= q.take(i as int));
            assert(q.take(i + 1).last() == q[i as int]);
            if a.len() == 0 {
                assert(quotes_by_authors(q.take(i + 1), a) == q.take(i + 1));
                assert(quotes_by_authors(q.take(i as int), a) == q.take(i as int));
            }
        }
        let ghost prev = r@;
        if authors.len() == 0 || contains_text(authors, &quotes[i].0) {
            let p = clone_pair(&quotes[i]);
            r.push(p);
            assert(pair_views(r@) =~= pair_views(prev).push(q[i as int]));
            assert(q.take(i + 1) =~= q.take(i as int).push(q[i as int]));
        } else {
            assert(pair_views(r@) == pair_views(prev));
        }
    }
    assert(pair_views(quotes@).take(n as int) =~= pair_views(quotes@));
    r
}

/// `fastrand::choice` over the pairs of `items`: `None` exactly when `items` is empty,
/// else one of its pairs, picked at random.
#[verifier::external_body]
fn random_pair(items: &Vec<(String, String)>) -> (r: Option<(String, String)>)
    ensures
        r is None <==> items@.len() == 0,
        r matches Some(p) ==> pair_views(items@).contains((p.0@, p.1@)),
{
    fastrand::choice(items.iter()).cloned()
}

/// A random cached quote by one of `authors` (by anyone when `authors` is empty), or
/// `None` when there is no such quote.
pub fn get_random_cached_quote(cached: &Vec<(String, String)>, authors: &Vec<String>) -> (r:
    Option<(String, String)>)
    ensures
        r is None <==> quotes_by_authors(pair_views(cached@), crate::text::views(authors@)).len()
            == 0,
        r matches Some(p) ==> quotes_by_authors(
            pair_views(cached@),
            crate::text::views(authors@),
        ).contains((p.0@, p.1@)),
{
    if cached.len() == 0 {
        proof {
            assert(pair_views(cached@).len() == 0);
        }
        return None;
    }
    let filtered = filter_quotes_by_authors(cached, authors);
    if filtered.len() == 0 {
        return None;
    }
    random_pair(&filtered)
}

/// After the quotes `qs` of one author: the normalized quotes seen so far, and
/// those seen for the first time, in order.
pub open spec fn dedupe_fold(seen: Seq<Seq<char>>, qs: Seq<Seq<char>>) -> (Seq<Seq<char>>, Seq<Seq<char>>)
    decreases qs.len(),
{
    if qs.len() == 0 {
        (seen, Seq::empty())
    } else {
        let (s, fresh) = dedupe_fold(seen, qs.drop_last());
        let n = nfkc_form(qs.last());
        if s.contains(n) {
            (s, fresh)
        } else {
            (s.push(n), fresh.push(n))
        }
    }
}

/// Within a caching run no quote is stored twice: `seen` grows by exactly the fresh
/// quotes, which are new to it and distinct, so it keeps holding each quote once; and
/// every quote of `qs`, normalized, is then in `seen`.
pub proof fn lemma_dedupe_stores_each_quote_once(seen: Seq<Seq<char>>, qs: Seq<Seq<char>>)
    requires
        seen.no_duplicates(),
    ensures
        dedupe_fold(seen, qs).0 == seen + dedupe_fold(seen, qs).1,
        dedupe_fold(seen, qs).0.no_duplicates(),
        dedupe_fold(seen, qs).1.no_duplicates(),
        forall|i: int|
            0 <= i < dedupe_fold(seen, qs).1.len() ==> !seen.contains(
                #[trigger] dedupe_fold(seen, qs).1[i],
            ),
        forall|i: int| 0 <= i < qs.len() ==> dedupe_fold(seen, qs).0.contains(nfkc_form(#[trigger] qs[i])),
    decreases qs.len(),
{
    if qs.len() == 0 {
        assert(seen + Seq::<Seq<char>>::empty() =~= seen);
    } else {
        let prev = qs.drop_last();
        lemma_dedupe_stores_each_quote_once(seen, prev);
        let (s, f) = dedupe_fold(seen, prev);
        let n = nfkc_form(qs.last());
        assert forall|i: int| 0 <= i < prev.len() implies s.contains(nfkc_form(#[trigger] qs[i])) by {
            assert(qs[i] == prev[i]);
        }
        if !s.contains(n) {
            assert(s.push(n) =~= seen + f.push(n));
            assert forall|i: int| 0 <= i < f.push(n).len() implies !seen.contains(
                #[trigger] f.push(n)[i],
            ) by {
                if i == f.len() {
                    if seen.contains(n) {
                        let j = choose|j: int| 0 <= j < seen.len() && seen[j] == n;
                        assert(s[j] == n);
                    }
                }
            }
            assert forall|i: int, j: int|
                0 <= i < f.push(n).len() && 0 <= j < f.push(n).len() && i != j implies f.push(n)[i]
                != f.push(n)[j] by {
                if i == f.len() {
                    assert(s[seen.len() + j] == f[j]);
                } else if j == f.len() {
                    assert(s[seen.len() + i] == f[i]);
                } else {
                    assert(s[seen.len() + i] == f[i]);
                    assert(s[seen.len() + j] == f[j]);
                }
            }
            assert(s.push(n).contains(n)) by {
                assert(s.push(n)[s.len() as int] == n);
            }
            assert forall|i: int| 0 <= i < qs.len() implies s.push(n).contains(
                nfkc_form(#[trigger] qs[i]),
            ) by {
                if i < prev.len() {
                    assert(s.contains(nfkc_form(qs[i])));
                    let j = choose|j: int| 0 <= j < s.len() && s[j] == nfkc_form(qs[i]);
                    assert(s.push(n)[j] == nfkc_form(qs[i]));
                }
            }
        }
    }
}

/// Normalizes `quotes` and keeps those not yet in `seen`, each once, adding them to
/// `seen`.
pub fn unseen_normalized(seen: &mut Vec<String>, quotes: &Vec<String>) -> (fresh: Vec<String>)
    ensures
        (crate::text::views(final(seen)@), crate::text::views(fresh@)) == dedupe_fold(
            crate::text::views(old(seen)@),
            crate::text::views(quotes@),
        ),
{
    let ghost qs = crate::text::views(quotes@);
    let ghost s0 = crate::text::views(seen@);
    let n = quotes.len();
    let mut fresh: Vec<String> = Vec::new();
    for i in 0..n
        invariant
            n == quotes@.len(),
            qs == crate::text::views(quotes@),
            (crate::text::views(seen@), crate::text::views(fresh@)) == dedupe_fold(s0, qs.take(i as int)),
    {
        assert(qs.take(i + 1).drop_last() =~= qs.take(i as int));
        assert(qs.take(i + 1).last() == quotes@[i as int]@);
        let normalized = normalize_quote(quotes[i].as_str());
        if !contains_text(seen, &normalized) {
            let ghost ps = seen@;
            let ghost pf = fresh@;
            seen.push(normalized.clone());
            fresh.push(normalized);
            assert(crate::text::views(seen@) =~= crate::text::views(ps).push(nfkc_form(qs[i as int])));
            assert(crate::text::views(fresh@) =~= crate::text::views(pf).push(nfkc_form(qs[i as int])));
        }
    }
    assert(qs.take(n as int) =~= qs);
    fresh
}

/// The views of database rows `(id, quote)`.
pub open spec fn row_views(rows: Seq<(i64, String)>) -> Seq<(i64, Seq<char>)> {
    rows.map_values(|r: (i64, String)| (r.0, r.1@))
}

/// The NFKC forms of the quotes of `rows`.
pub open spec fn row_norms(rows: Seq<(i64, Seq<char>)>) -> Seq<Seq<char>> {
    rows.map_values(|r: (i64, Seq<char>)| nfkc_form(r.1))
}

/// The lowest id among the first `k` rows whose quote normalizes to `x` (`None`
/// when there is no such row).
pub open spec fn group_min_id(rows: Seq<(i64, Seq<char>)>, x: Seq<char>, k: int) -> Option<i64>
    decreases k,
{
    if k <= 0 {
        None
    } else {
        let prev = group_min_id(rows, x, k - 1);
        if nfkc_form(rows[k - 1].1) == x {
            match prev {
                Some(m) => if m <= rows[k - 1].0 {
                    Some(m)
                } else {
                    Some(rows[k - 1].0)
                },
                None => Some(rows[k - 1].0),
            }
        } else {
            prev
        }
    }
}

/// The lowest id of the rows whose quote normalizes like row `i`'s.
pub open spec fn lowest_id(rows: Seq<(i64, Seq<char>)>, i: int) -> i64 {
    match group_min_id(rows, row_norms(rows)[i], rows.len() as int) {
        Some(m) => m,
        None => rows[i].0,
    }
}

/// Whether row `i` is not the row with the lowest id among those whose quote
/// normalizes like its own.
pub open spec fn not_lowest(rows: Seq<(i64, Seq<char>)>, i: int) -> bool {
    rows[i].0 != lowest_id(rows, i)
}

/// The ids, in order, of the first `k` rows that are not the lowest-id row of their
/// group of quotes that normalize alike: of each group, the row with the lowest id
/// is kept, whatever order the rows come in.
pub open spec fn rows_to_delete(rows: Seq<(i64, Seq<char>)>, k: int) -> Seq<i64>
    decreases k,
{
    if k <= 0 {
        Seq::empty()
    } else {
        let prev = rows_to_delete(rows, k - 1);
        if not_lowest(rows, k - 1) {
            prev.push(rows[k - 1].0)
        } else {
            prev
        }
    }
}

/// For the first `k` rows whose quote is not in NFKC form, the id and the normalized
/// quote.
pub open spec fn rows_to_update(rows: Seq<(i64, Seq<char>)>, k: int) -> Seq<(i64, Seq<char>)>
    decreases k,
{
    if k <= 0 {
        Seq::empty()
    } else {
        let prev = rows_to_update(rows, k - 1);
        if nfkc_form(rows[k - 1].1) != rows[k - 1].1 {
            prev.push((rows[k - 1].0, nfkc_form(rows[k - 1].1)))
        } else {
            prev
        }
    }
}

proof fn lemma_group_min(rows: Seq<(i64, Seq<char>)>, x: Seq<char>, k: int)
    requires
        0 <= k <= rows.len(),
    ensures
        group_min_id(rows, x, k) is Some <==> exists|j: int|
            0 <= j < k && #[trigger] row_norms(rows)[j] == x,
        group_min_id(rows, x, k) matches Some(m) ==> exists|j: int|
            0 <= j < k && #[trigger] row_norms(rows)[j] == x && rows[j].0 == m,
        forall|j: int|
            0 <= j < k && #[trigger] row_norms(rows)[j] == x ==> (group_min_id(rows, x, k) matches Some(
                m,
            ) && m <= rows[j].0),
    decreases k,
{
    if k > 0 {
        lemma_group_min(rows, x, k - 1);
        assert(row_norms(rows)[k - 1] == nfkc_form(rows[k - 1].1));
    }
}

/// Whether normalizing the normal form of each row's quote gives it back unchanged.
pub open spec fn stable_norms(rows: Seq<(i64, Seq<char>)>) -> bool {
    forall|i: int| 0 <= i < rows.len() ==> nfkc_form(#[trigger] nfkc_form(rows[i].1)) == nfkc_form(rows[i].1)
}

/// The ids of rows to delete so that no two rows have quotes that are equal after
/// NFKC normalization: of each such group the row with the lowest id stays.
pub fn cache_rows_to_delete(rows: &Vec<(i64, String)>) -> (r: Vec<i64>)
    ensures
        r@ == rows_to_delete(row_views(rows@), rows@.len() as int),
        stable_norms(row_views(rows@)),
{
    let ghost rv = row_views(rows@);
    let n = rows.len();
    let mut norms: Vec<String> = Vec::new();
    for i in 0..n
        invariant
            n == rows@.len(),
            rv == row_views(rows@),
            norms@.len() == i,
            forall|j: int| 0 <= j < i ==> #[trigger] norms@[j]@ == row_norms(rv)[j],
            forall|j: int| 0 <= j < i ==> nfkc_form(#[trigger] nfkc_form(rv[j].1)) == nfkc_form(rv[j].1),
    {
        let s = normalize_quote(rows[i].1.as_str());
        assert(rv[i as int].1 == rows@[i as int].1@);
        norms.push(s);
    }
    let mut r: Vec<i64> = Vec::new();
    for i in 0..n
        invariant
            n == rows@.len(),
            rv == row_views(rows@),
            norms@.len() == n,
            forall|j: int| 0 <= j < n ==> #[trigger] norms@[j]@ == row_norms(rv)[j],
            forall|j: int| 0 <= j < n ==> nfkc_form(#[trigger] nfkc_form(rv[j].1)) == nfkc_form(rv[j].1),
            r@ == rows_to_delete(rv, i as int),
    {
        let ghost ns = row_norms(rv);
        let mut m: Option<i64> = None;
        for j in 0..n
            invariant
                n == rows@.len(),
                rv == row_views(rows@),
                0 <= i < n,
                ns == row_norms(rv),
                norms@.len() == n,
                forall|k: int| 0 <= k < n ==> #[trigger] norms@[k]@ == ns[k],
                m == group_min_id(rv, ns[i as int], j as int),
        {
            assert(norms@[j as int]@ == ns[j as int]);
            assert(ns[j as int] == nfkc_form(rv[j as int].1));
            if norms[j] == norms[i] {
                let id = rows[j].0;
                m = match m {
                    Some(x) => if x <= id {
                        Some(x)
                    } else {
                        Some(id)
                    },
                    None => Some(id),
                };
            }
        }
        proof {
            lemma_group_min(rv, ns[i as int], n as int);
        }
        let low = match m {
            Some(x) => x,
            None => rows[i].0,
        };
        if rows[i].0 != low {
            r.push(rows[i].0);
        }
    }
    r
}

/// For the rows whose quote is not in NFKC form, the id and the normalized quote.
pub fn cache_rows_to_update(rows: &Vec<(i64, String)>) -> (r: Vec<(i64, String)>)
    ensures
        row_views(r@) == rows_to_update(row_views(rows@), rows@.len() as int),
{
    let ghost rv = row_views(rows@);
    let n = rows.len();
    let mut r: Vec<(i64, String)> = Vec::new();
    for i in 0..n
        invariant
            n == rows@.len(),
            rv == row_views(rows@),
            row_views(r@) == rows_to_update(rv, i as int),
    {
        let normalized = normalize_quote(rows[i].1.as_str());
        if normalized != rows[i].1 {
            let ghost prev = r@;
            r.push((rows[i].0, normalized));
            assert(row_views(r@) =~= row_views(prev).push((rv[i as int].0, nfkc_form(rv[i as int].1))));
        }
    }
    r
}

/// Whether row `i` stays after the rows of `rows_to_delete` are deleted.
pub open spec fn survives(rows: Seq<(i64, Seq<char>)>, i: int) -> bool {
    !rows_to_delete(rows, rows.len() as int).contains(rows[i].0)
}

proof fn lemma_delete_members(rows: Seq<(i64, Seq<char>)>, k: int)
    requires
        0 <= k <= rows.len(),
    ensures
        forall|x: i64|
            rows_to_delete(rows, k).contains(x) <==> exists|i: int|
                #![trigger not_lowest(rows, i)]
                0 <= i < k && rows[i].0 == x && not_lowest(rows, i),
    decreases k,
{
    if k > 0 {
        lemma_delete_members(rows, k - 1);
        let prev = rows_to_delete(rows, k - 1);
        let cur = rows_to_delete(rows, k);
        assert forall|x: i64|
            cur.contains(x) <==> exists|i: int|
                #![trigger not_lowest(rows, i)]
                0 <= i < k && rows[i].0 == x && not_lowest(rows, i) by {
            if cur.contains(x) {
                let m = choose|m: int| 0 <= m < cur.len() && cur[m] == x;
                if not_lowest(rows, k - 1) && m == prev.len() {
                    assert(0 <= k - 1 < k && rows[k - 1].0 == x && not_lowest(rows, k - 1));
                } else {
                    assert(prev[m] == x);
                    assert(prev.contains(x));
                    let i = choose|i: int|
                        #![trigger not_lowest(rows, i)]
                        0 <= i < k - 1 && rows[i].0 == x && not_lowest(rows, i);
                    assert(0 <= i < k && rows[i].0 == x && not_lowest(rows, i));
                }
            }
            if exists|i: int|
                #![trigger not_lowest(rows, i)]
                0 <= i < k && rows[i].0 == x && not_lowest(rows, i) {
                let i = choose|i: int|
                    #![trigger not_lowest(rows, i)]
                    0 <= i < k && rows[i].0 == x && not_lowest(rows, i);
                if i == k - 1 {
                    assert(cur[prev.len() as int] == x);
                } else {
                    assert(0 <= i < k - 1 && rows[i].0 == x && not_lowest(rows, i));
                    assert(prev.contains(x));
                    let m = choose|m: int| 0 <= m < prev.len() && prev[m] == x;
                    assert(cur[m] == x);
                }
            }
        }
    }
}

/// Facts about the lowest id of row `i`'s group.
proof fn lemma_lowest_id(rows: Seq<(i64, Seq<char>)>, i: int)
    requires
        0 <= i < rows.len(),
    ensures
        exists|g: int|
            0 <= g < rows.len() && #[trigger] row_norms(rows)[g] == row_norms(rows)[i] && rows[g].0
                == lowest_id(rows, i),
        forall|j: int|
            0 <= j < rows.len() && #[trigger] row_norms(rows)[j] == row_norms(rows)[i]
                ==> lowest_id(rows, i) <= rows[j].0,
        forall|j: int|
            0 <= j < rows.len() && #[trigger] row_norms(rows)[j] == row_norms(rows)[i]
                ==> lowest_id(rows, j) == lowest_id(rows, i),
{
    let n = rows.len() as int;
    lemma_group_min(rows, row_norms(rows)[i], n);
    assert(row_norms(rows)[i] == row_norms(rows)[i]);
}

/// The rows that stay hold, of each group of quotes that normalize alike, the lowest
/// id: a row stays only if no row of its group has a lower id, whatever order the
/// rows are read in.
pub proof fn lemma_cache_migration_keeps_lowest_id(rows: Seq<(i64, Seq<char>)>)
    ensures
        forall|i: int, j: int|
            0 <= i < rows.len() && 0 <= j < rows.len() && survives(rows, i) && row_norms(rows)[i]
                == row_norms(rows)[j] ==> rows[i].0 <= rows[j].0,
{
    let n = rows.len() as int;
    lemma_delete_members(rows, n);
    assert forall|i: int, j: int|
        0 <= i < rows.len() && 0 <= j < rows.len() && survives(rows, i) && row_norms(rows)[i]
            == row_norms(rows)[j] implies rows[i].0 <= rows[j].0 by {
        lemma_lowest_id(rows, i);
        if not_lowest(rows, i) {
            assert(rows_to_delete(rows, n).contains(rows[i].0));
        }
    }
}

/// The update list holds exactly the rows whose quote is not in NFKC form, each with
/// its id and its normalized quote, in row order: every such row is in it, and
/// nothing else is.
pub proof fn lemma_rows_to_update_exact(rows: Seq<(i64, Seq<char>)>, k: int)
    requires
        0 <= k <= rows.len(),
    ensures
        forall|i: int|
            0 <= i < k && nfkc_form(#[trigger] rows[i].1) != rows[i].1 ==> rows_to_update(rows, k).contains(
                (rows[i].0, nfkc_form(rows[i].1)),
            ),
        forall|x: (i64, Seq<char>)|
            #[trigger] rows_to_update(rows, k).contains(x) ==> exists|i: int|
                0 <= i < k && nfkc_form(rows[i].1) != rows[i].1 && x == (rows[i].0, #[trigger] nfkc_form(
                    rows[i].1,
                )),
    decreases k,
{
    if k > 0 {
        lemma_rows_to_update_exact(rows, k - 1);
        let prev = rows_to_update(rows, k - 1);
        let cur = rows_to_update(rows, k);
        assert forall|i: int|
            0 <= i < k && nfkc_form(#[trigger] rows[i].1) != rows[i].1 implies cur.contains(
            (rows[i].0, nfkc_form(rows[i].1)),
        ) by {
            if i == k - 1 {
                assert(cur[cur.len() - 1] == (rows[i].0, nfkc_form(rows[i].1)));
            } else {
                let m = choose|m: int| 0 <= m < prev.len() && prev[m] == (rows[i].0, nfkc_form(rows[i].1));
                assert(cur[m] == prev[m]);
            }
        }
        assert forall|x: (i64, Seq<char>)| #[trigger] cur.contains(x) implies exists|i: int|
            0 <= i < k && nfkc_form(rows[i].1) != rows[i].1 && x == (rows[i].0, #[trigger] nfkc_form(
                rows[i].1,
            )) by {
            let m = choose|m: int| 0 <= m < cur.len() && cur[m] == x;
            if m < prev.len() {
                assert(prev[m] == x);
                assert(prev.contains(x));
            } else {
                assert(x == (rows[k - 1].0, nfkc_form(rows[k - 1].1)));
            }
        }
    }
}

/// Whether the rows' ids are pairwise distinct.
pub open spec fn distinct_ids(rows: Seq<(i64, Seq<char>)>) -> bool {
    forall|i: int, j: int| 0 <= i < j < rows.len() ==> rows[i].0 != rows[j].0
}

/// The row of row `i`'s group that has the lowest id.
pub open spec fn lowest_row(rows: Seq<(i64, Seq<char>)>, i: int) -> int {
    choose|g: int|
        0 <= g < rows.len() && #[trigger] row_norms(rows)[g] == row_norms(rows)[i] && rows[g].0
            == lowest_id(rows, i)
}

/// Deleting `rows_to_delete` collapses the rows whose quotes normalize alike: when the
/// ids are distinct, no two remaining rows share a normalized quote, and every row's
/// normalized quote is still held by a remaining row: the one with the lowest id of
/// its group.
pub proof fn lemma_cache_migration_collapses_duplicates(rows: Seq<(i64, Seq<char>)>)
    requires
        distinct_ids(rows),
    ensures
        forall|i: int, j: int|
            0 <= i < rows.len() && 0 <= j < rows.len() && i != j && survives(rows, i) && survives(
                rows,
                j,
            ) ==> row_norms(rows)[i] != row_norms(rows)[j],
        forall|i: int|
            #![trigger lowest_row(rows, i)]
            0 <= i < rows.len() ==> 0 <= lowest_row(rows, i) < rows.len() && survives(
                rows,
                lowest_row(rows, i),
            ) && row_norms(rows)[lowest_row(rows, i)] == row_norms(rows)[i] && forall|j: int|
                0 <= j < rows.len() && #[trigger] row_norms(rows)[j] == row_norms(rows)[i]
                    ==> rows[lowest_row(rows, i)].0 <= rows[j].0,
{
    let ns = row_norms(rows);
    let n = rows.len() as int;
    lemma_delete_members(rows, n);
    lemma_cache_migration_keeps_lowest_id(rows);
    assert forall|i: int, j: int|
        0 <= i < n && 0 <= j < n && i != j && survives(rows, i) && survives(rows, j) implies ns[i]
        != ns[j] by {
        if ns[i] == ns[j] {
            assert(rows[i].0 <= rows[j].0);
            assert(rows[j].0 <= rows[i].0);
            if i < j {
                assert(rows[i].0 != rows[j].0);
            } else {
                assert(rows[j].0 != rows[i].0);
            }
        }
    }
    assert forall|i: int| #![trigger lowest_row(rows, i)] 0 <= i < rows.len() implies 0
        <= lowest_row(rows, i) < rows.len() && survives(rows, lowest_row(rows, i)) && row_norms(
        rows,
    )[lowest_row(rows, i)] == row_norms(rows)[i] && forall|j: int|
        0 <= j < rows.len() && #[trigger] row_norms(rows)[j] == row_norms(rows)[i]
            ==> rows[lowest_row(rows, i)].0 <= rows[j].0 by {
        lemma_lowest_id(rows, i);
        let g = lowest_row(rows, i);
        lemma_lowest_id(rows, g);
        assert(lowest_id(rows, g) == lowest_id(rows, i));
        if rows_to_delete(rows, n).contains(rows[g].0) {
            let k = choose|k: int|
                #![trigger not_lowest(rows, k)]
                0 <= k < n && rows[k].0 == rows[g].0 && not_lowest(rows, k);
            if k != g {
                if k < g {
                    assert(rows[k].0 != rows[g].0);
                } else {
                    assert(rows[g].0 != rows[k].0);
                }
            }
        }
    }
}

/// The rows that the first `k` rows leave after the migration: those that stay, in
/// order, each with its quote in NFKC form.
pub open spec fn migrated_upto(rows: Seq<(i64, Seq<char>)>, k: int) -> Seq<(i64, Seq<char>)>
    decreases k,
{
    if k <= 0 {
        Seq::empty()
    } else {
        let prev = migrated_upto(rows, k - 1);
        if survives(rows, k - 1) {
            prev.push((rows[k - 1].0, nfkc_form(rows[k - 1].1)))
        } else {
            prev
        }
    }
}

/// The rows the migration leaves: the deleted rows gone, the others with their
/// quotes in NFKC form.
pub open spec fn migrated_rows(rows: Seq<(i64, Seq<char>)>) -> Seq<(i64, Seq<char>)> {
    migrated_upto(rows, rows.len() as int)
}

proof fn lemma_migrated_members(rows: Seq<(i64, Seq<char>)>, k: int)
    requires
        0 <= k <= rows.len(),
    ensures
        forall|x: (i64, Seq<char>)|
            #[trigger] migrated_upto(rows, k).contains(x) ==> exists|a: int|
                0 <= a < k && survives(rows, a) && x == (rows[a].0, #[trigger] nfkc_form(rows[a].1)),
    decreases k,
{
    if k > 0 {
        lemma_migrated_members(rows, k - 1);
        let prev = migrated_upto(rows, k - 1);
        assert forall|x: (i64, Seq<char>)| #[trigger] migrated_upto(rows, k).contains(x) implies exists|a: int|
            0 <= a < k && survives(rows, a) && x == (rows[a].0, #[trigger] nfkc_form(rows[a].1)) by {
            let cur = migrated_upto(rows, k);
            let m = choose|m: int| 0 <= m < cur.len() && cur[m] == x;
            if survives(rows, k - 1) && m == prev.len() {
                assert(x == (rows[k - 1].0, nfkc_form(rows[k - 1].1)));
            } else {
                assert(prev[m] == x);
                assert(prev.contains(x));
            }
        }
    }
}

/// Rows whose normalized quotes are pairwise distinct are each the lowest-id row of
/// their group, so none is deleted.
proof fn lemma_distinct_norms_keep_all(rows: Seq<(i64, Seq<char>)>, k: int)
    requires
        0 <= k <= rows.len(),
        forall|i: int, j: int|
            0 <= i < rows.len() && 0 <= j < rows.len() && i != j ==> row_norms(rows)[i] != row_norms(
                rows,
            )[j],
    ensures
        rows_to_delete(rows, k) == Seq::<i64>::empty(),
    decreases k,
{
    if k > 0 {
        lemma_distinct_norms_keep_all(rows, k - 1);
        let i = k - 1;
        lemma_lowest_id(rows, i);
        let g = choose|g: int|
            0 <= g < rows.len() && #[trigger] row_norms(rows)[g] == row_norms(rows)[i] && rows[g].0
                == lowest_id(rows, i);
        assert(g == i);
    }
}

proof fn lemma_normal_rows_need_no_update(rows: Seq<(i64, Seq<char>)>, k: int)
    requires
        0 <= k <= rows.len(),
        forall|i: int| 0 <= i < rows.len() ==> #[trigger] nfkc_form(rows[i].1) == rows[i].1,
    ensures
        rows_to_update(rows, k) == Seq::<(i64, Seq<char>)>::empty(),
    decreases k,
{
    if k > 0 {
        lemma_normal_rows_need_no_update(rows, k - 1);
        assert(nfkc_form(rows[k - 1].1) == rows[k - 1].1);
    }
}

proof fn lemma_migrated_distinct(rows: Seq<(i64, Seq<char>)>, k: int)
    requires
        distinct_ids(rows),
        0 <= k <= rows.len(),
    ensures
        forall|i: int, j: int|
            0 <= i < migrated_upto(rows, k).len() && 0 <= j < migrated_upto(rows, k).len() && i != j
                ==> (#[trigger] migrated_upto(rows, k)[i]).1 != (#[trigger] migrated_upto(rows, k)[j]).1,
    decreases k,
{
    if k > 0 {
        lemma_migrated_distinct(rows, k - 1);
        lemma_migrated_members(rows, k - 1);
        lemma_cache_migration_collapses_duplicates(rows);
        let prev = migrated_upto(rows, k - 1);
        let cur = migrated_upto(rows, k);
        if survives(rows, k - 1) {
            assert forall|i: int, j: int|
                0 <= i < cur.len() && 0 <= j < cur.len() && i != j implies (#[trigger] cur[i]).1
                != (#[trigger] cur[j]).1 by {
                if i < prev.len() && j < prev.len() {
                    assert(cur[i] == prev[i] && cur[j] == prev[j]);
                } else {
                    let o = if i < prev.len() { i } else { j };
                    assert(cur[o] == prev[o]);
                    assert(prev.contains(prev[o]));
                    let a = choose|a: int|
                        0 <= a < k - 1 && survives(rows, a) && prev[o] == (rows[a].0, #[trigger] nfkc_form(
                            rows[a].1,
                        ));
                    assert(row_norms(rows)[a] != row_norms(rows)[k - 1]);
                }
            }
        }
    }
}

proof fn lemma_migrated_contains(rows: Seq<(i64, Seq<char>)>, g: int, k: int)
    requires
        0 <= g < k <= rows.len(),
        survives(rows, g),
    ensures
        migrated_upto(rows, k).contains((rows[g].0, nfkc_form(rows[g].1))),
    decreases k,
{
    let x = (rows[g].0, nfkc_form(rows[g].1));
    if k - 1 == g {
        let cur = migrated_upto(rows, k);
        assert(cur[cur.len() - 1] == x);
    } else {
        lemma_migrated_contains(rows, g, k - 1);
        let prev = migrated_upto(rows, k - 1);
        let m = choose|m: int| 0 <= m < prev.len() && prev[m] == x;
        assert(migrated_upto(rows, k)[m] == x);
    }
}

/// What the migration leaves: every remaining quote is in NFKC form, no two remaining
/// quotes are equal, each row's normal form remains, held by the lowest-id row of its
/// group, and every remaining row is such a lowest-id row with its quote normalized.
/// (It assumes the ids are distinct and the normal forms stable, as
/// `cache_rows_to_delete` ensures of the rows it is given.)
pub proof fn lemma_migration_result(rows: Seq<(i64, Seq<char>)>)
    requires
        distinct_ids(rows),
        stable_norms(rows),
    ensures
        forall|i: int|
            0 <= i < migrated_rows(rows).len() ==> nfkc_form((#[trigger] migrated_rows(rows)[i]).1)
                == migrated_rows(rows)[i].1,
        forall|i: int, j: int|
            0 <= i < migrated_rows(rows).len() && 0 <= j < migrated_rows(rows).len() && i != j
                ==> (#[trigger] migrated_rows(rows)[i]).1 != (#[trigger] migrated_rows(rows)[j]).1,
        forall|i: int|
            0 <= i < rows.len() ==> migrated_rows(rows).contains(
                (rows[#[trigger] lowest_row(rows, i)].0, nfkc_form(rows[i].1)),
            ),
        forall|x: (i64, Seq<char>)|
            #[trigger] migrated_rows(rows).contains(x) ==> exists|a: int|
                0 <= a < rows.len() && survives(rows, a) && x == (rows[a].0, #[trigger] nfkc_form(rows[a].1))
                    && forall|j: int|
                    0 <= j < rows.len() && row_norms(rows)[j] == row_norms(rows)[a] ==> rows[a].0
                        <= rows[j].0,
{
    let n = rows.len() as int;
    let m = migrated_rows(rows);
    lemma_migrated_members(rows, n);
    lemma_migrated_distinct(rows, n);
    lemma_cache_migration_collapses_duplicates(rows);
    lemma_cache_migration_keeps_lowest_id(rows);
    assert forall|i: int| 0 <= i < m.len() implies nfkc_form((#[trigger] m[i]).1) == m[i].1 by {
        assert(m.contains(m[i]));
        let a = choose|a: int|
            0 <= a < n && survives(rows, a) && m[i] == (rows[a].0, #[trigger] nfkc_form(rows[a].1));
        assert(nfkc_form(nfkc_form(rows[a].1)) == nfkc_form(rows[a].1));
    }
    assert forall|i: int| 0 <= i < rows.len() implies m.contains(
        (rows[#[trigger] lowest_row(rows, i)].0, nfkc_form(rows[i].1)),
    ) by {
        let g = lowest_row(rows, i);
        lemma_migrated_contains(rows, g, n);
        assert(row_norms(rows)[g] == nfkc_form(rows[g].1));
        assert(row_norms(rows)[i] == nfkc_form(rows[i].1));
    }
    assert forall|x: (i64, Seq<char>)| #[trigger] m.contains(x) implies exists|a: int|
        0 <= a < rows.len() && survives(rows, a) && x == (rows[a].0, #[trigger] nfkc_form(rows[a].1))
            && forall|j: int|
            0 <= j < rows.len() && row_norms(rows)[j] == row_norms(rows)[a] ==> rows[a].0 <= rows[j].0 by {
        let a = choose|a: int|
            0 <= a < n && survives(rows, a) && x == (rows[a].0, #[trigger] nfkc_form(rows[a].1));
        assert forall|j: int|
            0 <= j < rows.len() && row_norms(rows)[j] == row_norms(rows)[a] implies rows[a].0
            <= rows[j].0 by {
            assert(row_norms(rows)[a] == row_norms(rows)[j]);
        }
    }
}

/// A second migration changes nothing: when NFKC normalization leaves the normalized
/// quotes of `rows` as they are (as `cache_rows_to_delete` ensures of the rows it is
/// given), and `again` holds the rows that the migration left
/// (each once, in any order), it deletes and updates no row.
pub proof fn lemma_second_migration_changes_nothing(
    rows: Seq<(i64, Seq<char>)>,
    again: Seq<(i64, Seq<char>)>,
)
    requires
        distinct_ids(rows),
        stable_norms(rows),
        again.no_duplicates(),
        forall|i: int| 0 <= i < again.len() ==> migrated_rows(rows).contains(#[trigger] again[i]),
    ensures
        rows_to_delete(again, again.len() as int) == Seq::<i64>::empty(),
        rows_to_update(again, again.len() as int) == Seq::<(i64, Seq<char>)>::empty(),
{
    let n = rows.len() as int;
    lemma_migrated_members(rows, n);
    lemma_cache_migration_collapses_duplicates(rows);
    assert forall|i: int| 0 <= i < again.len() implies #[trigger] nfkc_form(again[i].1)
        == again[i].1 by {
        assert(migrated_upto(rows, n).contains(again[i]));
        let a = choose|a: int|
            0 <= a < n && survives(rows, a) && again[i] == (rows[a].0, #[trigger] nfkc_form(
                rows[a].1,
            ));
        assert(nfkc_form(nfkc_form(rows[a].1)) == nfkc_form(rows[a].1));
    }
    assert forall|i: int, j: int|
        0 <= i < again.len() && 0 <= j < again.len() && i != j implies row_norms(again)[i]
        != row_norms(again)[j] by {
        assert(migrated_upto(rows, n).contains(again[i]));
        assert(migrated_upto(rows, n).contains(again[j]));
        let a = choose|a: int|
            0 <= a < n && survives(rows, a) && again[i] == (rows[a].0, #[trigger] nfkc_form(
                rows[a].1,
            ));
        let b = choose|b: int|
            0 <= b < n && survives(rows, b) && again[j] == (rows[b].0, #[trigger] nfkc_form(
                rows[b].1,
            ));
        assert(again[i] != again[j]);
        assert(a != b);
        assert(row_norms(rows)[a] != row_norms(rows)[b]);
        assert(nfkc_form(again[i].1) == again[i].1);
        assert(nfkc_form(again[j].1) == again[j].1);
    }
    lemma_distinct_norms_keep_all(again, again.len() as int);
    lemma_normal_rows_need_no_update(again, again.len() as int);
}

/// The counts of a caching run: quotes newly stored, quotes the cache already held,
/// and inserts that failed.
#[derive(Clone, Copy, Debug, PartialEq, Eq, Structural)]
pub struct CacheTally {
    pub cached: usize,
    pub duplicates: usize,
    pub failed: usize,
}

impl CacheTally {
    /// No insert counted yet.
    pub fn new() -> (t: CacheTally)
        ensures
            t == (CacheTally { cached: 0, duplicates: 0, failed: 0 }),
    {
        CacheTally { cached: 0, duplicates: 0, failed: 0 }
    }

    /// Counts one insert of a quote: `Some(rows)` where it ran and changed `rows` rows
    /// (none means the cache held the quote already), `None` where it failed.
    pub fn record(&mut self, outcome: Option<usize>)
        requires
            match outcome {
                Some(rows) => if rows > 0 {
                    old(self).cached < usize::MAX
                } else {
                    old(self).duplicates < usize::MAX
                },
                None => old(self).failed < usize::MAX,
            },
        ensures
            *final(self) == (match outcome {
                Some(rows) => if rows > 0 {
                    CacheTally { cached: (old(self).cached + 1) as usize, ..*old(self) }
                } else {
                    CacheTally { duplicates: (old(self).duplicates + 1) as usize, ..*old(self) }
                },
                None => CacheTally { failed: (old(self).failed + 1) as usize, ..*old(self) },
            }),
    {
        match outcome {
            Some(rows) => {
                if rows > 0 {
                    self.cached = self.cached + 1;
                } else {
                    self.duplicates = self.duplicates + 1;
                }
            },
            None => {
                self.failed = self.failed + 1;
            },
        }
    }

    /// Adds the counts of `other` to these.
    pub fn add(&mut self, other: &CacheTally)
        requires
            old(self).cached + other.cached <= usize::MAX,
            old(self).duplicates + other.duplicates <= usize::MAX,
            old(self).failed + other.failed <= usize::MAX,
        ensures
            final(self).cached == old(self).cached + other.cached,
            final(self).duplicates == old(self).duplicates + other.duplicates,
            final(self).failed == old(self).failed + other.failed,
    {
        self.cached = self.cached + other.cached;
        self.duplicates = self.duplicates + other.duplicates;
        self.failed = self.failed + other.failed;
    }
}

/// Why a caching run cannot start.
#[derive(Clone, Copy, Debug, PartialEq, Eq, Structural)]
pub enum CacheRunError {
    /// No author is configured, so there is nothing to fetch.
    NoAuthors,
}

impl CacheRunError {
    /// The message shown for this error.
    pub fn message(&self) -> (m: String)
        ensures
            m@ == "No authors configured for caching."@,
    {
        String::from_str("No authors configured for caching.")
    }
}

/// Checks that a caching run has authors to fetch: an error exactly when the list
/// is empty.
pub fn check_caching_authors(authors: &Vec<String>) -> (r: Result<(), CacheRunError>)
    ensures
        r == (if authors@.len() == 0 {
            Err::<(), CacheRunError>(CacheRunError::NoAuthors)
        } else {
            Ok(())
        }),
{
    if authors.len() == 0 {
        Err(CacheRunError::NoAuthors)
    } else {
        Ok(())
    }
}

} // verus!
