use vstd::prelude::*;
use vstd::string::StringExecFns;
use rand::RngExt;
use crate::cache::{filter_quotes_by_authors, pair_views, quotes_by_authors};
use crate::config::Config;
use crate::text::{chars_of, string_from, trim, trim_chars, views};
use crate::page::{lemma_split_not_empty, lemma_split_push, split_on};

verus! {

/// `rand::rng().random_range(0..n)`: a random index below `n` (the range must not be
/// empty).
#[verifier::external_body]
fn random_below(n: usize) -> (r: usize)
    requires
        n > 0,
    ensures
        r < n,
{
    rand::rng().random_range(0..n)
}

/// State of the split of a text at commas.
pub struct CommaScan {
    pub pieces: Seq<Seq<char>>,
    pub current: Seq<char>,
}

/// The split after reading `s`.
pub open spec fn comma_scan(s: Seq<char>) -> CommaScan
    decreases s.len(),
{
    if s.len() == 0 {
        CommaScan { pieces: Seq::empty(), current: Seq::empty() }
    } else {
        let st = comma_scan(s.drop_last());
        if s.last() == ',' {
            CommaScan { pieces: st.pieces.push(st.current), current: Seq::empty() }
        } else {
            CommaScan { pieces: st.pieces, current: st.current.push(s.last()) }
        }
    }
}

/// The pieces of `s` between commas, each trimmed (`s.split(',')` then `trim`).
pub open spec fn author_list(s: Seq<char>) -> Seq<Seq<char>> {
    let st = comma_scan(s);
    st.pieces.push(st.current).map_values(|p: Seq<char>| trim(p))
}

proof fn lemma_comma_scan_splits(s: Seq<char>)
    ensures
        comma_scan(s).pieces == split_on(s, seq![',']).drop_last(),
        comma_scan(s).current == split_on(s, seq![',']).last(),
    decreases s.len(),
{
    let pat = seq![','];
    if s.len() == 0 {
        assert(split_on(s, pat) == seq![s.subrange(0, 0)]);
        assert(s.subrange(0, 0) =~= Seq::<char>::empty());
        assert(split_on(s, pat).drop_last() =~= Seq::<Seq<char>>::empty());
    } else {
        let p = s.drop_last();
        let c = s.last();
        lemma_comma_scan_splits(p);
        assert(p.push(c) =~= s);
        lemma_split_push(p, ',', c, 0);
        lemma_split_not_empty(p, pat, 0);
        let sp = split_on(p, pat);
        let ss = split_on(s, pat);
        if c == ',' {
            assert(ss.drop_last() =~= sp);
            assert(sp =~= sp.drop_last().push(sp.last()));
        } else {
            assert(ss.drop_last() =~= sp.drop_last());
        }
    }
}

/// The author list is the text split at every comma (`str::split`), each piece
/// trimmed: one name per comma-separated piece, in order, nothing dropped.
pub proof fn lemma_author_list_splits_at_commas(s: Seq<char>)
    ensures
        author_list(s) == split_on(s, seq![',']).map_values(|p: Seq<char>| trim(p)),
{
    lemma_comma_scan_splits(s);
    lemma_split_not_empty(s, seq![','], 0);
    let sp = split_on(s, seq![',']);
    assert(sp =~= sp.drop_last().push(sp.last()));
    assert(author_list(s) =~= sp.map_values(|p: Seq<char>| trim(p)));
}

/// Splits a comma-separated list of authors and trims each name.
pub fn split_authors(list: &str) -> (authors: Vec<String>)
    ensures
        views(authors@) == author_list(list@),
{
    let v = chars_of(list);
    let n = v.len();
    let mut pieces: Vec<String> = Vec::new();
    let mut current: Vec<char> = Vec::new();
    for i in 0..n
        invariant
            n == v@.len(),
            v@ == list@,
            views(pieces@) == comma_scan(v@.take(i as int)).pieces.map_values(|p: Seq<char>| trim(p)),
            current@ == comma_scan(v@.take(i as int)).current,
    {
        let c = v[i];
        assert(v@.take(i + 1).drop_last() =~= v@.take(i as int));
        assert(v@.take(i + 1).last() == c);
        if c == ',' {
            let t = trim_chars(&current);
            let s = string_from(&t);
            let ghost prev = pieces@;
            pieces.push(s);
            assert(views(pieces@) =~= views(prev).push(t@));
            assert(comma_scan(v@.take(i + 1)).pieces.map_values(|p: Seq<char>| trim(p)) =~= comma_scan(v@.take(i as int)).pieces.map_values(|p: Seq<char>| trim(p)).push(trim(current@)));
            current = Vec::new();
        } else {
            current.push(c);
        }
    }
    assert(v@.take(n as int) =~= v@);
    let t = trim_chars(&current);
    let s = string_from(&t);
    let ghost prev = pieces@;
    pieces.push(s);
    assert(views(pieces@) =~= views(prev).push(t@));
    assert(author_list(list@) =~= comma_scan(v@).pieces.map_values(|p: Seq<char>| trim(p)).push(trim(current@)));
    pieces
}

/// Settings given on the command line, each replacing the configured one.
pub struct CliOverrides {
    /// Comma-separated authors.
    pub authors: Option<String>,
    pub theme_color: Option<String>,
    pub max_tries: Option<usize>,
    pub log_file: Option<String>,
    /// `Some(true)` turns rainbow mode on; anything else leaves it as configured.
    pub rainbow_mode: Option<bool>,
}

/// Applies the command-line settings to the configuration: the author list is split
/// at commas and trimmed; colour, tries and log file are replaced; rainbow mode is
/// turned on when asked for, never off.
pub fn apply_cli_overrides(cfg: &mut Config, overrides: CliOverrides)
    ensures
        views(final(cfg).authors@) == (match overrides.authors {
            Some(a) => author_list(a@),
            None => views(old(cfg).authors@),
        }),
        final(cfg).theme_color@ == (match overrides.theme_color {
            Some(t) => t@,
            None => old(cfg).theme_color@,
        }),
        final(cfg).max_tries == (match overrides.max_tries {
            Some(m) => m,
            None => old(cfg).max_tries,
        }),
        final(cfg).log_file@ == (match overrides.log_file {
            Some(l) => l@,
            None => old(cfg).log_file@,
        }),
        final(cfg).rainbow_mode == (old(cfg).rainbow_mode || overrides.rainbow_mode == Some(true)),
        final(cfg).quote_style == old(cfg).quote_style,
        final(cfg).author_style == old(cfg).author_style,
        final(cfg).nested_quote_style == old(cfg).nested_quote_style,
        final(cfg).layout == old(cfg).layout,
        final(cfg).box_corners == old(cfg).box_corners,
        final(cfg).prefer_cache == old(cfg).prefer_cache,
        final(cfg).api_calls_per_minute == old(cfg).api_calls_per_minute,
{
    match overrides.authors {
        Some(a) => {
            cfg.authors = split_authors(a.as_str());
        },
        None => {},
    }
    match overrides.theme_color {
        Some(t) => {
            cfg.theme_color = t;
        },
        None => {},
    }
    match overrides.max_tries {
        Some(m) => {
            cfg.max_tries = m;
        },
        None => {},
    }
    match overrides.log_file {
        Some(l) => {
            cfg.log_file = l;
        },
        None => {},
    }
    match overrides.rainbow_mode {
        Some(true) => {
            cfg.rainbow_mode = true;
        },
        _ => {},
    }
}

/// Why no quote can be shown offline.
#[derive(Clone, Copy, Debug, PartialEq, Eq, Structural)]
pub enum OfflineError {
    /// The cache holds no quote.
    NoCachedQuotes,
    /// The cache holds no quote by the configured authors.
    NoQuotesForAuthors,
}

impl OfflineError {
    /// The message shown for this error.
    pub fn message(&self) -> (m: String)
        ensures
            m@ == (match self {
                OfflineError::NoCachedQuotes => "No cached quotes available for offline mode. Please run with --init-cache first."@,
                OfflineError::NoQuotesForAuthors => "No cached quotes available from configured authors. Try running --init-cache again or check your author list."@,
            }),
    {
        match self {
            OfflineError::NoCachedQuotes => String::from_str(
                "No cached quotes available for offline mode. Please run with --init-cache first.",
            ),
            OfflineError::NoQuotesForAuthors => String::from_str(
                "No cached quotes available from configured authors. Try running --init-cache again or check your author list.",
            ),
        }
    }
}

/// Picks the quote to show offline: a random cached quote by one of `authors` (by
/// anyone when `authors` is empty).
pub fn select_offline_quote(cached: &Vec<(String, String)>, authors: &Vec<String>) -> (r: Result<
    (String, String),
    OfflineError,
>)
    ensures
        r == Err::<(String, String), OfflineError>(OfflineError::NoCachedQuotes) <==> cached@.len() == 0,
        r == Err::<(String, String), OfflineError>(OfflineError::NoQuotesForAuthors) <==> (cached@.len() > 0
            && quotes_by_authors(pair_views(cached@), views(authors@)).len() == 0),
        r matches Ok(p) ==> quotes_by_authors(pair_views(cached@), views(authors@)).contains((p.0@, p.1@)),
{
    if cached.len() == 0 {
        return Err(OfflineError::NoCachedQuotes);
    }
    let filtered = filter_quotes_by_authors(cached, authors);
    if filtered.len() == 0 {
        return Err(OfflineError::NoQuotesForAuthors);
    }
    let idx = random_below(filtered.len());
    let p = &filtered[idx];
    let pick = (p.0.clone(), p.1.clone());
    assert(pair_views(filtered@)[idx as int] == (pick.0@, pick.1@));
    Ok(pick)
}

/// What the quote search asks for next.
#[derive(Debug)]
pub enum SearchStep {
    /// Fetch the sections of this author's page.
    FetchSections(String),
    /// Fetch the quotes of section `.1` of the page titled `.0`.
    FetchQuotes(String, String),
    /// Show this quote `.1` by author `.0`.
    Found(String, String),
    /// Every attempt failed.
    GiveUp,
}

/// The search for a quote online: up to `max_tries` attempts, each with a random
/// author; within an attempt the sections of the author's page are tried in order,
/// and the first section that yields quotes gives a random one of them.
pub struct QuoteSearch {
    attempts: usize,
    max_tries: usize,
    author: String,
    title: String,
    sections: Vec<String>,
    next_section: usize,
}

impl QuoteSearch {
    /// The number of attempts started.
    pub closed spec fn attempts(&self) -> nat {
        self.attempts as nat
    }

    /// The number of attempts allowed.
    pub closed spec fn max_tries(&self) -> nat {
        self.max_tries as nat
    }

    /// The author of the current attempt.
    pub closed spec fn author(&self) -> Seq<char> {
        self.author@
    }

    /// The title of the current page.
    pub closed spec fn title(&self) -> Seq<char> {
        self.title@
    }

    /// The section indices of the current page.
    pub closed spec fn sections(&self) -> Seq<Seq<char>> {
        views(self.sections@)
    }

    /// The position of the section being fetched.
    pub closed spec fn next_section(&self) -> nat {
        self.next_section as nat
    }

    /// The search invariant: never more attempts than allowed.
    pub open spec fn inv(&self) -> bool {
        self.attempts() <= self.max_tries()
    }

    /// A search with no attempt started.
    pub fn new(max_tries: usize) -> (s: Self)
        ensures
            s.attempts() == 0,
            s.max_tries() == max_tries,
            s.inv(),
    {
        QuoteSearch {
            attempts: 0,
            max_tries,
            author: String::new(),
            title: String::new(),
            sections: Vec::new(),
            next_section: 0,
        }
    }

    /// Starts the next attempt with a random author, or gives up when `max_tries`
    /// attempts have been made.
    pub fn next_attempt(&mut self, authors: &Vec<String>) -> (step: SearchStep)
        requires
            old(self).inv(),
            authors@.len() > 0,
        ensures
            final(self).inv(),
            final(self).max_tries() == old(self).max_tries(),
            old(self).attempts() == old(self).max_tries() ==> step is GiveUp && final(self).attempts() == old(self).attempts() && final(self).author() == old(self).author(),
            old(self).attempts() < old(self).max_tries() ==> final(self).attempts() == old(self).attempts() + 1 && (step matches SearchStep::FetchSections(a) && views(authors@).contains(a@) && final(self).author() == a@),
    {
        if self.attempts >= self.max_tries {
            return SearchStep::GiveUp;
        }
        self.attempts = self.attempts + 1;
        let idx = random_below(authors.len());
        let a = authors[idx].clone();
        assert(views(authors@)[idx as int] == a@);
        self.author = a.clone();
        SearchStep::FetchSections(a)
    }

    /// Takes the page of the current author (its title and section indices; `None`
    /// when there is no page or it could not be fetched): asks for the first section's
    /// quotes, or starts the next attempt when there is no section.
    pub fn sections_received(&mut self, authors: &Vec<String>, page: Option<(String, Vec<String>)>) -> (step: SearchStep)
        requires
            old(self).inv(),
            authors@.len() > 0,
        ensures
            final(self).inv(),
            final(self).max_tries() == old(self).max_tries(),
            (match page {
                Some((title, secs)) if secs@.len() > 0 => {
                    &&& step matches SearchStep::FetchQuotes(t, s) && t@ == title@ && s@ == secs@[0]@
                    &&& final(self).attempts() == old(self).attempts()
                    &&& final(self).title() == title@
                    &&& final(self).sections() == views(secs@)
                    &&& final(self).next_section() == 0
                    &&& final(self).author() == old(self).author()
                },
                _ => {
                    &&& old(self).attempts() == old(self).max_tries() ==> step is GiveUp
                    &&& old(self).attempts() < old(self).max_tries() ==> final(self).attempts() == old(self).attempts() + 1 && (step matches SearchStep::FetchSections(a) && views(authors@).contains(a@) && final(self).author() == a@)
                },
            }),
    {
        match page {
            Some((title, secs)) => {
                if secs.len() > 0 {
                    let first = secs[0].clone();
                    self.title = title.clone();
                    self.sections = secs;
                    self.next_section = 0;
                    return SearchStep::FetchQuotes(title, first);
                }
                self.next_attempt(authors)
            },
            None => self.next_attempt(authors),
        }
    }

    /// Takes the quotes of the section just fetched (`None` when the fetch failed):
    /// a random one of them is found when there are any, else the next section is
    /// asked for, else the next attempt starts.
    pub fn quotes_received(&mut self, authors: &Vec<String>, quotes: Option<Vec<String>>) -> (step: SearchStep)
        requires
            old(self).inv(),
            authors@.len() > 0,
        ensures
            final(self).inv(),
            final(self).max_tries() == old(self).max_tries(),
            (match quotes {
                Some(q) if q@.len() > 0 => {
                    &&& step matches SearchStep::Found(a, x) && a@ == old(self).author() && views(q@).contains(x@)
                    &&& final(self).attempts() == old(self).attempts()
                    &&& final(self).author() == old(self).author()
                    &&& final(self).title() == old(self).title()
                    &&& final(self).sections() == old(self).sections()
                    &&& final(self).next_section() == old(self).next_section()
                },
                _ => if old(self).next_section() + 1 < old(self).sections().len() {
                    &&& step matches SearchStep::FetchQuotes(t, s) && t@ == old(self).title() && s@ == old(self).sections()[old(self).next_section() + 1int]
                    &&& final(self).next_section() == old(self).next_section() + 1
                    &&& final(self).attempts() == old(self).attempts()
                    &&& final(self).author() == old(self).author()
                    &&& final(self).title() == old(self).title()
                    &&& final(self).sections() == old(self).sections()
                } else {
                    &&& old(self).attempts() == old(self).max_tries() ==> step is GiveUp
                    &&& old(self).attempts() < old(self).max_tries() ==> final(self).attempts() == old(self).attempts() + 1 && (step matches SearchStep::FetchSections(a) && views(authors@).contains(a@) && final(self).author() == a@)
                },
            }),
    {
        match quotes {
            Some(q) => {
                if q.len() > 0 {
                    let idx = random_below(q.len());
                    let x = q[idx].clone();
                    assert(views(q@)[idx as int] == x@);
                    return SearchStep::Found(self.author.clone(), x);
                }
            },
            None => {},
        }
        if self.next_section < self.sections.len() && self.next_section + 1 < self.sections.len() {
            self.next_section = self.next_section + 1;
            let s = self.sections[self.next_section].clone();
            assert(views(self.sections@)[self.next_section as int] == s@);
            return SearchStep::FetchQuotes(self.title.clone(), s);
        }
        self.next_attempt(authors)
    }
}

} // verus!
