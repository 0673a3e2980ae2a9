use crate::words::{capped, chars_of, count_matches, lower_of, num_occurrences, trim};
use vstd::prelude::*;

verus! {

/// The links that a `linkify::LinkFinder` with its default settings finds in a
/// text, each as the text it spans, in order.
pub uninterp spec fn links_in(s: Seq<char>) -> Seq<Seq<char>>;

/// The domain of the URL that `url::Url::parse` reads from a text: `None` when it
/// does not parse or its host is not a domain name.
pub uninterp spec fn url_domain(s: Seq<char>) -> Option<Seq<char>>;

/// The texts of a sequence of strings.
pub open spec fn texts(v: Seq<String>) -> Seq<Seq<char>> {
    v.map_values(|u: String| u@)
}

/// `s` ends with `suffix`.
pub open spec fn ends_with(s: Seq<char>, suffix: Seq<char>) -> bool {
    suffix.len() <= s.len() && s.skip(s.len() - suffix.len()) == suffix
}

/// A link belongs to `domain` when it parses as a URL whose domain ends with it.
pub open spec fn in_domain(link: Seq<char>, domain: Seq<char>) -> bool {
    match url_domain(link) {
        Some(d) => ends_with(d, domain),
        None => false,
    }
}

/// The links of `page` that belong to `domain`.
pub open spec fn domain_links(page: Seq<char>, domain: Seq<char>) -> Set<Seq<char>> {
    links_in(page).to_set().filter(|l: Seq<char>| in_domain(l, domain))
}

/// Relies on `linkify::LinkFinder::new` and `LinkFinder::links`: the links found,
/// each as the text it spans, in order. The finder is made here with its default
/// settings (it holds nothing else), so what it finds depends on the text alone.
#[verifier::external_body]
fn find_links(s: &str) -> (r: Vec<String>)
    ensures
        texts(r@) == links_in(s@),
{
    linkify::LinkFinder::new().links(s).map(|l| l.as_str().to_string()).collect()
}

/// Relies on `url::Url::parse` and `Url::domain`: the domain of the parsed URL, if
/// it parses and has one. Only the domain's text leaves this function.
#[verifier::external_body]
fn parse_domain(s: &str) -> (r: Option<String>)
    ensures
        match r {
            Some(d) => url_domain(s@) == Some(d@),
            None => url_domain(s@) == None::<Seq<char>>,
        },
{
    url::Url::parse(s).ok().and_then(|u| u.domain().map(|d| d.to_string()))
}

/// Whether `s` ends with `suffix`.
fn str_ends_with(s: &str, suffix: &str) -> (r: bool)
    ensures
        r == ends_with(s@, suffix@),
{
    let a = chars_of(s);
    let b = chars_of(suffix);
    if b.len() > a.len() {
        return false;
    }
    let off = a.len() - b.len();
    let mut j: usize = 0;
    while j < b.len()
        invariant
            a@ == s@,
            b@ == suffix@,
            off + b@.len() == a@.len(),
            a@.len() <= usize::MAX,
            j <= b@.len(),
            forall|k: int| 0 <= k < j ==> a@[off + k] == b@[k],
        decreases b@.len() - j,
    {
        if a[off + j] != b[j] {
            assert(a@.skip(off as int)[j as int] != b@[j as int]);
            return false;
        }
        j += 1;
    }
    assert(a@.skip(off as int) =~= b@);
    true
}

/// Whether one of `v` has the text of `s`.
fn holds_text(v: &Vec<String>, s: &String) -> (r: bool)
    ensures
        r == texts(v@).contains(s@),
{
    let mut i: usize = 0;
    while i < v.len()
        invariant
            i <= v@.len(),
            forall|k: int| 0 <= k < i ==> v@[k]@ != s@,
        decreases v@.len() - i,
    {
        if v[i] == *s {
            assert(texts(v@)[i as int] == s@);
            return true;
        }
        i += 1;
    }
    assert(!texts(v@).contains(s@)) by {
        if texts(v@).contains(s@) {
            let k = choose|k: int| 0 <= k < texts(v@).len() && texts(v@)[k] == s@;
            assert(v@[k]@ == s@);
        }
    }
    false
}

/// What a crawl gathered: how often the word was seen, and the pages, each once.
pub struct CrawlResult {
    pub word_count: usize,
    pub urls: Vec<String>,
}

impl CrawlResult {
    /// No page holds a text twice.
    pub open spec fn wf(&self) -> bool {
        texts(self.urls@).no_duplicates()
    }

    /// The texts of the pages.
    pub open spec fn url_set(&self) -> Set<Seq<char>> {
        texts(self.urls@).to_set()
    }

    /// Nothing counted, no pages.
    pub fn new() -> (r: CrawlResult)
        ensures
            r.wf(),
            r.word_count == 0,
            r.urls@.len() == 0,
    {
        CrawlResult { word_count: 0, urls: Vec::new() }
    }

    /// Adds `url` unless a page with its text is already there.
    fn insert(&mut self, url: String)
        requires
            old(self).wf(),
        ensures
            final(self).wf(),
            final(self).word_count == old(self).word_count,
            final(self).url_set() == old(self).url_set().insert(url@),
    {
        if holds_text(&self.urls, &url) {
            assert(old(self).url_set().insert(url@) =~= old(self).url_set());
            return;
        }
        let ghost before = self.urls@;
        self.urls.push(url);
        proof {
            assert(texts(self.urls@) =~= texts(before).push(url@));
            texts(before).lemma_push_to_set_commute(url@);
            assert forall|a: int, b: int|
                0 <= a < texts(self.urls@).len() && 0 <= b < texts(self.urls@).len() && a != b
                implies texts(self.urls@)[a] != texts(self.urls@)[b] by {
                if a == before.len() as int {
                    assert(texts(before).contains(texts(self.urls@)[b]));
                }
                if b == before.len() as int {
                    assert(texts(before).contains(texts(self.urls@)[a]));
                }
            }
        }
    }

    /// Merges `rhs` in: the counts add up and the pages are united.
    pub fn add_assign(&mut self, rhs: CrawlResult)
        requires
            old(self).wf(),
            old(self).word_count + rhs.word_count <= usize::MAX,
        ensures
            final(self).wf(),
            final(self).word_count == old(self).word_count + rhs.word_count,
            final(self).url_set() == old(self).url_set() + rhs.url_set(),
    {
        self.word_count = self.word_count + rhs.word_count;
        let ghost start = self.url_set();
        let urls = rhs.urls;
        let mut i: usize = 0;
        while i < urls.len()
            invariant
                self.wf(),
                self.word_count == old(self).word_count + rhs.word_count,
                urls@ == rhs.urls@,
                i <= urls@.len(),
                self.url_set() == start + texts(urls@.take(i as int)).to_set(),
            decreases urls@.len() - i,
        {
            let url = urls[i].clone();
            self.insert(url);
            proof {
                assert(texts(urls@.take(i + 1)) =~= texts(urls@.take(i as int)).push(urls@[i as int]@));
                texts(urls@.take(i as int)).lemma_push_to_set_commute(urls@[i as int]@);
                assert(self.url_set() =~= start + texts(urls@.take(i + 1)).to_set());
            }
            i += 1;
        }
        assert(urls@.take(urls@.len() as int) =~= urls@);
    }
}

/// Scans pages for a word and for links into a domain. Links are found with a
/// default-configured link finder, which holds no state, so the crawler needs none.
pub struct Crawler {}

impl Crawler {
    pub fn new() -> (r: Crawler) {
        Crawler {}
    }

    /// The links of `s` whose URL domain ends with `domain`, each text once.
    pub fn find_urls(&self, s: &String, domain: &String) -> (r: Vec<String>)
        ensures
            texts(r@).no_duplicates(),
            texts(r@).to_set() == domain_links(s@, domain@),
    {
        let links = find_links(s.as_str());
        let mut found = CrawlResult::new();
        let mut i: usize = 0;
        while i < links.len()
            invariant
                found.wf(),
                texts(links@) == links_in(s@),
                i <= links@.len(),
                found.url_set() == texts(links@.take(i as int)).to_set().filter(
                    |l: Seq<char>| in_domain(l, domain@),
                ),
            decreases links@.len() - i,
        {
            let link = &links[i];
            let keep = match parse_domain(link.as_str()) {
                Some(d) => str_ends_with(d.as_str(), domain.as_str()),
                None => false,
            };
            let ghost before = found.url_set();
            if keep {
                found.insert(link.clone());
            }
            proof {
                let l = links@[i as int]@;
                let prev = texts(links@.take(i as int));
                assert(texts(links@.take(i + 1)) =~= prev.push(l));
                prev.lemma_push_to_set_commute(l);
                assert(keep == in_domain(l, domain@));
                assert(found.url_set() =~= texts(links@.take(i + 1)).to_set().filter(
                    |x: Seq<char>| in_domain(x, domain@),
                ));
            }
            i += 1;
        }
        proof {
            assert(links@.take(links@.len() as int) =~= links@);
            assert(found.url_set() =~= domain_links(s@, domain@));
        }
        found.urls
    }

    /// What one fetched page adds to a crawl: how often `word` occurs in `html`,
    /// case and surrounding white space aside, and its links into `domain`.
    pub fn scan_page(&self, html: &String, domain: &String, word: &String) -> (r: CrawlResult)
        ensures
            r.wf(),
            r.word_count == capped(count_matches(lower_of(html@), lower_of(trim(word@)))),
            r.url_set() == domain_links(html@, domain@),
    {
        let word_count = num_occurrences(html, word);
        let urls = self.find_urls(html, domain);
        CrawlResult { word_count, urls }
    }
}

/// How many rounds of fetching a crawl makes.
pub const ROUNDS: u32 = 2;

/// A crawl between two rounds of fetching. Each round fetches the pages waiting,
/// counts them as visited, and queues the pages they link to that were not yet
/// visited.
pub struct CrawlState {
    seen: CrawlResult,
    to_visit: CrawlResult,
    rounds_left: u32,
}

impl CrawlState {
    /// The pages fetched so far.
    pub closed spec fn visited(&self) -> Set<Seq<char>> {
        self.seen.url_set()
    }

    /// The pages the next round fetches.
    pub closed spec fn waiting(&self) -> Set<Seq<char>> {
        self.to_visit.url_set()
    }

    /// How often the word was seen so far.
    pub closed spec fn total(&self) -> nat {
        self.seen.word_count as nat
    }

    /// The rounds still to make.
    pub closed spec fn rounds(&self) -> nat {
        self.rounds_left as nat
    }

    pub closed spec fn wf(&self) -> bool {
        self.seen.wf() && self.to_visit.wf()
    }

    /// A crawl that starts at `url`: nothing visited, `url` waiting.
    pub fn new(url: String) -> (r: CrawlState)
        ensures
            r.wf(),
            r.visited() == Set::<Seq<char>>::empty(),
            r.waiting() == Set::<Seq<char>>::empty().insert(url@),
            r.total() == 0,
            r.rounds() == ROUNDS,
    {
        let mut to_visit = CrawlResult::new();
        proof {
            assert(to_visit.url_set() =~= Set::<Seq<char>>::empty());
        }
        to_visit.insert(url);
        let seen = CrawlResult::new();
        proof {
            assert(seen.url_set() =~= Set::<Seq<char>>::empty());
        }
        CrawlState { seen, to_visit, rounds_left: ROUNDS }
    }

    /// How often the word was seen so far.
    pub fn word_count(&self) -> (r: usize)
        ensures
            r == self.total(),
    {
        self.seen.word_count
    }

    /// Whether every round has been made.
    pub fn done(&self) -> (r: bool)
        ensures
            r == (self.rounds() == 0),
    {
        self.rounds_left == 0
    }

    /// The pages the next round fetches, each once.
    pub fn pending(&self) -> (r: &Vec<String>)
        requires
            self.wf(),
        ensures
            texts(r@).no_duplicates(),
            texts(r@).to_set() == self.waiting(),
    {
        &self.to_visit.urls
    }

    /// Takes in what the round just fetched found: the waiting pages become
    /// visited, the count grows by what was found, and the pages found that are not
    /// visited wait for the next round.
    pub fn advance(self, found: CrawlResult) -> (r: CrawlState)
        requires
            self.wf(),
            found.wf(),
            self.rounds() > 0,
            self.total() + found.word_count <= usize::MAX,
        ensures
            r.wf(),
            r.visited() == self.visited() + self.waiting(),
            r.total() == self.total() + found.word_count,
            r.waiting() == found.url_set() - r.visited(),
            r.rounds() == self.rounds() - 1,
    {
        let CrawlState { seen, to_visit, rounds_left } = self;
        let mut seen = seen;
        let fetched = CrawlResult { word_count: found.word_count, urls: to_visit.urls };
        seen.add_assign(fetched);
        let mut next = CrawlResult::new();
        let mut i: usize = 0;
        while i < found.urls.len()
            invariant
                seen.wf(),
                next.wf(),
                i <= found.urls@.len(),
                next.url_set() == texts(found.urls@.take(i as int)).to_set() - seen.url_set(),
            decreases found.urls@.len() - i,
        {
            let ghost prev = texts(found.urls@.take(i as int));
            let ghost l = found.urls@[i as int]@;
            let known = holds_text(&seen.urls, &found.urls[i]);
            if !known {
                next.insert(found.urls[i].clone());
            }
            proof {
                assert(texts(found.urls@.take(i + 1)) =~= prev.push(l));
                prev.lemma_push_to_set_commute(l);
                assert(next.url_set() =~= texts(found.urls@.take(i + 1)).to_set() - seen.url_set());
            }
            i += 1;
        }
        proof {
            assert(found.urls@.take(found.urls@.len() as int) =~= found.urls@);
            assert(next.url_set() =~= found.url_set() - seen.url_set());
        }
        CrawlState { seen, to_visit: next, rounds_left: rounds_left - 1 }
    }

    /// The crawl's outcome: the count, and every page visited.
    pub fn finish(self) -> (r: CrawlResult)
        requires
            self.wf(),
        ensures
            r.wf(),
            r.word_count == self.total(),
            r.url_set() == self.visited(),
    {
        self.seen
    }
}

} // verus!
