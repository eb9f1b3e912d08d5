//! The tracking store: which playlists are tracked, by URL, with their titles.

use crate::format::{
    first_eq_at, is_malformed, lemma_pairs_of_entry_lines, lemma_split_render, lines_of,
    malformed_count, pairs_of_lines, parse_line, parse_text, render_pairs, split_lines, storable,
    trim_cr,
};
use vstd::prelude::*;

verus! {

/// One tracked playlist.
pub struct Playlist {
    pub url: String,
    pub title: String,
}

/// The URL-to-title mapping of the tracked playlists.
///
/// The entries are kept in a `Vec` with no URL twice, rather than in a
/// `HashMap<String, String>`: vstd's specification of `HashMap` proves nothing
/// about `String` keys, while over a `Vec` every operation below is proved
/// against the mapping that the entries give.
pub struct TrackingStore {
    entries: Vec<Playlist>,
}

/// The mapping that a sequence of (url, title) pairs gives, later pairs
/// replacing earlier ones of the same URL.
pub open spec fn map_of(es: Seq<(Seq<char>, Seq<char>)>) -> Map<Seq<char>, Seq<char>>
    decreases es.len(),
{
    if es.len() == 0 {
        Map::empty()
    } else {
        map_of(es.drop_last()).insert(es.last().0, es.last().1)
    }
}

/// No URL comes twice.
pub open spec fn unique_urls(es: Seq<(Seq<char>, Seq<char>)>) -> bool {
    forall|i: int, j: int| 0 <= i < j < es.len() ==> es[i].0 != es[j].0
}

proof fn lemma_map_of_dom(es: Seq<(Seq<char>, Seq<char>)>, k: Seq<char>)
    ensures
        map_of(es).contains_key(k) <==> exists|i: int| 0 <= i < es.len() && es[i].0 == k,
    decreases es.len(),
{
    if es.len() > 0 {
        lemma_map_of_dom(es.drop_last(), k);
        if map_of(es.drop_last()).contains_key(k) {
            let i = choose|i: int| 0 <= i < es.len() - 1 && es.drop_last()[i].0 == k;
            assert(es[i].0 == k);
        }
        if exists|i: int| 0 <= i < es.len() && es[i].0 == k {
            let i = choose|i: int| 0 <= i < es.len() && es[i].0 == k;
            if i < es.len() - 1 {
                assert(es.drop_last()[i].0 == k);
            }
        }
    }
}

proof fn lemma_map_of_index(es: Seq<(Seq<char>, Seq<char>)>, i: int)
    requires
        unique_urls(es),
        0 <= i < es.len(),
    ensures
        map_of(es).contains_key(es[i].0),
        map_of(es)[es[i].0] == es[i].1,
    decreases es.len(),
{
    if i < es.len() - 1 {
        assert(es.drop_last()[i] == es[i]);
        lemma_map_of_index(es.drop_last(), i);
    }
}

/// The mapping that pairs with unique URLs give is the one that holds exactly
/// their URLs, each with its title.
proof fn lemma_map_of_is(es: Seq<(Seq<char>, Seq<char>)>, m: Map<Seq<char>, Seq<char>>)
    requires
        unique_urls(es),
        forall|k: Seq<char>|
            #[trigger] m.contains_key(k) <==> exists|i: int| 0 <= i < es.len() && es[i].0 == k,
        forall|i: int| 0 <= i < es.len() ==> #[trigger] m[es[i].0] == es[i].1,
    ensures
        map_of(es) == m,
{
    assert forall|k: Seq<char>| #[trigger] map_of(es).contains_key(k) <==> m.contains_key(k) by {
        lemma_map_of_dom(es, k);
    }
    assert forall|k: Seq<char>| #[trigger] map_of(es).contains_key(k) implies map_of(es)[k]
        == m[k] by {
        lemma_map_of_dom(es, k);
        let i = choose|i: int| 0 <= i < es.len() && es[i].0 == k;
        lemma_map_of_index(es, i);
    }
    assert(map_of(es) =~= m);
}

/// `es` lists the entries of `m`, each once.
pub open spec fn lists_entries(es: Seq<(Seq<char>, Seq<char>)>, m: Map<Seq<char>, Seq<char>>) -> bool {
    &&& unique_urls(es)
    &&& es.len() == m.len()
    &&& forall|i: int|
        0 <= i < es.len() ==> m.contains_key(#[trigger] es[i].0) && m[es[i].0] == es[i].1
    &&& forall|k: Seq<char>|
        #[trigger] m.contains_key(k) ==> exists|i: int| 0 <= i < es.len() && es[i].0 == k
}

/// Pairs with unique URLs list the entries of the mapping that they give.
pub proof fn lemma_lists_entries(es: Seq<(Seq<char>, Seq<char>)>)
    requires
        unique_urls(es),
    ensures
        lists_entries(es, map_of(es)),
        map_of(es).dom().finite(),
    decreases es.len(),
{
    if es.len() > 0 {
        let init = es.drop_last();
        lemma_lists_entries(init);
        lemma_map_of_dom(init, es.last().0);
        if map_of(init).contains_key(es.last().0) {
            let j = choose|j: int| 0 <= j < init.len() && init[j].0 == es.last().0;
            assert(es[j].0 == es[es.len() - 1].0);
        }
        assert(map_of(es).dom() == map_of(init).dom().insert(es.last().0));
    }
    assert forall|i: int| 0 <= i < es.len() implies map_of(es).contains_key(#[trigger] es[i].0)
        && map_of(es)[es[i].0] == es[i].1 by {
        lemma_map_of_index(es, i);
    }
    assert forall|k: Seq<char>| #[trigger] map_of(es).contains_key(k) implies exists|i: int|
        0 <= i < es.len() && es[i].0 == k by {
        lemma_map_of_dom(es, k);
    }
}

/// Rendering a store as text and parsing that text gives the store's mapping
/// back, where no URL or title holds `\n`, no URL holds `=`, and no title ends
/// in `\r`.
pub proof fn lemma_round_trip(store: TrackingStore)
    requires
        store.wf(),
        forall|k: Seq<char>| #[trigger] store@.contains_key(k) ==> storable((k, store@[k])),
    ensures
        parse_text(render_pairs(store.pairs())) == store@,
{
    let es = store.pairs();
    lemma_lists_entries(es);
    assert forall|i: int| 0 <= i < es.len() implies storable(#[trigger] es[i]) by {
        assert(store@.contains_key(es[i].0));
    }
    lemma_split_render(es);
    lemma_pairs_of_entry_lines(es);
}

/// What `plan_add` tells the caller to do next.
pub enum AddStep {
    /// The URL is tracked already: nothing is to be fetched or changed.
    AlreadyTracked,
    /// The URL is new: its title is to be fetched, then handed to `add`.
    FetchTitle,
}

impl View for TrackingStore {
    type V = Map<Seq<char>, Seq<char>>;

    /// The URL-to-title mapping.
    closed spec fn view(&self) -> Map<Seq<char>, Seq<char>> {
        map_of(self.pairs())
    }
}

impl TrackingStore {
    /// The entries as (url, title) pairs, in the order in which they are kept.
    pub closed spec fn pairs(&self) -> Seq<(Seq<char>, Seq<char>)> {
        self.entries@.map_values(|e: Playlist| (e.url@, e.title@))
    }

    /// No URL is kept twice.
    pub open spec fn wf(&self) -> bool {
        unique_urls(self.pairs())
    }

    /// An empty store.
    pub fn new() -> (r: Self)
        ensures
            r.wf(),
            r@ == Map::<Seq<char>, Seq<char>>::empty(),
            r.pairs() == Seq::<(Seq<char>, Seq<char>)>::empty(),
    {
        let r = TrackingStore { entries: Vec::new() };
        assert(r.pairs() =~= Seq::<(Seq<char>, Seq<char>)>::empty());
        r
    }

    /// The position of `url` among the entries.
    fn find(&self, url: &str) -> (r: Option<usize>)
        ensures
            r matches Some(i) ==> i < self.entries@.len() && self.pairs()[i as int].0 == url@,
            r is None ==> forall|i: int|
                0 <= i < self.entries@.len() ==> self.pairs()[i].0 != url@,
    {
        let key = String::from_str(url);
        let mut i: usize = 0;
        while i < self.entries.len()
            invariant
                key@ == url@,
                i <= self.entries@.len(),
                forall|j: int| 0 <= j < i ==> self.pairs()[j].0 != url@,
            decreases self.entries@.len() - i,
        {
            if self.entries[i].url == key {
                return Some(i);
            }
            i = i + 1;
        }
        None
    }

    /// Whether `url` is tracked.
    pub fn contains(&self, url: &str) -> (r: bool)
        requires
            self.wf(),
        ensures
            r == self@.contains_key(url@),
    {
        proof {
            lemma_map_of_dom(self.pairs(), url@);
        }
        self.find(url).is_some()
    }

    /// The tracked playlists, in no particular order.
    pub fn playlists(&self) -> (r: &Vec<Playlist>)
        requires
            self.wf(),
        ensures
            r@.map_values(|e: Playlist| (e.url@, e.title@)) == self.pairs(),
            lists_entries(self.pairs(), self@),
    {
        proof {
            lemma_lists_entries(self.pairs());
        }
        &self.entries
    }

    /// Tracks `url` under `title`, replacing the title where `url` is tracked
    /// already.
    pub fn insert(&mut self, url: String, title: String)
        requires
            old(self).wf(),
        ensures
            final(self).wf(),
            final(self)@ == old(self)@.insert(url@, title@),
    {
        let ghost m = self@.insert(url@, title@);
        proof {
            lemma_map_of_dom(self.pairs(), url@);
        }
        match self.find(url.as_str()) {
            Some(i) => {
                let ghost before = self.pairs();
                self.entries.set(i, Playlist { url, title });
                assert(self.pairs() =~= before.update(i as int, (url@, title@)));
                assert forall|k: Seq<char>| #[trigger] m.contains_key(k) <==> exists|j: int|
                    0 <= j < self.pairs().len() && self.pairs()[j].0 == k by {
                    lemma_map_of_dom(before, k);
                    if k == url@ {
                        assert(self.pairs()[i as int].0 == k);
                    }
                    if k != url@ && m.contains_key(k) {
                        let j = choose|j: int| 0 <= j < before.len() && before[j].0 == k;
                        assert(self.pairs()[j].0 == k);
                    }
                    if exists|j: int| 0 <= j < self.pairs().len() && self.pairs()[j].0 == k {
                        let j = choose|j: int| 0 <= j < self.pairs().len() && self.pairs()[j].0 == k;
                        if j != i {
                            assert(before[j].0 == k);
                        }
                    }
                }
                assert forall|j: int| 0 <= j < self.pairs().len() implies #[trigger] m[self.pairs()[j].0]
                    == self.pairs()[j].1 by {
                    if j != i {
                        lemma_map_of_index(before, j);
                    }
                }
                proof {
                    lemma_map_of_is(self.pairs(), m);
                }
            },
            None => {
                let ghost before = self.pairs();
                self.entries.push(Playlist { url, title });
                assert(self.pairs() =~= before.push((url@, title@)));
                assert(self.pairs().drop_last() =~= before);
            },
        }
    }

    /// The store that a tracking file's text records, and how many of its
    /// lines were skipped for want of `=`.
    pub fn parse(text: &str) -> (r: (TrackingStore, usize))
        ensures
            r.0.wf(),
            r.0@ == parse_text(text@),
            r.1 == malformed_count(lines_of(text@)),
    {
        let ghost s = text@;
        let len = text.unicode_len();
        let mut store = TrackingStore::new();
        let mut malformed: usize = 0;
        // The current line starts at `start`; its first `=` so far is at `eq`.
        let mut start: usize = 0;
        let mut eq: Option<usize> = None;
        let mut after_cr = false;
        let ghost mut done: Seq<Seq<char>> = Seq::empty();
        let mut k: usize = 0;
        for c in it: text.chars()
            invariant
                s == text@,
                it.seq() == s,
                len == s.len(),
                k == it.index(),
                start <= k,
                split_lines(s.subrange(0, k as int)) == (done, s.subrange(start as int, k as int)),
                store.wf(),
                store@ == map_of(pairs_of_lines(done)),
                malformed == malformed_count(done),
                malformed <= start,
                eq matches Some(e) ==> {
                    &&& start <= e < k
                    &&& s[e as int] == '='
                    &&& forall|j: int| start <= j < e ==> s[j] != '='
                },
                eq is None ==> forall|j: int| start <= j < k ==> s[j] != '=',
                after_cr == (start < k && s[k - 1] == '\r'),
        {
            assert(c == s[k as int]);
            assert(s.subrange(0, k + 1).drop_last() =~= s.subrange(0, k as int));
            if c == '\n' {
                let end = if after_cr {
                    k - 1
                } else {
                    k
                };
                let ghost line = s.subrange(start as int, end as int);
                assert(line =~= trim_cr(s.subrange(start as int, k as int)));
                let skipped = take_line(&mut store, text, start, end, eq);
                if skipped {
                    malformed = malformed + 1;
                }
                proof {
                    lemma_take_line_step(done, line);
                    done = done.push(line);
                }
                start = k + 1;
                eq = None;
                after_cr = false;
                assert(s.subrange(start as int, k + 1) =~= Seq::<char>::empty());
            } else {
                if c == '=' && eq.is_none() {
                    eq = Some(k);
                }
                after_cr = c == '\r';
                assert(s.subrange(start as int, k as int).push(c) =~= s.subrange(
                    start as int,
                    k + 1,
                ));
            }
            k = k + 1;
        }
        assert(s.subrange(0, k as int) =~= s);
        if start < len {
            let ghost line = s.subrange(start as int, len as int);
            let skipped = take_line(&mut store, text, start, len, eq);
            if skipped {
                malformed = malformed + 1;
            }
            proof {
                lemma_take_line_step(done, line);
            }
        }
        (store, malformed)
    }

    /// The text of the tracking file: one `url=title` line per entry, each
    /// ended by `\n`; empty for an empty store.
    pub fn render(&self) -> (r: String)
        requires
            self.wf(),
        ensures
            r@ == render_pairs(self.pairs()),
            lists_entries(self.pairs(), self@),
    {
        proof {
            lemma_lists_entries(self.pairs());
        }
        let mut out = String::new();
        let mut i: usize = 0;
        while i < self.entries.len()
            invariant
                i <= self.entries@.len(),
                out@ == render_pairs(self.pairs().subrange(0, i as int)),
            decreases self.entries@.len() - i,
        {
            let e = &self.entries[i];
            proof {
                reveal_strlit("=");
                reveal_strlit("\n");
            }
            out.append(e.url.as_str());
            out.append("=");
            out.append(e.title.as_str());
            out.append("\n");
            assert(self.pairs().subrange(0, i + 1).drop_last() =~= self.pairs().subrange(
                0,
                i as int,
            ));
            i = i + 1;
        }
        assert(self.pairs().subrange(0, i as int) =~= self.pairs());
        out
    }

    /// Whether adding `url` needs its title: not where it is tracked already.
    pub fn plan_add(&self, url: &str) -> (r: AddStep)
        requires
            self.wf(),
        ensures
            r is AlreadyTracked <==> self@.contains_key(url@),
    {
        if self.contains(url) {
            AddStep::AlreadyTracked
        } else {
            AddStep::FetchTitle
        }
    }

    /// Tracks `url` under `title` unless it is tracked already, in which case
    /// nothing changes. Returns whether it was added.
    pub fn add(&mut self, url: String, title: String) -> (added: bool)
        requires
            old(self).wf(),
        ensures
            final(self).wf(),
            added == !old(self)@.contains_key(url@),
            final(self)@ == add_to(old(self)@, url@, title@),
    {
        if self.contains(url.as_str()) {
            false
        } else {
            self.insert(url, title);
            true
        }
    }

    /// Stops tracking `url`; a URL that is not tracked is no error. Returns
    /// whether it was tracked.
    pub fn remove(&mut self, url: &str) -> (removed: bool)
        requires
            old(self).wf(),
        ensures
            final(self).wf(),
            removed == old(self)@.contains_key(url@),
            final(self)@ == old(self)@.remove(url@),
    {
        proof {
            lemma_map_of_dom(self.pairs(), url@);
        }
        match self.find(url) {
            Some(i) => {
                let ghost before = self.pairs();
                let ghost m = self@.remove(url@);
                self.entries.remove(i);
                assert(self.pairs() =~= before.remove(i as int));
                assert forall|k: Seq<char>| #[trigger] m.contains_key(k) <==> exists|j: int|
                    0 <= j < self.pairs().len() && self.pairs()[j].0 == k by {
                    lemma_map_of_dom(before, k);
                    if m.contains_key(k) {
                        let j = choose|j: int| 0 <= j < before.len() && before[j].0 == k;
                        if j < i {
                            assert(self.pairs()[j].0 == k);
                        } else {
                            assert(self.pairs()[j - 1].0 == k);
                        }
                    }
                    if exists|j: int| 0 <= j < self.pairs().len() && self.pairs()[j].0 == k {
                        let j = choose|j: int| 0 <= j < self.pairs().len() && self.pairs()[j].0 == k;
                        if j < i {
                            assert(before[j].0 == k);
                        } else {
                            assert(before[j + 1].0 == k);
                        }
                    }
                }
                assert forall|j: int| 0 <= j < self.pairs().len() implies #[trigger] m[self.pairs()[j].0]
                    == self.pairs()[j].1 by {
                    if j < i {
                        lemma_map_of_index(before, j);
                    } else {
                        lemma_map_of_index(before, j + 1);
                    }
                }
                proof {
                    lemma_map_of_is(self.pairs(), m);
                }
                true
            },
            None => {
                assert(self@.remove(url@) =~= self@);
                false
            },
        }
    }
}

proof fn lemma_take_line_step(done: Seq<Seq<char>>, line: Seq<char>)
    ensures
        map_of(pairs_of_lines(done.push(line))) == match parse_line(line) {
            Some(p) => map_of(pairs_of_lines(done)).insert(p.0, p.1),
            None => map_of(pairs_of_lines(done)),
        },
        malformed_count(done.push(line)) == malformed_count(done) + if is_malformed(line) {
            1nat
        } else {
            0nat
        },
{
    assert(done.push(line).drop_last() =~= done);
    let ps = pairs_of_lines(done);
    if let Some(p) = parse_line(line) {
        assert(ps.push(p).drop_last() =~= ps);
    }
}

/// Takes the line `text[start..end]`, whose first `=`, if it has one, is at
/// `eq`, into the store. Returns whether the line is skipped for want of `=`.
fn take_line(
    store: &mut TrackingStore,
    text: &str,
    start: usize,
    end: usize,
    eq: Option<usize>,
) -> (skipped: bool)
    requires
        old(store).wf(),
        start <= end <= text@.len(),
        eq matches Some(e) ==> {
            &&& start <= e < end
            &&& text@[e as int] == '='
            &&& forall|j: int| start <= j < e ==> text@[j] != '='
        },
        eq is None ==> forall|j: int| start <= j < end ==> text@[j] != '=',
    ensures
        final(store).wf(),
        final(store)@ == match parse_line(text@.subrange(start as int, end as int)) {
            Some(p) => old(store)@.insert(p.0, p.1),
            None => old(store)@,
        },
        skipped == is_malformed(text@.subrange(start as int, end as int)),
{
    let ghost line = text@.subrange(start as int, end as int);
    match eq {
        Some(e) => {
            let ghost k = e - start;
            assert(first_eq_at(line, k));
            proof {
                let k2 = choose|k2: int| first_eq_at(line, k2);
                if k2 < k {
                    assert(text@[start + k2] == '=');
                }
                assert(k2 == k);
            }
            let url = text.substring_char(start, e);
            let title = text.substring_char(e + 1, end);
            assert(url@ =~= line.subrange(0, k));
            assert(title@ =~= line.subrange(k + 1, line.len() as int));
            store.insert(String::from_str(url), String::from_str(title));
            false
        },
        None => {
            assert forall|k: int| !first_eq_at(line, k) by {
                if 0 <= k < line.len() {
                    assert(line[k] == text@[start + k]);
                }
            }
            start < end
        },
    }
}

/// What reading the tracking file gave.
pub enum ReadOutcome {
    /// There is no tracking file yet.
    Missing,
    /// The file's whole text.
    Complete(String),
    /// Reading failed; this is the text read before it did, perhaps none.
    Failed(String),
}

/// A loaded store, with what went wrong on the way.
pub struct Loaded {
    pub store: TrackingStore,
    /// How many lines were skipped for want of `=`.
    pub malformed_lines: usize,
    /// Whether reading the file failed part way.
    pub read_failed: bool,
}

/// The store that a read of the tracking file gives: empty where there is no
/// file, and otherwise what the text read records, all of it or what came
/// before a failure.
pub fn load(outcome: ReadOutcome) -> (r: Loaded)
    ensures
        r.store.wf(),
        match outcome {
            ReadOutcome::Missing => {
                &&& r.store@ == Map::<Seq<char>, Seq<char>>::empty()
                &&& r.malformed_lines == 0
                &&& !r.read_failed
            },
            ReadOutcome::Complete(text) => {
                &&& r.store@ == parse_text(text@)
                &&& r.malformed_lines == malformed_count(lines_of(text@))
                &&& !r.read_failed
            },
            ReadOutcome::Failed(text) => {
                &&& r.store@ == parse_text(text@)
                &&& r.malformed_lines == malformed_count(lines_of(text@))
                &&& r.read_failed
            },
        },
{
    match outcome {
        ReadOutcome::Missing => Loaded { store: TrackingStore::new(), malformed_lines: 0, read_failed: false },
        ReadOutcome::Complete(text) => {
            let (store, malformed_lines) = TrackingStore::parse(text.as_str());
            Loaded { store, malformed_lines, read_failed: false }
        },
        ReadOutcome::Failed(text) => {
            let (store, malformed_lines) = TrackingStore::parse(text.as_str());
            Loaded { store, malformed_lines, read_failed: true }
        },
    }
}

/// The mapping after adding `url` under `title`: unchanged where `url` is
/// tracked already.
pub open spec fn add_to(m: Map<Seq<char>, Seq<char>>, url: Seq<char>, title: Seq<char>) -> Map<
    Seq<char>,
    Seq<char>,
> {
    if m.contains_key(url) {
        m
    } else {
        m.insert(url, title)
    }
}

/// Adding a URL twice is adding it once: the second add changes nothing and,
/// since the URL is tracked by then, needs no title.
pub proof fn lemma_add_idempotent(
    m: Map<Seq<char>, Seq<char>>,
    url: Seq<char>,
    title: Seq<char>,
    title2: Seq<char>,
)
    ensures
        add_to(m, url, title).contains_key(url),
        add_to(add_to(m, url, title), url, title2) == add_to(m, url, title),
{
}

/// Removing a URL that is not tracked leaves the mapping as it was.
pub proof fn lemma_remove_absent(m: Map<Seq<char>, Seq<char>>, url: Seq<char>)
    requires
        !m.contains_key(url),
    ensures
        m.remove(url) == m,
{
    assert(m.remove(url) =~= m);
}

} // verus!
