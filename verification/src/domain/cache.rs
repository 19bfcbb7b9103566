//! What was learned about the registration of domains, kept for a while.
use crate::state::{self, LoadError, StateFile};
use crate::text;
use crate::time::{self, Moment, Timestamp};
use vstd::prelude::*;

verus! {

/// For how many days a lookup without an error is good.
pub const POSITIVE_TTL_DAYS: i64 = 30;

/// For how many hours a lookup with an error is good.
pub const NEGATIVE_TTL_HOURS: i64 = 1;

/// The outcome of a lookup.
#[derive(Debug)]
pub struct CacheEntry {
    /// When the domain was registered, if that was found out.
    pub registered: Option<Timestamp>,
    pub fetched_at: Timestamp,
    pub error: Option<String>,
}

/// What a `CacheEntry` says.
pub struct Lookup {
    pub registered: Option<Moment>,
    pub fetched_at: Moment,
    pub error: Option<Seq<char>>,
}

/// The moment of an optional timestamp.
pub open spec fn moment_of(t: Option<Timestamp>) -> Option<Moment> {
    match t {
        Some(t) => Some(t@),
        None => None,
    }
}

/// The text of an optional string.
pub open spec fn text_of(s: Option<String>) -> Option<Seq<char>> {
    match s {
        Some(s) => Some(s@),
        None => None,
    }
}

impl View for CacheEntry {
    type V = Lookup;

    open spec fn view(&self) -> Lookup {
        Lookup {
            registered: moment_of(self.registered),
            fetched_at: self.fetched_at@,
            error: text_of(self.error),
        }
    }
}

impl Clone for CacheEntry {
    fn clone(&self) -> (r: Self)
        ensures
            r == *self,
    {
        CacheEntry {
            registered: self.registered,
            fetched_at: self.fetched_at,
            error: state::clone_text(&self.error),
        }
    }
}

/// The nanoseconds for which a lookup is good.
pub open spec fn ttl(l: Lookup) -> int {
    match l.error {
        None => POSITIVE_TTL_DAYS * 24 * 60 * 60 * time::NANOS_PER_SEC,
        Some(_) => NEGATIVE_TTL_HOURS * 60 * 60 * time::NANOS_PER_SEC,
    }
}

/// Whether a lookup is still good.
pub open spec fn fresh(l: Lookup, now: Moment) -> bool {
    time::elapsed(now, l.fetched_at) <= ttl(l)
}

impl CacheEntry {
    /// Tells whether the entry is still good.
    pub fn is_fresh(&self, now: Timestamp) -> (r: bool)
        ensures
            r == fresh(self@, now@),
    {
        let age: i128 = now.nanos_since(&self.fetched_at);
        match self.error {
            None => age <= POSITIVE_TTL_DAYS as i128 * 86_400 * 1_000_000_000,
            Some(_) => age <= NEGATIVE_TTL_HOURS as i128 * 3_600 * 1_000_000_000,
        }
    }
}

/// The lookups by domain, each domain once.
pub struct AgeCache {
    entries: Vec<(String, CacheEntry)>,
    /// Whether there is something that the cache file does not hold yet.
    dirty: bool,
}

/// Whether no domain occurs twice.
pub open spec fn distinct_domains(entries: Seq<(String, CacheEntry)>) -> bool {
    forall|i: int, j: int|
        0 <= i < j < entries.len() ==> (#[trigger] entries[i]).0@ != (#[trigger] entries[j]).0@
}

/// The position of a domain.
pub open spec fn at(entries: Seq<(String, CacheEntry)>, domain: Seq<char>, i: int) -> bool {
    0 <= i < entries.len() && entries[i].0@ == domain
}

/// The lookups in a list.
pub open spec fn lookups(entries: Seq<(String, CacheEntry)>) -> Map<Seq<char>, Lookup> {
    Map::new(
        |domain: Seq<char>| exists|i: int| at(entries, domain, i),
        |domain: Seq<char>| entries[choose|i: int| at(entries, domain, i)].1@,
    )
}

/// The lookups in a list, where a later one for the same domain counts.
pub open spec fn latest(entries: Seq<(String, CacheEntry)>) -> Map<Seq<char>, Lookup>
    decreases entries.len(),
{
    if entries.len() == 0 {
        Map::empty()
    } else {
        latest(entries.drop_last()).insert(entries.last().0@, entries.last().1@)
    }
}

/// In a list where each domain occurs once, an entry is what is known of its
/// domain.
proof fn lemma_lookup_at(entries: Seq<(String, CacheEntry)>, i: int)
    requires
        distinct_domains(entries),
        0 <= i < entries.len(),
    ensures
        lookups(entries).contains_key(entries[i].0@),
        lookups(entries)[entries[i].0@] == entries[i].1@,
{
    let domain = entries[i].0@;
    assert(at(entries, domain, i));
    let j = choose|j: int| at(entries, domain, j);
    assert(at(entries, domain, j));
    if i < j {
        assert(entries[i].0@ != entries[j].0@);
    } else if j < i {
        assert(entries[j].0@ != entries[i].0@);
    }
}

/// The entry for a domain can be replaced.
proof fn lemma_replaced(entries: Seq<(String, CacheEntry)>, i: int, new: (String, CacheEntry))
    requires
        distinct_domains(entries),
        0 <= i < entries.len(),
        entries[i].0@ == new.0@,
    ensures
        distinct_domains(entries.update(i, new)),
        lookups(entries.update(i, new)) == lookups(entries).insert(new.0@, new.1@),
{
    let after = entries.update(i, new);
    assert(distinct_domains(after)) by {
        assert forall|a: int, b: int| 0 <= a < b < after.len() implies (#[trigger] after[a]).0@
            != (#[trigger] after[b]).0@ by {
            assert(after[a].0@ == entries[a].0@);
            assert(after[b].0@ == entries[b].0@);
        }
    }
    assert forall|domain: Seq<char>| true implies lookups(after).contains_key(domain)
        == #[trigger] lookups(entries).insert(new.0@, new.1@).contains_key(domain) by {
        if lookups(after).contains_key(domain) {
            let k = choose|k: int| at(after, domain, k);
            assert(at(entries, domain, k));
        }
        if lookups(entries).contains_key(domain) {
            let k = choose|k: int| at(entries, domain, k);
            assert(at(after, domain, k));
        }
        if domain == new.0@ {
            assert(at(after, domain, i));
        }
    }
    assert forall|domain: Seq<char>| #[trigger]
        lookups(after).contains_key(domain) implies lookups(after)[domain] == lookups(
        entries,
    ).insert(new.0@, new.1@)[domain] by {
        let k = choose|k: int| at(after, domain, k);
        lemma_lookup_at(after, k);
        lemma_lookup_at(entries, k);
        if k != i {
            if k < i {
                assert(entries[k].0@ != entries[i].0@);
            } else {
                assert(entries[i].0@ != entries[k].0@);
            }
        }
    }
    assert(lookups(after) =~= lookups(entries).insert(new.0@, new.1@));
}

/// An entry for a new domain can be added.
proof fn lemma_added(entries: Seq<(String, CacheEntry)>, new: (String, CacheEntry))
    requires
        distinct_domains(entries),
        forall|i: int| 0 <= i < entries.len() ==> (#[trigger] entries[i]).0@ != new.0@,
    ensures
        distinct_domains(entries.push(new)),
        lookups(entries.push(new)) == lookups(entries).insert(new.0@, new.1@),
{
    let after = entries.push(new);
    let n = entries.len() as int;
    assert(distinct_domains(after));
    assert forall|domain: Seq<char>| true implies lookups(after).contains_key(domain)
        == #[trigger] lookups(entries).insert(new.0@, new.1@).contains_key(domain) by {
        if lookups(after).contains_key(domain) {
            let k = choose|k: int| at(after, domain, k);
            if k < n {
                assert(at(entries, domain, k));
            }
        }
        if lookups(entries).contains_key(domain) {
            let k = choose|k: int| at(entries, domain, k);
            assert(at(after, domain, k));
        }
        if domain == new.0@ {
            assert(at(after, domain, n));
        }
    }
    assert forall|domain: Seq<char>| #[trigger]
        lookups(after).contains_key(domain) implies lookups(after)[domain] == lookups(
        entries,
    ).insert(new.0@, new.1@)[domain] by {
        let k = choose|k: int| at(after, domain, k);
        lemma_lookup_at(after, k);
        if k < n {
            assert(after[k] == entries[k]);
            lemma_lookup_at(entries, k);
        }
    }
    assert(lookups(after) =~= lookups(entries).insert(new.0@, new.1@));
}

/// Tells where a domain stands in the list.
fn find(entries: &Vec<(String, CacheEntry)>, domain: &str) -> (r: Option<usize>)
    ensures
        match r {
            Some(i) => at(entries@, domain@, i as int),
            None => forall|i: int| 0 <= i < entries@.len() ==> (#[trigger] entries@[i]).0@ != domain@,
        },
{
    let wanted = text::chars_of(domain);
    let mut i: usize = 0;
    while i < entries.len()
        invariant
            i <= entries.len(),
            wanted@ == domain@,
            forall|j: int| 0 <= j < i ==> (#[trigger] entries@[j]).0@ != domain@,
        decreases entries.len() - i,
    {
        let key = text::chars_of(entries[i].0.as_str());
        if text::same(&key, &wanted) {
            return Some(i);
        }
        i += 1;
    }
    None
}

/// Puts an entry into the list.
fn insert(entries: &mut Vec<(String, CacheEntry)>, domain: String, entry: CacheEntry)
    requires
        distinct_domains(old(entries)@),
    ensures
        distinct_domains(final(entries)@),
        lookups(final(entries)@) == lookups(old(entries)@).insert(domain@, entry@),
{
    match find(entries, domain.as_str()) {
        Some(i) => {
            proof {
                lemma_replaced(entries@, i as int, (domain, entry));
            }
            entries[i] = (domain, entry);
        },
        None => {
            proof {
                lemma_added(entries@, (domain, entry));
            }
            entries.push((domain, entry));
        },
    }
}

impl AgeCache {
    #[verifier::type_invariant]
    spec fn valid(self) -> bool {
        distinct_domains(self.entries@)
    }

    /// The lookups by domain.
    pub closed spec fn entries(self) -> Map<Seq<char>, Lookup> {
        lookups(self.entries@)
    }

    /// Whether there is something that the cache file does not hold yet.
    pub closed spec fn is_dirty(self) -> bool {
        self.dirty
    }

    /// Takes up the cache file.
    pub fn load(file: StateFile<Vec<(String, CacheEntry)>>) -> (r: Result<Self, LoadError>)
        ensures
            match file {
                StateFile::Parsed(list) => r matches Ok(cache) && cache.entries() == latest(list@)
                    && !cache.is_dirty(),
                StateFile::Malformed => r matches Ok(cache) && cache.entries()
                    == Map::<Seq<char>, Lookup>::empty() && !cache.is_dirty(),
                StateFile::Missing => r matches Ok(cache) && cache.entries()
                    == Map::<Seq<char>, Lookup>::empty() && !cache.is_dirty(),
                StateFile::Unreadable(reason) => r matches Err(e) && e.context@
                    == "reading rdap-cache.json"@ && e.reason == reason,
            },
    {
        let list = match state::contents_or(file, Vec::new(), "reading rdap-cache.json") {
            Ok(list) => list,
            Err(e) => {
                return Err(e);
            },
        };
        let mut entries: Vec<(String, CacheEntry)> = Vec::new();
        let mut i: usize = 0;
        proof {
            assert(lookups(entries@) =~= latest(list@.take(0)));
        }
        while i < list.len()
            invariant
                i <= list.len(),
                distinct_domains(entries@),
                lookups(entries@) == latest(list@.take(i as int)),
            decreases list.len() - i,
        {
            proof {
                assert(list@.take(i + 1).drop_last() =~= list@.take(i as int));
            }
            insert(&mut entries, list[i].0.clone(), list[i].1.clone());
            i += 1;
        }
        proof {
            assert(list@.take(list@.len() as int) =~= list@);
        }
        Ok(AgeCache { entries, dirty: false })
    }

    /// What is known about a domain and still good.
    pub fn get(&self, domain: &str, now: Timestamp) -> (r: Option<CacheEntry>)
        ensures
            match r {
                Some(entry) => self.entries().contains_key(domain@) && self.entries()[domain@]
                    == entry@ && fresh(entry@, now@),
                None => !self.entries().contains_key(domain@) || !fresh(
                    self.entries()[domain@],
                    now@,
                ),
            },
    {
        proof {
            use_type_invariant(self);
        }
        match find(&self.entries, domain) {
            Some(i) => {
                proof {
                    lemma_lookup_at(self.entries@, i as int);
                }
                if self.entries[i].1.is_fresh(now) {
                    Some(self.entries[i].1.clone())
                } else {
                    None
                }
            },
            None => None,
        }
    }

    /// Notes what was learned about a domain.
    pub fn put(&mut self, domain: &str, entry: CacheEntry)
        ensures
            final(self).entries() == old(self).entries().insert(domain@, entry@),
            final(self).is_dirty(),
    {
        proof {
            use_type_invariant(&*self);
        }
        let mut entries: Vec<(String, CacheEntry)> = Vec::new();
        std::mem::swap(&mut entries, &mut self.entries);
        insert(&mut entries, domain.to_owned(), entry);
        self.entries = entries;
        self.dirty = true;
    }

    /// What to write to the cache file: everything, if something is not there
    /// yet. After that the file is taken to be up to date.
    pub fn flush(&mut self) -> (snapshot: Option<Vec<(String, CacheEntry)>>)
        ensures
            final(self).entries() == old(self).entries(),
            !final(self).is_dirty(),
            match snapshot {
                Some(list) => old(self).is_dirty() && distinct_domains(list@) && lookups(list@)
                    == old(self).entries(),
                None => !old(self).is_dirty(),
            },
    {
        proof {
            use_type_invariant(&*self);
        }
        if !self.dirty {
            return None;
        }
        self.dirty = false;
        let mut list: Vec<(String, CacheEntry)> = Vec::new();
        let mut i: usize = 0;
        while i < self.entries.len()
            invariant
                i <= self.entries.len(),
                list@ == self.entries@.take(i as int),
            decreases self.entries.len() - i,
        {
            proof {
                assert(self.entries@.take(i + 1) =~= self.entries@.take(i as int).push(
                    self.entries@[i as int],
                ));
            }
            list.push((self.entries[i].0.clone(), self.entries[i].1.clone()));
            i += 1;
        }
        proof {
            assert(self.entries@.take(self.entries@.len() as int) =~= self.entries@);
        }
        Some(list)
    }
}

/// A cache that is written out and taken up again knows the same.
pub proof fn snapshot_restores_the_cache(list: Seq<(String, CacheEntry)>)
    requires
        distinct_domains(list),
    ensures
        latest(list) == lookups(list),
    decreases list.len(),
{
    if list.len() == 0 {
        assert(latest(list) =~= lookups(list));
    } else {
        let init = list.drop_last();
        assert(distinct_domains(init)) by {
            assert forall|i: int, j: int| 0 <= i < j < init.len() implies (#[trigger] init[i]).0@
                != (#[trigger] init[j]).0@ by {
                assert(init[i] == list[i] && init[j] == list[j]);
            }
        }
        snapshot_restores_the_cache(init);
        assert forall|i: int| 0 <= i < init.len() implies (#[trigger] init[i]).0@
            != list.last().0@ by {
            assert(list[i].0@ != list[list.len() - 1].0@);
        }
        lemma_added(init, list.last());
        assert(init.push(list.last()) =~= list);
    }
}

/// Outside leap seconds, a lookup that found no error is good for 30 days and one
/// with an error for an hour, to the nanosecond.
pub proof fn lookup_is_good_for_its_time(l: Lookup, now: Moment)
    requires
        0 <= now.nanos < 1_000_000_000,
        0 <= l.fetched_at.nanos < 1_000_000_000,
    ensures
        ({
            let age = (now.secs - l.fetched_at.secs) * 1_000_000_000 + now.nanos
                - l.fetched_at.nanos;
            &&& l.error is None ==> (fresh(l, now) <==> age <= 2_592_000_000_000_000)
            &&& l.error is Some ==> (fresh(l, now) <==> age <= 3_600_000_000_000)
        }),
{
}

/// Of several lookups for a domain in a file, the last one counts.
pub proof fn last_lookup_for_a_domain_counts(entries: Seq<(String, CacheEntry)>, i: int)
    requires
        0 <= i < entries.len(),
        forall|j: int| i < j < entries.len() ==> (#[trigger] entries[j]).0@ != entries[i].0@,
    ensures
        latest(entries).contains_key(entries[i].0@),
        latest(entries)[entries[i].0@] == entries[i].1@,
    decreases entries.len(),
{
    if i < entries.len() - 1 {
        let init = entries.drop_last();
        assert forall|j: int| i < j < init.len() implies (#[trigger] init[j]).0@
            != init[i].0@ by {
            assert(init[j] == entries[j]);
        }
        last_lookup_for_a_domain_counts(init, i);
        assert(entries[entries.len() - 1].0@ != entries[i].0@);
    }
}

/// Nothing is known of a domain that a file does not list.
pub proof fn unlisted_domain_is_unknown(entries: Seq<(String, CacheEntry)>, domain: Seq<char>)
    requires
        forall|j: int| 0 <= j < entries.len() ==> (#[trigger] entries[j]).0@ != domain,
    ensures
        !latest(entries).contains_key(domain),
        !lookups(entries).contains_key(domain),
    decreases entries.len(),
{
    if entries.len() > 0 {
        let init = entries.drop_last();
        assert forall|j: int| 0 <= j < init.len() implies (#[trigger] init[j]).0@ != domain by {
            assert(init[j] == entries[j]);
        }
        unlisted_domain_is_unknown(init, domain);
        assert(entries[entries.len() - 1].0@ != domain);
    }
}

} // verus!
