//! Finding out when a domain was registered: which registry to ask over RDAP,
//! what its answer means, and what to remember of it.
//!
//! A lookup goes in steps. `RdapClient::registration_date` begins it;
//! `on_bootstrap` and `on_response` go on with what was fetched meanwhile.
use crate::domain::cache::{self, AgeCache, CacheEntry, Lookup};
use crate::text;
use crate::time::{self, Moment, Timestamp};
use vstd::hash_map::StringHashMap;
use vstd::prelude::*;

verus! {

/// Why no registration date was found.
#[derive(Debug)]
pub enum RdapError {
    /// No registry serves the top-level domain.
    UnknownTld(String),
    /// The registry does not say when the domain was registered.
    NoRegistrationEvent,
    /// The lookup failed, for this reason.
    Lookup(String),
}

/// What an `RdapError` says.
pub enum Failure {
    UnknownTld(Seq<char>),
    NoRegistrationEvent,
    Lookup(Seq<char>),
}

impl View for RdapError {
    type V = Failure;

    open spec fn view(&self) -> Failure {
        match self {
            RdapError::UnknownTld(t) => Failure::UnknownTld(t@),
            RdapError::NoRegistrationEvent => Failure::NoRegistrationEvent,
            RdapError::Lookup(s) => Failure::Lookup(s@),
        }
    }
}

/// The message for a failure.
pub open spec fn message(f: Failure) -> Seq<char> {
    match f {
        Failure::UnknownTld(t) => "no RDAP service for TLD ."@ + t,
        Failure::NoRegistrationEvent => "RDAP response had no registration event"@,
        Failure::Lookup(s) => "RDAP lookup failed: "@ + s,
    }
}

impl RdapError {
    /// The message.
    pub fn to_string(&self) -> (s: String)
        ensures
            s@ == message(self@),
    {
        match self {
            RdapError::UnknownTld(t) => "no RDAP service for TLD .".to_owned().concat(t.as_str()),
            RdapError::NoRegistrationEvent => "RDAP response had no registration event".to_owned(),
            RdapError::Lookup(s) => "RDAP lookup failed: ".to_owned().concat(s.as_str()),
        }
    }
}

/// What is known of a lookup's outcome: the registration date or a failure.
pub open spec fn outcome(r: Result<Timestamp, RdapError>) -> Result<Moment, Failure> {
    match r {
        Ok(t) => Ok(t@),
        Err(e) => Err(e@),
    }
}

/// The last label of a domain.
pub open spec fn tld(domain: Seq<char>) -> Seq<char> {
    match text::split_last(domain, '.') {
        Some((_, last)) => last,
        None => domain,
    }
}

/// The last label of a domain.
fn tld_of(domain: &str) -> (r: String)
    ensures
        r@ == tld(domain@),
{
    let chars = text::chars_of(domain);
    match text::split_at_last(&chars, '.') {
        Some((_, last)) => text::string_of(last),
        None => domain.to_owned(),
    }
}

/// The text with a slash at its end.
pub open spec fn with_slash(s: Seq<char>) -> Seq<char> {
    if s.len() > 0 && s.last() == '/' {
        s
    } else {
        s.push('/')
    }
}

/// Puts a slash at the end, unless there is one.
pub fn ensure_trailing_slash(s: &str) -> (r: String)
    ensures
        r@ == with_slash(s@),
{
    let chars = text::chars_of(s);
    let mut r: String = s.to_owned();
    if chars.len() == 0 || chars[chars.len() - 1] != '/' {
        r.push('/');
    }
    r
}

/// Where to ask about `domain`, if `base` is where its registry answers.
pub open spec fn domain_url(base: Seq<char>, domain: Seq<char>) -> Seq<char> {
    with_slash(base) + "domain/"@ + domain
}

/// How `str`'s `Debug` writes a text: quoted and escaped.
pub uninterp spec fn debug_text(s: Seq<char>) -> Seq<char>;

/// `str`'s `Debug`, through `format!`: the result is a function of the text.
/// How characters are escaped is left unsaid.
#[verifier::external_body]
fn debug_of(s: &str) -> (r: String)
    ensures
        r@ == debug_text(s@),
{
    format!("{:?}", s)
}

/// The error for a domain that has no top-level domain; `quoted` is the domain
/// in quotes.
pub fn malformed_domain(quoted: &str) -> (e: RdapError)
    ensures
        e@ == Failure::Lookup("malformed domain "@ + quoted@),
{
    RdapError::Lookup("malformed domain ".to_owned().concat(quoted))
}

/// Why the list of registries could not be had.
pub enum BootstrapFailure {
    /// It could not be fetched.
    Fetch,
    /// What was fetched could not be decoded.
    Decode,
}

/// The message for a list that could not be had.
pub open spec fn bootstrap_message(f: BootstrapFailure) -> Seq<char> {
    match f {
        BootstrapFailure::Fetch => "fetching RDAP bootstrap"@,
        BootstrapFailure::Decode => "decoding RDAP bootstrap"@,
    }
}

/// The registries with those that serve `tlds` at `url`.
pub open spec fn with_tlds(
    registry: Map<Seq<char>, Seq<char>>,
    tlds: Seq<String>,
    url: Seq<char>,
) -> Map<Seq<char>, Seq<char>>
    decreases tlds.len(),
{
    if tlds.len() == 0 {
        registry
    } else {
        with_tlds(registry, tlds.drop_last(), url).insert(text::lower(tlds.last()@), url)
    }
}

/// Where the registry of each top-level domain answers: at the first URL of
/// the last service that names it.
pub open spec fn registry_of(services: Seq<(Vec<String>, Vec<String>)>) -> Map<Seq<char>, Seq<char>>
    decreases services.len(),
{
    if services.len() == 0 {
        Map::empty()
    } else {
        let before = registry_of(services.drop_last());
        let (tlds, urls) = services.last();
        if urls@.len() == 0 {
            before
        } else {
            with_tlds(before, tlds@, urls@[0]@)
        }
    }
}

/// An event in the life of a domain, as a registry reports it.
#[derive(Debug)]
pub struct RdapEvent {
    pub event_action: String,
    pub event_date: Timestamp,
}

/// The date of the first registration among the events.
pub open spec fn registration_event(events: Seq<RdapEvent>) -> Option<Moment>
    decreases events.len(),
{
    if events.len() == 0 {
        None
    } else if text::eq_ignore_case(events[0].event_action@, "registration"@) {
        Some(events[0].event_date@)
    } else {
        registration_event(events.drop_first())
    }
}

/// What a registry answered.
pub enum RdapResponse {
    /// The request failed, for this reason.
    Failed(String),
    /// The status was not one of success.
    Status(String),
    /// The body could not be decoded, for this reason.
    Undecodable(String),
    /// The events that the body lists.
    Events(Vec<RdapEvent>),
}

/// What the answer to a request to `url` says about the registration.
pub open spec fn answer(response: RdapResponse, url: Seq<char>) -> Result<Moment, Failure> {
    match response {
        RdapResponse::Failed(e) => Err(Failure::Lookup("request: "@ + e@)),
        RdapResponse::Status(s) => Err(Failure::Lookup("HTTP "@ + s@ + " from "@ + url)),
        RdapResponse::Undecodable(e) => Err(Failure::Lookup("json decode: "@ + e@)),
        RdapResponse::Events(events) => match registration_event(events@) {
            Some(date) => Ok(date),
            None => Err(Failure::NoRegistrationEvent),
        },
    }
}

/// Reads the answer to a request to `url`.
pub fn lookup(response: RdapResponse, url: &str) -> (r: Result<Timestamp, RdapError>)
    ensures
        outcome(r) == answer(response, url@),
{
    match response {
        RdapResponse::Failed(e) => Err(
            RdapError::Lookup("request: ".to_owned().concat(e.as_str())),
        ),
        RdapResponse::Status(s) => Err(
            RdapError::Lookup(
                "HTTP ".to_owned().concat(s.as_str()).concat(" from ").concat(url),
            ),
        ),
        RdapResponse::Undecodable(e) => Err(
            RdapError::Lookup("json decode: ".to_owned().concat(e.as_str())),
        ),
        RdapResponse::Events(events) => {
            let wanted = text::chars_of("registration");
            let mut i: usize = 0;
            proof {
                assert(events@.skip(0) =~= events@);
            }
            while i < events.len()
                invariant
                    i <= events.len(),
                    wanted@ == "registration"@,
                    response == RdapResponse::Events(events),
                    registration_event(events@) == registration_event(events@.skip(i as int)),
                decreases events.len() - i,
            {
                proof {
                    assert(events@.skip(i as int).drop_first() =~= events@.skip(i + 1));
                }
                let action = text::chars_of(events[i].event_action.as_str());
                if text::same_ignore_case(&action, &wanted) {
                    return Ok(events[i].event_date);
                }
                i += 1;
            }
            Err(RdapError::NoRegistrationEvent)
        },
    }
}

/// What to remember of a lookup that ended at `now`.
pub open spec fn remembered(r: Result<Moment, Failure>, now: Moment) -> Lookup {
    match r {
        Ok(date) => Lookup { registered: Some(date), fetched_at: now, error: None },
        Err(Failure::UnknownTld(_)) => Lookup {
            registered: None,
            fetched_at: now,
            error: Some("unknown_tld"@),
        },
        Err(f) => Lookup { registered: None, fetched_at: now, error: Some(message(f)) },
    }
}

/// What a remembered lookup says about `domain`.
pub open spec fn recalled(l: Lookup, domain: Seq<char>) -> Result<Moment, Failure> {
    match l.registered {
        Some(date) => Ok(date),
        None => match l.error {
            Some(msg) => if msg == "unknown_tld"@ {
                Err(Failure::UnknownTld(tld(domain)))
            } else {
                Err(failure_of(msg))
            },
            None => Err(Failure::NoRegistrationEvent),
        },
    }
}

/// The failure that has this message. A message that no failure has is taken for
/// the reason why a lookup failed.
pub open spec fn failure_of(msg: Seq<char>) -> Failure {
    if msg == message(Failure::NoRegistrationEvent) {
        Failure::NoRegistrationEvent
    } else if text::begins(msg, "RDAP lookup failed: "@) {
        Failure::Lookup(msg.skip("RDAP lookup failed: "@.len() as int))
    } else {
        Failure::Lookup(msg)
    }
}

/// Reads a message.
fn error_of(msg: String) -> (e: RdapError)
    ensures
        e@ == failure_of(msg@),
{
    let chars = text::chars_of(msg.as_str());
    let no_event = text::chars_of("RDAP response had no registration event");
    let prefix = text::chars_of("RDAP lookup failed: ");
    if text::same(&chars, &no_event) {
        RdapError::NoRegistrationEvent
    } else if text::begins_with(&chars, &prefix) {
        proof {
            assert(chars@.subrange(prefix@.len() as int, chars@.len() as int) =~= chars@.skip(
                prefix@.len() as int,
            ));
        }
        RdapError::Lookup(text::string_of(&chars[prefix.len()..chars.len()]))
    } else {
        RdapError::Lookup(msg)
    }
}

/// Makes the entry to remember.
fn entry_for(r: &Result<Timestamp, RdapError>, now: Timestamp) -> (entry: CacheEntry)
    ensures
        entry@ == remembered(outcome(*r), now@),
{
    match r {
        Ok(date) => CacheEntry { registered: Some(*date), fetched_at: now, error: None },
        Err(e) => {
            let error = match e {
                RdapError::UnknownTld(_) => "unknown_tld".to_owned(),
                _ => e.to_string(),
            };
            CacheEntry { registered: None, fetched_at: now, error: Some(error) }
        },
    }
}

/// Reads a remembered entry.
fn recall(entry: CacheEntry, domain: &str) -> (r: Result<Timestamp, RdapError>)
    ensures
        outcome(r) == recalled(entry@, domain@),
{
    match entry.registered {
        Some(date) => Ok(date),
        None => match entry.error {
            Some(msg) => {
                let chars = text::chars_of(msg.as_str());
                let unknown = text::chars_of("unknown_tld");
                if text::same(&chars, &unknown) {
                    Err(RdapError::UnknownTld(tld_of(domain)))
                } else {
                    Err(error_of(msg))
                }
            },
            None => Err(RdapError::NoRegistrationEvent),
        },
    }
}

/// What has to happen next in a lookup.
pub enum RdapAction {
    /// It is over.
    Done(Result<Timestamp, RdapError>),
    /// The list of registries is to be fetched and given to `on_bootstrap`.
    FetchBootstrap,
    /// This URL is to be requested and the answer given to `on_response`.
    Request(String),
}

/// What an `RdapAction` says.
pub enum Step {
    Done(Result<Moment, Failure>),
    FetchBootstrap,
    Request(Seq<char>),
}

impl View for RdapAction {
    type V = Step;

    open spec fn view(&self) -> Step {
        match self {
            RdapAction::Done(r) => Step::Done(outcome(*r)),
            RdapAction::FetchBootstrap => Step::FetchBootstrap,
            RdapAction::Request(url) => Step::Request(url@),
        }
    }
}

/// How a lookup goes on once the registries are known: the registry of the
/// top-level domain is asked, if there is one.
pub open spec fn ask(registry: Map<Seq<char>, Seq<char>>, domain: Seq<char>) -> Step {
    if registry.contains_key(tld(domain)) {
        Step::Request(domain_url(registry[tld(domain)], domain))
    } else {
        Step::Done(Err(Failure::UnknownTld(tld(domain))))
    }
}

/// How a lookup begins that nothing is remembered for.
pub open spec fn first_step(registry: Map<Seq<char>, Seq<char>>, domain: Seq<char>) -> Step {
    if tld(domain).len() == 0 {
        Step::Done(Err(Failure::Lookup("malformed domain "@ + debug_text(domain))))
    } else if registry.is_empty() {
        Step::FetchBootstrap
    } else {
        ask(registry, domain)
    }
}

/// What is remembered after a step: its outcome, if it was the last one.
pub open spec fn noted(
    entries: Map<Seq<char>, Lookup>,
    domain: Seq<char>,
    step: Step,
    now: Moment,
) -> Map<Seq<char>, Lookup> {
    match step {
        Step::Done(r) => entries.insert(domain, remembered(r, now)),
        _ => entries,
    }
}

/// Looks up registration dates.
pub struct RdapClient {
    bootstrap: StringHashMap<String>,
    cache: AgeCache,
}

impl RdapClient {
    /// Where the registry of each top-level domain answers, as far as known.
    pub closed spec fn registry(self) -> Map<Seq<char>, Seq<char>> {
        Map::new(|t: Seq<char>| self.bootstrap@.contains_key(t), |t: Seq<char>| self.bootstrap@[t]@)
    }

    /// What is remembered.
    pub closed spec fn entries(self) -> Map<Seq<char>, Lookup> {
        self.cache.entries()
    }

    /// Whether something is remembered that the cache file does not hold yet.
    pub closed spec fn is_dirty(self) -> bool {
        self.cache.is_dirty()
    }

    /// A client that knows no registries yet.
    pub fn new(cache: AgeCache) -> (client: Self)
        ensures
            client.registry() == Map::<Seq<char>, Seq<char>>::empty(),
            client.entries() == cache.entries(),
            client.is_dirty() == cache.is_dirty(),
    {
        let client = RdapClient { bootstrap: StringHashMap::new(), cache };
        assert(client.registry() =~= Map::<Seq<char>, Seq<char>>::empty());
        client
    }

    /// Begins a lookup. What is remembered and still good answers it.
    pub fn registration_date(&mut self, domain: &str, now: Timestamp) -> (action: RdapAction)
        ensures
            final(self).registry() == old(self).registry(),
            ({
                let entries = old(self).entries();
                if entries.contains_key(domain@) && cache::fresh(entries[domain@], now@) {
                    &&& action@ == Step::Done(recalled(entries[domain@], domain@))
                    &&& final(self).entries() == entries
                    &&& final(self).is_dirty() == old(self).is_dirty()
                } else {
                    &&& action@ == first_step(old(self).registry(), domain@)
                    &&& final(self).entries() == noted(entries, domain@, action@, now@)
                    &&& final(self).is_dirty() == (old(self).is_dirty() || action@ is Done)
                }
            }),
    {
        if let Some(hit) = self.cache.get(domain, now) {
            return RdapAction::Done(recall(hit, domain));
        }
        let tld = tld_of(domain);
        if tld.as_str().is_empty() {
            let quoted = debug_of(domain);
            return self.settle(domain, Err(malformed_domain(quoted.as_str())), now);
        }
        if self.bootstrap.is_empty() {
            assert(self.registry() =~= Map::<Seq<char>, Seq<char>>::empty());
            return RdapAction::FetchBootstrap;
        }
        self.ask_registry(domain, now)
    }

    /// Goes on with the list of registries, or with the reason why it could not
    /// be fetched. A list that is known already is kept.
    pub fn on_bootstrap(
        &mut self,
        domain: &str,
        fetched: Result<Vec<(Vec<String>, Vec<String>)>, BootstrapFailure>,
        now: Timestamp,
    ) -> (action: RdapAction)
        ensures
            match fetched {
                Ok(services) => {
                    let known = old(self).registry();
                    &&& final(self).registry() == if known.is_empty() {
                        registry_of(services@)
                    } else {
                        known
                    }
                    &&& action@ == ask(final(self).registry(), domain@)
                },
                Err(f) => {
                    &&& final(self).registry() == old(self).registry()
                    &&& action@ == Step::Done(Err(Failure::Lookup(bootstrap_message(f))))
                },
            },
            final(self).entries() == noted(old(self).entries(), domain@, action@, now@),
            final(self).is_dirty() == (old(self).is_dirty() || action@ is Done),
    {
        match fetched {
            Ok(services) => {
                if self.bootstrap.is_empty() {
                    self.learn(&services);
                }
                self.ask_registry(domain, now)
            },
            Err(f) => {
                let reason = match f {
                    BootstrapFailure::Fetch => "fetching RDAP bootstrap",
                    BootstrapFailure::Decode => "decoding RDAP bootstrap",
                };
                self.settle(domain, Err(RdapError::Lookup(reason.to_owned())), now)
            },
        }
    }

    /// Ends a lookup with the answer to the request to `url`.
    pub fn on_response(
        &mut self,
        domain: &str,
        url: &str,
        response: RdapResponse,
        now: Timestamp,
    ) -> (action: RdapAction)
        ensures
            final(self).registry() == old(self).registry(),
            action@ == Step::Done(answer(response, url@)),
            final(self).entries() == noted(old(self).entries(), domain@, action@, now@),
            final(self).is_dirty() == (old(self).is_dirty() || action@ is Done),
    {
        self.settle(domain, lookup(response, url), now)
    }

    /// What to write to the cache file, if something is not there yet.
    pub fn flush(&mut self) -> (snapshot: Option<Vec<(String, CacheEntry)>>)
        ensures
            final(self).registry() == old(self).registry(),
            final(self).entries() == old(self).entries(),
            !final(self).is_dirty(),
            match snapshot {
                Some(list) => old(self).is_dirty() && cache::distinct_domains(list@)
                    && cache::lookups(list@) == old(self).entries(),
                None => !old(self).is_dirty(),
            },
    {
        self.cache.flush()
    }

    fn settle(&mut self, domain: &str, r: Result<Timestamp, RdapError>, now: Timestamp) -> (action:
        RdapAction)
        ensures
            final(self).registry() == old(self).registry(),
            action@ == Step::Done(outcome(r)),
            final(self).entries() == noted(old(self).entries(), domain@, action@, now@),
            final(self).is_dirty() == (old(self).is_dirty() || action@ is Done),
    {
        let entry = entry_for(&r, now);
        self.cache.put(domain, entry);
        RdapAction::Done(r)
    }

    fn ask_registry(&mut self, domain: &str, now: Timestamp) -> (action: RdapAction)
        ensures
            final(self).registry() == old(self).registry(),
            action@ == ask(old(self).registry(), domain@),
            final(self).entries() == noted(old(self).entries(), domain@, action@, now@),
            final(self).is_dirty() == (old(self).is_dirty() || action@ is Done),
    {
        let tld = tld_of(domain);
        let url = match self.bootstrap.get(tld.as_str()) {
            Some(base) => Some(
                ensure_trailing_slash(base.as_str()).concat("domain/").concat(domain),
            ),
            None => None,
        };
        match url {
            Some(url) => RdapAction::Request(url),
            None => self.settle(domain, Err(RdapError::UnknownTld(tld)), now),
        }
    }

    /// Takes up the list of registries.
    fn learn(&mut self, services: &Vec<(Vec<String>, Vec<String>)>)
        requires
            old(self).registry().is_empty(),
        ensures
            final(self).registry() == registry_of(services@),
            final(self).cache == old(self).cache,
    {
        let ghost cache = self.cache;
        let mut i: usize = 0;
        proof {
            assert(self.registry() =~= registry_of(services@.take(0)));
        }
        while i < services.len()
            invariant
                i <= services.len(),
                self.cache == cache,
                self.registry() == registry_of(services@.take(i as int)),
            decreases services.len() - i,
        {
            proof {
                assert(services@.take(i + 1).drop_last() =~= services@.take(i as int));
            }
            let tlds = &services[i].0;
            let urls = &services[i].1;
            if urls.len() > 0 {
                let ghost before = self.registry();
                let mut j: usize = 0;
                proof {
                    assert(tlds@.take(0) =~= Seq::<String>::empty());
                }
                while j < tlds.len()
                    invariant
                        j <= tlds.len(),
                        urls@.len() > 0,
                        self.cache == cache,
                        self.registry() == with_tlds(before, tlds@.take(j as int), urls@[0]@),
                    decreases tlds.len() - j,
                {
                    proof {
                        assert(tlds@.take(j + 1).drop_last() =~= tlds@.take(j as int));
                    }
                    let ghost known = self.registry();
                    let chars = text::chars_of(tlds[j].as_str());
                    let key = text::string_of(&text::lower_of(&chars));
                    self.bootstrap.insert(key, urls[0].clone());
                    proof {
                        assert(self.registry() =~= known.insert(key@, urls@[0]@));
                    }
                    j += 1;
                }
                proof {
                    assert(tlds@.take(tlds@.len() as int) =~= tlds@);
                }
            }
            i += 1;
        }
        proof {
            assert(services@.take(services@.len() as int) =~= services@);
        }
    }
}

/// The whole days since the registration.
pub fn age_days(registered: Timestamp, now: Timestamp) -> (days: i64)
    ensures
        days == time::whole_days(time::elapsed(now@, registered@)),
{
    now.days_since(&registered)
}

/// What is remembered comes back as it was: the registration date, or the same
/// failure. For an unknown top-level domain that is the one of the domain.
pub proof fn lookups_are_recalled(r: Result<Moment, Failure>, domain: Seq<char>, now: Moment)
    ensures
        recalled(remembered(r, now), domain) == match r {
            Err(Failure::UnknownTld(_)) => Err(Failure::UnknownTld(tld(domain))),
            _ => r,
        },
{
    reveal_strlit("unknown_tld");
    reveal_strlit("RDAP lookup failed: ");
    reveal_strlit("RDAP response had no registration event");
    let prefix = "RDAP lookup failed: "@;
    assert("unknown_tld"@[0] == 'u');
    assert(prefix[5] == 'l');
    assert("RDAP response had no registration event"@[5] == 'r');
    match r {
        Err(Failure::Lookup(s)) => {
            let msg = message(Failure::Lookup(s));
            assert(msg[0] == 'R' && msg[5] == 'l');
            assert(msg.take(prefix.len() as int) =~= prefix);
            assert(msg.skip(prefix.len() as int) =~= s);
        },
        Err(Failure::NoRegistrationEvent) => {
            assert(message(Failure::NoRegistrationEvent)[0] == 'R');
        },
        _ => {},
    }
}

/// A lookup that has ended answers the next ones for the same domain: for 30
/// days if it found the date, for an hour if it failed, and not longer.
pub proof fn lookup_answers_for_its_time(
    entries: Map<Seq<char>, Lookup>,
    domain: Seq<char>,
    r: Result<Moment, Failure>,
    ended: Moment,
    now: Moment,
)
    ensures
        ({
            let after = noted(entries, domain, Step::Done(r), ended);
            let limit = if r is Ok {
                30 * 24 * 60 * 60 * time::NANOS_PER_SEC
            } else {
                60 * 60 * time::NANOS_PER_SEC
            };
            &&& after.contains_key(domain)
            &&& cache::fresh(after[domain], now) <==> time::elapsed(now, ended) <= limit
        }),
{
}

/// A lookup ends after the list of registries and one request at the most: the
/// list is asked for only at the beginning, and only while no registry is known.
pub proof fn registries_are_asked_for_once(registry: Map<Seq<char>, Seq<char>>, domain: Seq<char>)
    ensures
        ask(registry, domain) !is FetchBootstrap,
        first_step(registry, domain) is FetchBootstrap ==> registry.is_empty(),
{
}

/// The registration date in an answer is that of the first event whose action is
/// "registration", whatever the case of its letters; the other events do not
/// matter. Without such an event there is no date.
pub proof fn date_is_that_of_the_first_registration(events: Seq<RdapEvent>)
    ensures
        match registration_event(events) {
            Some(date) => exists|i: int|
                {
                    &&& 0 <= i < events.len()
                    &&& text::lower((#[trigger] events[i]).event_action@) == "registration"@
                    &&& events[i].event_date@ == date
                    &&& forall|j: int|
                        0 <= j < i ==> text::lower((#[trigger] events[j]).event_action@)
                            != "registration"@
                },
            None => forall|j: int|
                0 <= j < events.len() ==> text::lower((#[trigger] events[j]).event_action@)
                    != "registration"@,
        },
    decreases events.len(),
{
    lemma_registration_is_small();
    if events.len() > 0 {
        let rest = events.drop_first();
        if text::lower(events[0].event_action@) == "registration"@ {
            assert(events[0].event_date@ == registration_event(events)->0);
        } else {
            date_is_that_of_the_first_registration(rest);
            match registration_event(rest) {
                Some(date) => {
                    let k = choose|i: int|
                        {
                            &&& 0 <= i < rest.len()
                            &&& text::lower((#[trigger] rest[i]).event_action@)
                                == "registration"@
                            &&& rest[i].event_date@ == date
                            &&& forall|j: int|
                                0 <= j < i ==> text::lower((#[trigger] rest[j]).event_action@)
                                    != "registration"@
                        };
                    assert(events[k + 1] == rest[k]);
                    assert forall|j: int| 0 <= j < k + 1 implies text::lower(
                        (#[trigger] events[j]).event_action@,
                    ) != "registration"@ by {
                        if j > 0 {
                            assert(events[j] == rest[j - 1]);
                        }
                    }
                },
                None => {
                    assert forall|j: int| 0 <= j < events.len() implies text::lower(
                        (#[trigger] events[j]).event_action@,
                    ) != "registration"@ by {
                        if j > 0 {
                            assert(events[j] == rest[j - 1]);
                        }
                    }
                },
            }
        }
    }
}

proof fn lemma_registration_is_small()
    ensures
        text::lower("registration"@) == "registration"@,
{
    reveal_strlit("registration");
    assert(text::lower("registration"@) =~= "registration"@);
}

/// An answer with events gives the date of the first registration, and fails only
/// for the lack of one; any other answer is a failed lookup.
pub proof fn answer_is_a_date_only_if_it_lists_a_registration(
    response: RdapResponse,
    url: Seq<char>,
)
    ensures
        match response {
            RdapResponse::Events(events) => if exists|i: int|
                0 <= i < events@.len() && text::lower((#[trigger] events@[i]).event_action@)
                    == "registration"@ {
                exists|i: int|
                    {
                        &&& 0 <= i < events@.len()
                        &&& text::lower((#[trigger] events@[i]).event_action@) == "registration"@
                        &&& answer(response, url) == Ok::<Moment, Failure>(
                            events@[i].event_date@,
                        )
                        &&& forall|j: int|
                            0 <= j < i ==> text::lower((#[trigger] events@[j]).event_action@)
                                != "registration"@
                    }
            } else {
                answer(response, url) == Err::<Moment, Failure>(Failure::NoRegistrationEvent)
            },
            _ => answer(response, url) matches Err(Failure::Lookup(_)),
        },
{
    if let RdapResponse::Events(events) = response {
        date_is_that_of_the_first_registration(events@);
    }
}

/// The top-level domain is what follows the last dot.
pub proof fn top_level_domain_follows_the_last_dot(domain: Seq<char>)
    ensures
        domain.contains('.') ==> exists|rest: Seq<char>|
            domain == #[trigger] (rest + seq!['.']) + tld(domain),
        !domain.contains('.') ==> tld(domain) == domain,
        !tld(domain).contains('.'),
{
    text::cut_at_the_last(domain, '.');
    if let Some((a, b)) = text::split_last(domain, '.') {
        assert(domain == (a + seq!['.']) + tld(domain));
        assert(domain[a.len() as int] == '.');
    }
}

/// A domain is asked about at `domain/` and its name, below the address of its
/// registry.
pub proof fn domain_is_asked_about_below_its_registry(base: Seq<char>, domain: Seq<char>)
    ensures
        domain_url(base.push('/'), domain) == base.push('/') + "domain/"@ + domain,
        base.len() == 0 || base.last() != '/' ==> domain_url(base, domain) == base.push('/')
            + "domain/"@ + domain,
{
}

/// A top-level domain is asked about at the first address of the last service
/// that lists it, whatever the case of the letters there.
pub proof fn registry_is_that_of_the_last_service_that_lists_the_domain(
    services: Seq<(Vec<String>, Vec<String>)>,
    i: int,
    j: int,
)
    requires
        0 <= i < services.len(),
        services[i].1@.len() > 0,
        0 <= j < services[i].0@.len(),
        forall|k: int, l: int|
            #![trigger services[k].0@[l]]
            i < k < services.len() && services[k].1@.len() > 0 && 0 <= l < services[k].0@.len()
                ==> text::lower(services[k].0@[l]@) != text::lower(services[i].0@[j]@),
    ensures
        registry_of(services).contains_key(text::lower(services[i].0@[j]@)),
        registry_of(services)[text::lower(services[i].0@[j]@)] == services[i].1@[0]@,
    decreases services.len(),
{
    let t = text::lower(services[i].0@[j]@);
    let before = registry_of(services.drop_last());
    let (tlds, urls) = services.last();
    if i == services.len() - 1 {
        lemma_with_tlds(before, tlds@, urls@[0]@, t);
        assert(text::lower(tlds@[j]@) == t);
    } else {
        let init = services.drop_last();
        assert forall|k: int, l: int|
            #![trigger init[k].0@[l]]
            i < k < init.len() && init[k].1@.len() > 0 && 0 <= l < init[k].0@.len() implies text::lower(
            init[k].0@[l]@,
        ) != text::lower(init[i].0@[j]@) by {
            assert(init[k] == services[k]);
            assert(text::lower(services[k].0@[l]@) != text::lower(services[i].0@[j]@));
        }
        registry_is_that_of_the_last_service_that_lists_the_domain(init, i, j);
        if urls@.len() > 0 {
            lemma_with_tlds(before, tlds@, urls@[0]@, t);
            assert forall|l: int| 0 <= l < tlds@.len() implies text::lower(
                (#[trigger] tlds@[l])@,
            ) != t by {
                assert(services[services.len() - 1].0@[l] == tlds@[l]);
            }
        }
    }
}

/// A top-level domain that no service with an address lists has no registry.
pub proof fn unlisted_domain_has_no_registry(
    services: Seq<(Vec<String>, Vec<String>)>,
    t: Seq<char>,
)
    requires
        forall|k: int, l: int|
            #![trigger services[k].0@[l]]
            0 <= k < services.len() && services[k].1@.len() > 0 && 0 <= l
                < services[k].0@.len() ==> text::lower(services[k].0@[l]@) != t,
    ensures
        !registry_of(services).contains_key(t),
        ask(registry_of(services), t) == Step::Done(Err(Failure::UnknownTld(tld(t))))
            || t.contains('.'),
    decreases services.len(),
{
    top_level_domain_follows_the_last_dot(t);
    if services.len() > 0 {
        let init = services.drop_last();
        assert forall|k: int, l: int|
            #![trigger init[k].0@[l]]
            0 <= k < init.len() && init[k].1@.len() > 0 && 0 <= l < init[k].0@.len() implies text::lower(
            init[k].0@[l]@,
        ) != t by {
            assert(init[k] == services[k]);
            assert(text::lower(services[k].0@[l]@) != t);
        }
        unlisted_domain_has_no_registry(init, t);
        let (tlds, urls) = services.last();
        if urls@.len() > 0 {
            lemma_with_tlds(registry_of(init), tlds@, urls@[0]@, t);
            assert forall|l: int| 0 <= l < tlds@.len() implies text::lower(
                (#[trigger] tlds@[l])@,
            ) != t by {
                assert(services[services.len() - 1].0@[l] == tlds@[l]);
            }
        }
    }
}

/// What the domains of one service do to the registries.
proof fn lemma_with_tlds(
    registry: Map<Seq<char>, Seq<char>>,
    tlds: Seq<String>,
    url: Seq<char>,
    t: Seq<char>,
)
    ensures
        (exists|l: int| 0 <= l < tlds.len() && text::lower((#[trigger] tlds[l])@) == t) ==> (
        with_tlds(registry, tlds, url).contains_key(t) && with_tlds(registry, tlds, url)[t]
            == url),
        (forall|l: int| 0 <= l < tlds.len() ==> text::lower((#[trigger] tlds[l])@) != t) ==> (
        with_tlds(registry, tlds, url).contains_key(t) == registry.contains_key(t)
            && with_tlds(registry, tlds, url)[t] == registry[t]),
    decreases tlds.len(),
{
    if tlds.len() > 0 {
        let init = tlds.drop_last();
        lemma_with_tlds(registry, init, url, t);
        assert(forall|l: int| 0 <= l < init.len() ==> init[l] == tlds[l]);
        if exists|l: int| 0 <= l < tlds.len() && text::lower((#[trigger] tlds[l])@) == t {
            let l = choose|l: int| 0 <= l < tlds.len() && text::lower((#[trigger] tlds[l])@) == t;
            if l < init.len() {
                assert(text::lower(init[l]@) == t);
            }
        } else {
            assert(text::lower(tlds[tlds.len() - 1]@) != t);
        }
    }
}

/// A lookup that nothing good is remembered for begins with the registries, if
/// none is known, and with the registry of the domain otherwise.
pub proof fn lookup_asks_the_registry_of_the_domain(
    registry: Map<Seq<char>, Seq<char>>,
    rest: Seq<char>,
    t: Seq<char>,
)
    requires
        t.len() > 0,
        !t.contains('.'),
    ensures
        ({
            let domain = rest + seq!['.'] + t;
            &&& registry.is_empty() ==> first_step(registry, domain) is FetchBootstrap
            &&& registry.contains_key(t) ==> first_step(registry, domain) == Step::Request(
                domain_url(registry[t], domain),
            ) && ask(registry, domain) == Step::Request(domain_url(registry[t], domain))
            &&& !registry.is_empty() && !registry.contains_key(t) ==> first_step(registry, domain)
                == Step::Done(Err(Failure::UnknownTld(t)))
        }),
{
    let domain = rest + seq!['.'] + t;
    text::last_cut_is_where_the_tail_is_free(rest, t, '.');
    assert(tld(domain) == t);
    if registry.contains_key(t) {
        assert(!registry.is_empty());
    }
}

/// The outcome of a lookup is noted under its domain when it is over, and not
/// before; what is noted about other domains stays.
pub proof fn outcome_is_noted_under_its_domain(
    entries: Map<Seq<char>, Lookup>,
    domain: Seq<char>,
    other: Seq<char>,
    step: Step,
    now: Moment,
)
    requires
        other != domain,
    ensures
        ({
            let after = noted(entries, domain, step, now);
            &&& step !is Done ==> after == entries
            &&& after.contains_key(other) == entries.contains_key(other)
            &&& entries.contains_key(other) ==> after[other] == entries[other]
            &&& step matches Step::Done(r) ==> after.contains_key(domain)
                && after[domain].fetched_at == now && match r {
                Ok(date) => after[domain].registered == Some(date) && after[domain].error is None,
                Err(Failure::UnknownTld(_)) => after[domain].registered is None
                    && after[domain].error == Some("unknown_tld"@),
                Err(Failure::NoRegistrationEvent) => after[domain].registered is None
                    && after[domain].error == Some("RDAP response had no registration event"@),
                Err(Failure::Lookup(reason)) => after[domain].registered is None
                    && after[domain].error == Some("RDAP lookup failed: "@ + reason),
            }
        }),
{
}

/// A domain that ends in a dot, or is empty, is not asked about.
pub proof fn domain_without_a_last_label_is_malformed(
    registry: Map<Seq<char>, Seq<char>>,
    rest: Seq<char>,
)
    ensures
        first_step(registry, rest.push('.')) matches Step::Done(Err(Failure::Lookup(_))),
        first_step(registry, Seq::empty()) matches Step::Done(Err(Failure::Lookup(_))),
{
    let none = Seq::<char>::empty();
    text::last_cut_is_where_the_tail_is_free(rest, none, '.');
    assert(rest + seq!['.'] + none =~= rest.push('.'));
    assert(text::split_last(none, '.') is None);
}

} // verus!
