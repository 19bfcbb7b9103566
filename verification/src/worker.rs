//! What to do with a message: the decision when it arrives, and the later
//! attempts for one that could not be decided.
//!
//! Fetching messages, looking up domains and moving mail happen outside; each
//! function here goes on with what was found.
use crate::config::Config;
use crate::dkim::{self, Verdict};
use crate::domain::psl::{self, Psl, Rules};
use crate::domain::rdap::{self, Failure, RdapError};
use crate::jmap::EmailFacts;
use crate::policy;
use crate::retry::{self, RetryEntry, RetryQueue, Waiting};
use crate::text::{self, CharClass};
use crate::time::{self, Moment, Timestamp};
use vstd::prelude::*;

verus! {

/// The domain of an address: what follows the last `@`, without whitespace and
/// closing angle brackets around it, in small letters.
pub open spec fn address_domain(addr: Seq<char>) -> Option<Seq<char>> {
    match text::split_last(addr, '@') {
        Some((_, d)) => Some(text::lower(text::strip(text::trimmed(d), CharClass::Only('>')))),
        None => None,
    }
}

/// Reads the domain off an address.
pub fn domain_of_email(addr: &str) -> (domain: Option<String>)
    ensures
        match domain {
            Some(d) => address_domain(addr@) == Some(d@),
            None => address_domain(addr@) is None,
        },
{
    let chars = text::chars_of(addr);
    match text::split_at_last(&chars, '@') {
        Some((_, d)) => {
            let bare = text::lower_of(text::strip_of(text::trim(d), &CharClass::Only('>')));
            Some(text::string_of(&bare))
        },
        None => None,
    }
}

/// The first address of a message.
pub open spec fn sender(facts: EmailFacts) -> Option<Seq<char>> {
    if facts.from_addresses@.len() > 0 {
        Some(facts.from_addresses@[0]@)
    } else {
        None
    }
}

/// The registrable domain of the sender's address.
pub open spec fn sender_registrable(facts: EmailFacts, rules: Rules) -> Option<Seq<char>> {
    match sender(facts) {
        Some(addr) => match address_domain(addr) {
            Some(d) => psl::registrable(rules, d),
            None => None,
        },
        None => None,
    }
}

/// Which of the signing domains have the registrable domain `from`.
pub open spec fn alignment(
    domains: Seq<Seq<char>>,
    from: Option<Seq<char>>,
    rules: Rules,
) -> Seq<bool> {
    Seq::new(
        domains.len(),
        |i: int| dkim::same_registrable(psl::registrable(rules, domains[i]), from),
    )
}

/// The domain to look up for a signing domain: its registrable domain, or else
/// itself.
pub open spec fn lookup_domain(signing_domain: Seq<char>, rules: Rules) -> Seq<char> {
    match psl::registrable(rules, signing_domain) {
        Some(d) => d,
        None => signing_domain,
    }
}

/// What a message turns out to be.
pub enum Finding {
    /// There is no such message.
    NotFound,
    /// It is not in the inbox.
    NotInInbox,
    /// It has no verified signature.
    Unsigned,
    /// It was signed by this domain.
    Signed { signing_domain: Seq<char>, aligned: bool, registrable: Seq<char> },
}

/// What a message turns out to be, if these are the facts about it.
pub open spec fn finding(
    facts: Option<EmailFacts>,
    inbox_id: Seq<char>,
    trusted: Seq<String>,
    rules: Rules,
) -> Finding {
    match facts {
        None => Finding::NotFound,
        Some(f) => {
            let domains = dkim::verified_domains(f.auth_results_headers@, trusted);
            if !f.is_in(inbox_id) {
                Finding::NotInInbox
            } else if domains.len() == 0 {
                Finding::Unsigned
            } else {
                let aligned = alignment(domains, sender_registrable(f, rules), rules);
                let k = choose|k: int| dkim::preferred(aligned, k);
                Finding::Signed {
                    signing_domain: domains[k],
                    aligned: aligned[k],
                    registrable: lookup_domain(domains[k], rules),
                }
            }
        },
    }
}

/// Whether a domain that was registered at `registered` is too young at `now`.
pub open spec fn too_young(registered: Moment, max_age_days: int, now: Moment) -> bool {
    time::whole_days(time::elapsed(now, registered)) < max_age_days
}

/// What becomes of a message.
pub enum Fate {
    /// Nothing: it is not there, or not in the inbox.
    Ignored,
    /// It goes into the quarantine mailbox.
    Quarantined,
    /// It stays in the inbox.
    Kept,
    /// It stays in the inbox, undecided: the domain could not be looked up.
    Deferred,
}

/// What becomes of a signed message in the inbox, by what the lookup of its
/// domain gave.
pub open spec fn judged(
    registration: Result<Moment, Failure>,
    max_age_days: int,
    now: Moment,
) -> Fate {
    match registration {
        Ok(t) => if too_young(t, max_age_days, now) {
            Fate::Quarantined
        } else {
            Fate::Kept
        },
        Err(_) => Fate::Deferred,
    }
}

/// What becomes of a message, if its domain, where there is one to look up, has
/// this registration date.
pub open spec fn fate(
    f: Finding,
    registration: Result<Moment, Failure>,
    max_age_days: int,
    now: Moment,
) -> Fate {
    match f {
        Finding::NotFound => Fate::Ignored,
        Finding::NotInInbox => Fate::Ignored,
        Finding::Unsigned => Fate::Quarantined,
        Finding::Signed { .. } => judged(registration, max_age_days, now),
    }
}

/// A message that was signed.
pub struct SignedMail {
    /// The first address in `From:`.
    pub from: Option<String>,
    pub verdict: Verdict,
    /// The domain to look up.
    pub registrable: String,
}

/// What to do about a message.
pub enum Assessment {
    /// Nothing: there is no such message.
    NotFound,
    /// Nothing: it is not in the inbox.
    NotInInbox,
    /// Move it to the quarantine mailbox. `from` is the first address in `From:`.
    Unsigned { from: Option<String> },
    /// Look up the domain.
    Signed(SignedMail),
}

impl View for Assessment {
    type V = Finding;

    open spec fn view(&self) -> Finding {
        match self {
            Assessment::NotFound => Finding::NotFound,
            Assessment::NotInInbox => Finding::NotInInbox,
            Assessment::Unsigned { .. } => Finding::Unsigned,
            Assessment::Signed(mail) => Finding::Signed {
                signing_domain: mail.verdict.signing_domain@,
                aligned: mail.verdict.aligned,
                registrable: mail.registrable@,
            },
        }
    }
}

impl Assessment {
    /// The address that is reported with the assessment.
    pub open spec fn reported_from(self) -> Option<Option<String>> {
        match self {
            Assessment::NotFound => None,
            Assessment::NotInInbox => None,
            Assessment::Unsigned { from } => Some(from),
            Assessment::Signed(mail) => Some(mail.from),
        }
    }
}

/// What was decided about a signed message.
pub enum Conclusion {
    /// The domain could not be looked up, for this reason; the message waits for
    /// another attempt.
    Deferred { error: String },
    /// The domain has this age; the message is to be moved or stays.
    Evaluated { age_days: i64, quarantine: bool },
}

impl Conclusion {
    /// What becomes of the message.
    pub open spec fn fate(self) -> Fate {
        match self {
            Conclusion::Deferred { .. } => Fate::Deferred,
            Conclusion::Evaluated { quarantine, .. } => if quarantine {
                Fate::Quarantined
            } else {
                Fate::Kept
            },
        }
    }
}

/// What fetching a message gave.
pub enum Fetched {
    Found(EmailFacts),
    NotFound,
    Failed,
}

/// What to do about a message that is due for another attempt.
#[derive(Debug, PartialEq, Eq, Structural, Clone, Copy)]
pub enum Recheck {
    /// There is no such message any more: it was dropped from the queue.
    Gone,
    /// It left the inbox: it was dropped from the queue.
    Moved,
    /// It could not be fetched: it stays in the queue.
    Unreachable,
    /// Look up the domain.
    LookUp,
}

/// What another attempt led to.
#[derive(Debug, PartialEq, Eq, Structural, Clone, Copy)]
pub enum Resolution {
    /// The domain is old enough: the message was dropped from the queue.
    Keep { age_days: i64 },
    /// The domain is too young: the message is to be moved.
    Quarantine { age_days: i64 },
    /// The last attempt failed: the message was dropped from the queue.
    Exhausted,
    /// The attempt failed: the message waits for the next one.
    Backoff { attempts: u64 },
}

impl Resolution {
    /// What becomes of the message.
    pub open spec fn fate(self) -> Fate {
        match self {
            Resolution::Keep { .. } => Fate::Kept,
            Resolution::Quarantine { .. } => Fate::Quarantined,
            Resolution::Exhausted => Fate::Deferred,
            Resolution::Backoff { .. } => Fate::Deferred,
        }
    }
}

/// The error that is noted when an attempt fails.
pub open spec fn failed_attempt() -> Seq<char> {
    "rdap_failed"@
}

/// What is known at the start and does not change.
pub struct Worker {
    pub cfg: Config,
    pub inbox_id: String,
    pub psl: Psl,
}

impl Worker {
    /// Decides what to do about a message, given the facts about it.
    pub fn assess(&self, facts: Option<EmailFacts>) -> (a: Assessment)
        ensures
            a@ == finding(
                facts,
                self.inbox_id@,
                self.cfg.trusted_authserv_ids@,
                self.psl@,
            ),
            match a.reported_from() {
                Some(from) => facts is Some && match from {
                    Some(s) => sender(facts->0) == Some(s@),
                    None => sender(facts->0) is None,
                },
                None => true,
            },
    {
        let facts = match facts {
            Some(facts) => facts,
            None => {
                return Assessment::NotFound;
            },
        };
        if !facts.in_mailbox(&self.inbox_id) {
            return Assessment::NotInInbox;
        }
        let from = if facts.from_addresses.len() > 0 {
            Some(facts.from_addresses[0].clone())
        } else {
            None
        };
        let from_domain = match &from {
            Some(addr) => domain_of_email(addr.as_str()),
            None => None,
        };
        let from_registrable = match &from_domain {
            Some(d) => self.psl.registrable_domain(d.as_str()),
            None => None,
        };
        let from_text = match &from_registrable {
            Some(d) => Some(d.as_str()),
            None => None,
        };
        let psl = &self.psl;
        let eltd1 = |d: &str| -> (r: Option<String>)
            ensures
                match r {
                    Some(reg) => psl::registrable(psl@, d@) == Some(reg@),
                    None => psl::registrable(psl@, d@) is None,
                },
            { psl.registrable_domain(d) };
        let verdict = dkim::extract_verified_domain(
            &facts.auth_results_headers,
            &self.cfg.trusted_authserv_ids,
            from_text,
            eltd1,
        );
        proof {
            let domains = dkim::verified_domains(
                facts.auth_results_headers@,
                self.cfg.trusted_authserv_ids@,
            );
            let from_reg = sender_registrable(facts, self.psl@);
            assert(dkim::text_of(from_text) == from_reg);
            let flags = choose|flags: Seq<bool>|
                dkim::chosen(verdict, domains, flags) && #[trigger] dkim::all_answered(
                    eltd1,
                    domains,
                    from_reg,
                    flags,
                );
            assert(flags =~= alignment(domains, from_reg, self.psl@)) by {
                assert forall|i: int| 0 <= i < flags.len() implies flags[i] == alignment(
                    domains,
                    from_reg,
                    self.psl@,
                )[i] by {
                    assert(dkim::answered(eltd1, domains[i], from_reg, flags[i]));
                }
            }
            if verdict is Some {
                let v = verdict->0;
                let k = choose|k: int| #[trigger]
                    dkim::preferred(flags, k) && v.signing_domain@ == domains[k] && v.aligned
                        == flags[k];
                let l = choose|l: int| dkim::preferred(flags, l);
                lemma_preferred_is_unique(flags, k, l);
            }
        }
        match verdict {
            Some(verdict) => {
                let registrable = match self.psl.registrable_domain(
                    verdict.signing_domain.as_str(),
                ) {
                    Some(d) => d,
                    None => verdict.signing_domain.clone(),
                };
                Assessment::Signed(SignedMail { from, verdict, registrable })
            },
            None => Assessment::Unsigned { from },
        }
    }

    /// Decides about a signed message, given what the lookup of its domain gave.
    /// If that failed, the message is put into the queue.
    pub fn conclude(
        &self,
        id: &str,
        mail: &SignedMail,
        registration: Result<Timestamp, RdapError>,
        now: Timestamp,
        queue: &mut RetryQueue,
    ) -> (c: Conclusion)
        requires
            registration is Err ==> time::representable(
                time::later_by(now@, old(queue).base().effective()),
            ),
        ensures
            c.fate() == fate(
                Assessment::Signed(*mail)@,
                rdap::outcome(registration),
                self.cfg.max_domain_age_days as int,
                now@,
            ),
            match rdap::outcome(registration) {
                Ok(t) => {
                    &&& c matches Conclusion::Evaluated { age_days, quarantine }
                    &&& age_days == time::whole_days(time::elapsed(now@, t))
                    &&& quarantine == too_young(t, self.cfg.max_domain_age_days as int, now@)
                    &&& quarantine == (age_days < self.cfg.max_domain_age_days)
                    &&& *final(queue) == *old(queue)
                },
                Err(f) => {
                    &&& c matches Conclusion::Deferred { error }
                    &&& error@ == rdap::message(f)
                    &&& final(queue).list() == retry::without(old(queue).list(), id@).push(
                        retry::fresh_entry(
                            id@,
                            mail.registrable@,
                            rdap::message(f),
                            old(queue).base(),
                            now@,
                        ),
                    )
                    &&& final(queue).base() == old(queue).base()
                    &&& final(queue).max() == old(queue).max()
                    &&& final(queue).is_changed()
                },
            },
    {
        match registration {
            Ok(registered) => {
                let age_days: i64 = rdap::age_days(registered, now);
                let quarantine = policy::should_quarantine(age_days, self.cfg.max_domain_age_days);
                Conclusion::Evaluated { age_days, quarantine }
            },
            Err(e) => {
                let error = e.to_string();
                queue.enqueue(id.to_owned(), mail.registrable.clone(), error.clone(), now);
                Conclusion::Deferred { error }
            },
        }
    }

    /// Begins another attempt for a message, given what fetching it gave. A
    /// message that is no longer in the inbox is dropped from the queue.
    pub fn recheck(&self, id: &str, fetched: Fetched, queue: &mut RetryQueue) -> (r: Recheck)
        ensures
            final(queue).base() == old(queue).base(),
            final(queue).max() == old(queue).max(),
            r == rechecked(fetched, self.inbox_id@),
            final(queue).list() == if leaves_early(r) {
                retry::without(old(queue).list(), id@)
            } else {
                old(queue).list()
            },
            final(queue).is_changed() == (old(queue).is_changed() || final(queue).list().len()
                != old(queue).list().len()),
    {
        match fetched {
            Fetched::Failed => Recheck::Unreachable,
            Fetched::NotFound => {
                queue.remove(id);
                Recheck::Gone
            },
            Fetched::Found(facts) => {
                if facts.in_mailbox(&self.inbox_id) {
                    Recheck::LookUp
                } else {
                    queue.remove(id);
                    Recheck::Moved
                }
            },
        }
    }

    /// Goes on with an attempt, given what the lookup of the domain gave. The
    /// decision is the one that the first look at the message would have led to.
    pub fn resolve(
        &self,
        entry: &RetryEntry,
        registration: Result<Timestamp, RdapError>,
        now: Timestamp,
        queue: &mut RetryQueue,
    ) -> (r: Resolution)
        requires
            registration is Err ==> retry::can_be_bumped(
                old(queue).list(),
                entry.id@,
                old(queue).base()@,
                old(queue).max(),
                now@,
            ),
        ensures
            final(queue).base() == old(queue).base(),
            final(queue).max() == old(queue).max(),
            r.fate() == judged(
                rdap::outcome(registration),
                self.cfg.max_domain_age_days as int,
                now@,
            ),
            final(queue).list() == resolved(
                old(queue).list(),
                entry.id@,
                rdap::outcome(registration),
                self.cfg.max_domain_age_days as int,
                old(queue).base()@,
                old(queue).max(),
                now@,
            ),
            match rdap::outcome(registration) {
                Ok(t) => {
                    let age = time::whole_days(time::elapsed(now@, t));
                    if too_young(t, self.cfg.max_domain_age_days as int, now@) {
                        &&& r matches Resolution::Quarantine { age_days }
                        &&& age_days == age
                        &&& age_days < self.cfg.max_domain_age_days
                        &&& *final(queue) == *old(queue)
                    } else {
                        &&& r matches Resolution::Keep { age_days }
                        &&& age_days == age
                        &&& age_days >= self.cfg.max_domain_age_days
                        &&& final(queue).is_changed() == (old(queue).is_changed()
                            || final(queue).list().len() != old(queue).list().len())
                    }
                },
                Err(_) => {
                    let outcome = retry::bump_outcome(
                        old(queue).list(),
                        entry.id@,
                        old(queue).max(),
                    );
                    &&& r == if outcome is Exhausted {
                        Resolution::Exhausted
                    } else {
                        Resolution::Backoff { attempts: (entry.attempts + 1) as u64 }
                    }
                    &&& final(queue).is_changed() == (old(queue).is_changed() || outcome
                        !is Missing)
                },
            },
    {
        match registration {
            Ok(registered) => {
                let age_days: i64 = rdap::age_days(registered, now);
                if policy::should_quarantine(age_days, self.cfg.max_domain_age_days) {
                    Resolution::Quarantine { age_days }
                } else {
                    queue.remove(entry.id.as_str());
                    Resolution::Keep { age_days }
                }
            },
            Err(_) => {
                if queue.bump(entry.id.as_str(), "rdap_failed".to_owned(), now) {
                    Resolution::Exhausted
                } else {
                    Resolution::Backoff { attempts: entry.attempts as u64 + 1 }
                }
            },
        }
    }

    /// Ends an attempt after which the message was to be moved. If it could not
    /// be, it stays in the queue.
    pub fn after_move(&self, id: &str, moved: bool, queue: &mut RetryQueue)
        ensures
            final(queue).base() == old(queue).base(),
            final(queue).max() == old(queue).max(),
            final(queue).list() == if moved {
                retry::without(old(queue).list(), id@)
            } else {
                old(queue).list()
            },
            final(queue).is_changed() == (old(queue).is_changed() || final(queue).list().len()
                != old(queue).list().len()),
    {
        if moved {
            queue.remove(id);
        }
    }
}

/// Two numbers that are both preferred are the same.
proof fn lemma_preferred_is_unique(aligned: Seq<bool>, k: int, l: int)
    requires
        dkim::preferred(aligned, k),
        dkim::preferred(aligned, l),
    ensures
        k == l,
{
    assert(aligned[k] || !aligned[k]);
    assert(aligned[l] || !aligned[l]);
}

/// What to do about a message that is due for another attempt.
pub open spec fn rechecked(fetched: Fetched, inbox_id: Seq<char>) -> Recheck {
    match fetched {
        Fetched::Failed => Recheck::Unreachable,
        Fetched::NotFound => Recheck::Gone,
        Fetched::Found(facts) => if facts.is_in(inbox_id) {
            Recheck::LookUp
        } else {
            Recheck::Moved
        },
    }
}

/// Whether the message leaves the queue without a lookup.
pub open spec fn leaves_early(r: Recheck) -> bool {
    r == Recheck::Gone || r == Recheck::Moved
}

/// The queue after the lookup of another attempt.
pub open spec fn resolved(
    list: Seq<Waiting>,
    id: Seq<char>,
    registration: Result<Moment, Failure>,
    max_age_days: int,
    base: nat,
    max_attempts: nat,
    now: Moment,
) -> Seq<Waiting> {
    match registration {
        Ok(t) => if too_young(t, max_age_days, now) {
            list
        } else {
            retry::without(list, id)
        },
        Err(_) => retry::bumped(list, id, failed_attempt(), base, max_attempts, now),
    }
}

/// A message is left alone exactly if it is not in the inbox.
pub proof fn only_inbox_mail_is_touched(
    facts: Option<EmailFacts>,
    inbox_id: Seq<char>,
    trusted: Seq<String>,
    rules: Rules,
    registration: Result<Moment, Failure>,
    max_age_days: int,
    now: Moment,
)
    ensures
        fate(finding(facts, inbox_id, trusted, rules), registration, max_age_days, now) is Ignored
            <==> (facts is None || forall|i: int|
            0 <= i < (facts->0).mailbox_ids@.len() ==> (#[trigger] (facts->0).mailbox_ids@[i])@
                != inbox_id),
{
}

/// A message goes into quarantine exactly if it is in the inbox, and either has
/// no verified signature, or its domain is known to be too young.
pub proof fn unsigned_and_young_mail_is_quarantined(
    facts: Option<EmailFacts>,
    inbox_id: Seq<char>,
    trusted: Seq<String>,
    rules: Rules,
    registration: Result<Moment, Failure>,
    max_age_days: int,
    now: Moment,
)
    ensures
        fate(finding(facts, inbox_id, trusted, rules), registration, max_age_days, now)
            is Quarantined <==> {
            &&& facts is Some
            &&& exists|i: int|
                0 <= i < (facts->0).mailbox_ids@.len() && (#[trigger] (facts->0).mailbox_ids@[i])@
                    == inbox_id
            &&& dkim::verified_domains((facts->0).auth_results_headers@, trusted).len() == 0 || (
            registration is Ok && time::whole_days(time::elapsed(now, registration->Ok_0))
                < max_age_days)
        },
{
}

/// A message is deferred exactly if it is in the inbox, has a verified
/// signature, and its domain could not be looked up.
pub proof fn mail_waits_for_the_lookup(
    facts: Option<EmailFacts>,
    inbox_id: Seq<char>,
    trusted: Seq<String>,
    rules: Rules,
    registration: Result<Moment, Failure>,
    max_age_days: int,
    now: Moment,
)
    ensures
        fate(finding(facts, inbox_id, trusted, rules), registration, max_age_days, now) is Deferred
            <==> {
            &&& facts is Some
            &&& exists|i: int|
                0 <= i < (facts->0).mailbox_ids@.len() && (#[trigger] (facts->0).mailbox_ids@[i])@
                    == inbox_id
            &&& dkim::verified_domains((facts->0).auth_results_headers@, trusted).len() > 0
            &&& registration is Err
        },
{
}

/// The domain that a message is judged by is one of its verified signing
/// domains, and an aligned one if there is any.
pub proof fn mail_is_judged_by_a_verified_domain(
    facts: EmailFacts,
    inbox_id: Seq<char>,
    trusted: Seq<String>,
    rules: Rules,
)
    ensures
        match finding(Some(facts), inbox_id, trusted, rules) {
            Finding::Signed { signing_domain, aligned, registrable } => {
                let domains = dkim::verified_domains(facts.auth_results_headers@, trusted);
                let flags = alignment(domains, sender_registrable(facts, rules), rules);
                &&& domains.contains(signing_domain)
                &&& aligned == flags.contains(true)
                &&& aligned == dkim::same_registrable(
                    psl::registrable(rules, signing_domain),
                    sender_registrable(facts, rules),
                )
                &&& registrable == lookup_domain(signing_domain, rules)
            },
            _ => true,
        },
{
    let domains = dkim::verified_domains(facts.auth_results_headers@, trusted);
    let flags = alignment(domains, sender_registrable(facts, rules), rules);
    if domains.len() > 0 {
        lemma_some_is_preferred(flags, flags.len());
        let k = choose|k: int| dkim::preferred(flags, k);
        assert(dkim::preferred(flags, k));
        assert(domains[k] == domains[k] && flags[k] == flags[k]);
        assert(domains.contains(domains[k]));
        if flags[k] {
            assert(flags.contains(true));
        } else {
            assert(!flags.contains(true)) by {
                if flags.contains(true) {
                    let j = choose|j: int| 0 <= j < flags.len() && flags[j] == true;
                    assert(!flags[j]);
                }
            }
        }
    }
}

/// Among the flags there is one that is preferred.
proof fn lemma_some_is_preferred(aligned: Seq<bool>, n: nat)
    requires
        0 < n == aligned.len(),
    ensures
        exists|k: int| dkim::preferred(aligned, k),
{
    lemma_first_true(aligned, n);
    if exists|j: int| 0 <= j < n && #[trigger] aligned[j] {
        let k = choose|k: int|
            0 <= k < n && #[trigger] aligned[k] && forall|j: int|
                0 <= j < k ==> !#[trigger] aligned[j];
        assert(dkim::preferred(aligned, k));
    } else {
        assert(dkim::preferred(aligned, 0));
    }
}

/// If some flag among the first `n` is set, there is a first one.
proof fn lemma_first_true(aligned: Seq<bool>, n: nat)
    requires
        n <= aligned.len(),
    ensures
        (exists|j: int| 0 <= j < n && #[trigger] aligned[j]) ==> (exists|k: int|
            0 <= k < n && #[trigger] aligned[k] && forall|j: int|
                0 <= j < k ==> !#[trigger] aligned[j]),
    decreases n,
{
    if n > 0 {
        lemma_first_true(aligned, (n - 1) as nat);
        if exists|j: int| 0 <= j < n - 1 && #[trigger] aligned[j] {
            let k = choose|k: int|
                0 <= k < n - 1 && #[trigger] aligned[k] && forall|j: int|
                    0 <= j < k ==> !#[trigger] aligned[j];
            assert(aligned[k]);
        } else if aligned[n - 1] {
            assert(forall|j: int| 0 <= j < n - 1 ==> !#[trigger] aligned[j]);
        }
    }
}

/// A header that no trusted server wrote changes nothing about a message.
pub proof fn forged_header_changes_nothing(
    with: EmailFacts,
    without: EmailFacts,
    before: Seq<String>,
    forged: String,
    after: Seq<String>,
    inbox_id: Seq<char>,
    trusted: Seq<String>,
    rules: Rules,
)
    requires
        with.mailbox_ids == without.mailbox_ids,
        with.from_addresses == without.from_addresses,
        with.auth_results_headers@ == before.push(forged) + after,
        without.auth_results_headers@ == before + after,
        match dkim::authserv_id(forged@) {
            Some(authserv) => !dkim::trusted_by_any(trusted, authserv),
            None => true,
        },
    ensures
        finding(Some(with), inbox_id, trusted, rules) == finding(
            Some(without),
            inbox_id,
            trusted,
            rules,
        ),
{
    dkim::untrusted_header_is_ignored(before, forged, after, trusted);
}

/// Outside leap seconds, a domain that was registered earlier fares no worse.
pub proof fn older_domain_fares_no_worse(
    older: Moment,
    younger: Moment,
    max_age_days: int,
    now: Moment,
)
    requires
        0 <= older.nanos < time::NANOS_PER_SEC,
        0 <= younger.nanos < time::NANOS_PER_SEC,
        0 <= now.nanos < time::NANOS_PER_SEC,
        time::not_after(older, younger),
    ensures
        too_young(older, max_age_days, now) ==> too_young(younger, max_age_days, now),
{
    lemma_whole_days_grow(time::elapsed(now, younger), time::elapsed(now, older));
}

/// Outside leap seconds, a domain that is old enough stays so.
pub proof fn domain_only_gets_older(
    registered: Moment,
    max_age_days: int,
    now: Moment,
    later: Moment,
)
    requires
        0 <= registered.nanos < time::NANOS_PER_SEC,
        0 <= now.nanos < time::NANOS_PER_SEC,
        0 <= later.nanos < time::NANOS_PER_SEC,
        time::not_after(now, later),
    ensures
        !too_young(registered, max_age_days, now) ==> !too_young(registered, max_age_days, later),
{
    lemma_whole_days_grow(time::elapsed(now, registered), time::elapsed(later, registered));
}

/// A longer time has no fewer days.
proof fn lemma_whole_days_grow(a: int, b: int)
    requires
        a <= b,
    ensures
        time::whole_days(a) <= time::whole_days(b),
{
    let day = time::SECS_PER_DAY * time::NANOS_PER_SEC;
    if a >= 0 {
        vstd::arithmetic::div_mod::lemma_div_is_ordered(a, b, day);
    } else if b < 0 {
        vstd::arithmetic::div_mod::lemma_div_is_ordered(-b, -a, day);
    } else {
        vstd::arithmetic::div_mod::lemma_div_pos_is_pos(-a, day);
        vstd::arithmetic::div_mod::lemma_div_pos_is_pos(b, day);
    }
}

/// The queue after a whole attempt for the message `id`: it was fetched, its
/// domain was looked up if need be, and it was moved, or not, if need be.
pub open spec fn attempted(
    list: Seq<Waiting>,
    id: Seq<char>,
    r: Recheck,
    registration: Result<Moment, Failure>,
    moved: bool,
    max_age_days: int,
    base: nat,
    max_attempts: nat,
    now: Moment,
) -> Seq<Waiting> {
    if leaves_early(r) {
        retry::without(list, id)
    } else if r == Recheck::Unreachable {
        list
    } else {
        let after = resolved(list, id, registration, max_age_days, base, max_attempts, now);
        if registration is Ok && too_young(registration->Ok_0, max_age_days, now) && moved {
            retry::without(after, id)
        } else {
            after
        }
    }
}

/// Whether a message need not wait any longer after an attempt: it is gone, its
/// domain is old enough, it was moved, or the attempts are used up.
pub open spec fn settled(
    r: Recheck,
    registration: Result<Moment, Failure>,
    moved: bool,
    max_age_days: int,
    attempts: nat,
    max_attempts: nat,
    now: Moment,
) -> bool {
    match r {
        Recheck::Gone => true,
        Recheck::Moved => true,
        Recheck::Unreachable => false,
        Recheck::LookUp => match registration {
            Ok(t) => moved || !too_young(t, max_age_days, now),
            Err(_) => attempts + 1 >= max_attempts,
        },
    }
}

/// After an attempt, a message no longer waits if it is settled; otherwise it
/// still waits, with one failed attempt more if it was the lookup that failed.
/// All other messages wait as before.
pub proof fn message_waits_until_it_is_settled(
    list: Seq<Waiting>,
    id: Seq<char>,
    attempts: nat,
    r: Recheck,
    registration: Result<Moment, Failure>,
    moved: bool,
    max_age_days: int,
    base: nat,
    max_attempts: nat,
    now: Moment,
)
    requires
        retry::waits_once(list, id, attempts),
    ensures
        ({
            let after = attempted(
                list,
                id,
                r,
                registration,
                moved,
                max_age_days,
                base,
                max_attempts,
                now,
            );
            let failed = r == Recheck::LookUp && registration is Err;
            &&& retry::without(after, id) == retry::without(list, id)
            &&& if settled(r, registration, moved, max_age_days, attempts, max_attempts, now) {
                retry::waits_not(after, id)
            } else {
                retry::waits_once(after, id, attempts + if failed {
                    1nat
                } else {
                    0nat
                })
            }
        }),
{
    let i = choose|i: int|
        {
            &&& 0 <= i < list.len()
            &&& (#[trigger] list[i]).id == id
            &&& list[i].attempts == attempts
            &&& forall|j: int| 0 <= j < list.len() && j != i ==> (#[trigger] list[j]).id != id
        };
    retry::other_messages_are_left_alone(
        list,
        id,
        list[i],
        failed_attempt(),
        base,
        max_attempts,
        now,
    );
    retry::dropped_message_does_not_wait(list, id);
    retry::failed_attempt_counts(
        list,
        id,
        attempts,
        failed_attempt(),
        base,
        max_attempts,
        now,
    );
}

/// Outside leap seconds, a signed message whose domain has a known registration
/// date goes into quarantine exactly if the time since then is less than the limit
/// times 24 hours; otherwise it is kept. (A limit of no days or fewer is missed
/// only by a date that lies a whole day more in the future.)
pub proof fn signed_mail_is_quarantined_below_the_limit(
    f: Finding,
    registered: Moment,
    max_age_days: int,
    now: Moment,
)
    requires
        f is Signed,
        0 <= registered.nanos < 1_000_000_000,
        0 <= now.nanos < 1_000_000_000,
    ensures
        ({
            let age = (now.secs * 1_000_000_000 + now.nanos) - (registered.secs * 1_000_000_000
                + registered.nanos);
            let outcome = fate(f, Ok(registered), max_age_days, now);
            &&& outcome == judged(Ok(registered), max_age_days, now)
            &&& outcome is Quarantined || outcome is Kept
            &&& max_age_days > 0 ==> (outcome is Quarantined <==> age < max_age_days
                * 86_400_000_000_000)
            &&& max_age_days <= 0 ==> (outcome is Quarantined <==> age <= (max_age_days - 1)
                * 86_400_000_000_000)
        }),
{
    time::days_in_numbers(time::elapsed(now, registered));
}

/// Mail from a domain that is `days` whole days old goes into quarantine under
/// every limit above that, and under no other.
pub proof fn limit_decides_about_an_age(
    f: Finding,
    registered: Moment,
    now: Moment,
    days: int,
    max_age_days: int,
)
    requires
        f is Signed,
        days >= 0,
        0 <= registered.nanos < 1_000_000_000,
        0 <= now.nanos < 1_000_000_000,
        days * 86_400_000_000_000 <= (now.secs * 1_000_000_000 + now.nanos) - (registered.secs
            * 1_000_000_000 + registered.nanos) < (days + 1) * 86_400_000_000_000,
    ensures
        days < max_age_days ==> fate(f, Ok(registered), max_age_days, now) is Quarantined,
        days >= max_age_days ==> fate(f, Ok(registered), max_age_days, now) is Kept,
{
    time::days_in_numbers(time::elapsed(now, registered));
}

/// What follows the last `@` of an address is its domain, in small letters, with
/// or without a closing angle bracket; without an `@` there is none.
pub proof fn domain_of_an_address_follows_its_last_at(local: Seq<char>, d: Seq<char>)
    requires
        d.len() > 0,
        !d.contains('@'),
        !text::is_white(d[0]) && d[0] != '>',
        !text::is_white(d.last()) && d.last() != '>',
    ensures
        address_domain(local + seq!['@'] + d) == Some(text::lower(d)),
        address_domain(local + seq!['@'] + d.push('>')) == Some(text::lower(d)),
        !local.contains('@') ==> address_domain(local) is None,
{
    let white = CharClass::White;
    let angle = CharClass::Only('>');
    text::last_cut_is_where_the_tail_is_free(local, d, '@');
    text::bare_text_is_not_stripped(d, white);
    text::bare_text_is_not_stripped(d, angle);
    let e = d.push('>');
    assert(!e.contains('@')) by {
        if e.contains('@') {
            let k = choose|k: int| 0 <= k < e.len() && e[k] == '@';
            assert(d[k] == '@');
        }
    }
    text::last_cut_is_where_the_tail_is_free(local, e, '@');
    assert(!text::is_white('>'));
    assert(e[0] == d[0]);
    text::bare_text_is_not_stripped(e, white);
    assert(text::strip_start(e, angle) == e);
    assert(e.drop_last() =~= d);
    assert(text::strip_end(e, angle) == text::strip_end(d, angle));
    assert(text::strip_start(d, angle) == d);
    text::cut_at_the_last(local, '@');
    if let Some((a, b)) = text::split_last(local, '@') {
        assert(local[a.len() as int] == '@');
    }
}

/// The registrable domain of the sender is that of the first address in `From:`.
pub proof fn sender_is_the_first_address(
    facts: EmailFacts,
    rules: Rules,
    local: Seq<char>,
    d: Seq<char>,
)
    requires
        facts.from_addresses@.len() > 0,
        facts.from_addresses@[0]@ == local + seq!['@'] + d,
        d.len() > 0,
        !d.contains('@'),
        !text::is_white(d[0]) && d[0] != '>',
        !text::is_white(d.last()) && d.last() != '>',
    ensures
        sender(facts) == Some(local + seq!['@'] + d),
        sender_registrable(facts, rules) == psl::registrable(rules, text::lower(d)),
{
    domain_of_an_address_follows_its_last_at(local, d);
}

/// A message in the inbox with verified signing domains is judged by the first of
/// them whose registrable domain is that of the sender, the case of letters aside;
/// if there is none, by the first of all. It is looked up by its registrable
/// domain, or under its own name if it has none.
pub proof fn first_aligned_domain_counts(
    facts: EmailFacts,
    inbox_id: Seq<char>,
    trusted: Seq<String>,
    rules: Rules,
)
    requires
        exists|i: int|
            0 <= i < facts.mailbox_ids@.len() && (#[trigger] facts.mailbox_ids@[i])@ == inbox_id,
        dkim::verified_domains(facts.auth_results_headers@, trusted).len() > 0,
    ensures
        ({
            let domains = dkim::verified_domains(facts.auth_results_headers@, trusted);
            let from = sender_registrable(facts, rules);
            let same = |d: Seq<char>|
                match (psl::registrable(rules, d), from) {
                    (Some(r), Some(f)) => text::lower(r) == text::lower(f),
                    _ => false,
                };
            exists|k: int|
                {
                    &&& 0 <= k < domains.len()
                    &&& finding(Some(facts), inbox_id, trusted, rules) == (Finding::Signed {
                        signing_domain: #[trigger] domains[k],
                        aligned: same(domains[k]),
                        registrable: match psl::registrable(rules, domains[k]) {
                            Some(r) => r,
                            None => domains[k],
                        },
                    })
                    &&& forall|j: int| 0 <= j < k ==> !same(#[trigger] domains[j])
                    &&& !same(domains[k]) ==> k == 0 && forall|j: int|
                        0 <= j < domains.len() ==> !same(#[trigger] domains[j])
                }
        }),
{
    let domains = dkim::verified_domains(facts.auth_results_headers@, trusted);
    let from = sender_registrable(facts, rules);
    let same = |d: Seq<char>|
        match (psl::registrable(rules, d), from) {
            (Some(r), Some(f)) => text::lower(r) == text::lower(f),
            _ => false,
        };
    let flags = alignment(domains, from, rules);
    lemma_some_is_preferred(flags, flags.len());
    let k = choose|k: int| dkim::preferred(flags, k);
    assert(dkim::preferred(flags, k));
    assert forall|j: int| 0 <= j < domains.len() implies flags[j] == same(
        #[trigger] domains[j],
    ) by {}
    assert(flags[k] == same(domains[k]));
    assert forall|j: int| 0 <= j < k implies !same(#[trigger] domains[j]) by {
        assert(flags[j] == same(domains[j]));
    }
    if !same(domains[k]) {
        assert forall|j: int| 0 <= j < domains.len() implies !same(#[trigger] domains[j]) by {
            assert(flags[j] == same(domains[j]));
        }
    }
}

/// What another attempt begins with follows from what fetching the message gave: it
/// is looked up exactly if it is there and in the inbox, stays as it is exactly if
/// it could not be fetched, and leaves the queue otherwise.
pub proof fn message_in_the_inbox_is_looked_up_again(fetched: Fetched, inbox_id: Seq<char>)
    ensures
        ({
            let r = rechecked(fetched, inbox_id);
            let inside = fetched is Found && exists|i: int|
                0 <= i < (fetched->Found_0).mailbox_ids@.len() && (
                #[trigger] (fetched->Found_0).mailbox_ids@[i])@ == inbox_id;
            &&& r == Recheck::LookUp <==> inside
            &&& r == Recheck::Unreachable <==> fetched is Failed
            &&& r == Recheck::Gone <==> fetched is NotFound
            &&& r == Recheck::Moved <==> fetched is Found && !inside
            &&& leaves_early(r) <==> fetched !is Failed && !inside
        }),
{
}

/// Once the domain of a waiting message is known, the message leaves the queue if
/// the domain has reached the limit, and stays as it is until it was moved
/// otherwise.
pub proof fn known_domain_settles_a_waiting_message(
    list: Seq<Waiting>,
    id: Seq<char>,
    registered: Moment,
    max_age_days: int,
    base: nat,
    max_attempts: nat,
    now: Moment,
)
    ensures
        ({
            let after = resolved(
                list,
                id,
                Ok(registered),
                max_age_days,
                base,
                max_attempts,
                now,
            );
            let days = time::whole_days(time::elapsed(now, registered));
            &&& days < max_age_days ==> after == list
            &&& days >= max_age_days ==> after == list.filter(|w: Waiting| w.id != id)
        }),
{
    if time::whole_days(time::elapsed(now, registered)) >= max_age_days {
        lemma_dropping_filters(list, id);
    }
}

proof fn lemma_dropping_filters(list: Seq<Waiting>, id: Seq<char>)
    ensures
        retry::without(list, id) == list.filter(|w: Waiting| w.id != id),
    decreases list.len(),
{
    reveal(Seq::filter);
    if list.len() == 0 {
        retry::dropping_takes_off_one_id(list, list, arbitrary(), id);
        assert(list =~= Seq::<Waiting>::empty());
    } else {
        let init = list.drop_last();
        let last = list.last();
        lemma_dropping_filters(init, id);
        retry::dropping_takes_off_one_id(init, seq![last], last, id);
        assert(init + seq![last] =~= list);
    }
}

/// If the domain of a waiting message still cannot be looked up, the message has
/// had one attempt more, which ends in the error `rdap_failed`; with the last
/// attempt it leaves the queue.
pub proof fn failed_lookup_counts_as_an_attempt(
    list: Seq<Waiting>,
    i: int,
    failure: Failure,
    max_age_days: int,
    base: nat,
    max_attempts: nat,
    now: Moment,
)
    requires
        0 <= i < list.len(),
        forall|j: int| 0 <= j < list.len() && j != i ==> (#[trigger] list[j]).id != list[i].id,
        0 <= now.nanos < 1_000_000_000,
    ensures
        ({
            let after = resolved(
                list,
                list[i].id,
                Err(failure),
                max_age_days,
                base,
                max_attempts,
                now,
            );
            &&& list[i].attempts + 1 >= max_attempts ==> after == list.take(i) + list.skip(i + 1)
            &&& list[i].attempts + 1 < max_attempts ==> {
                &&& after.len() == list.len()
                &&& forall|j: int| 0 <= j < list.len() && j != i ==> #[trigger] after[j] == list[j]
                &&& after[i].id == list[i].id
                &&& after[i].attempts == list[i].attempts + 1
                &&& after[i].last_error == Some("rdap_failed"@)
            }
        }),
{
    if list[i].attempts + 1 < max_attempts {
        retry::failed_attempt_sets_the_next_one(
            list,
            i,
            "rdap_failed"@,
            base,
            max_attempts,
            now,
        );
    } else {
        retry::last_attempt_drops_the_message(list, i, "rdap_failed"@, base, max_attempts, now);
    }
}

} // verus!
