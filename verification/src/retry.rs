//! Messages that could not be decided yet, and when to try again.
use crate::domain::cache;
use crate::state::{self, LoadError, StateFile};
use crate::text;
use crate::time::{self, Interval, Moment, Timestamp};
use vstd::prelude::*;

verus! {

/// The longest wait between two attempts: six hours, in nanoseconds.
pub const BACKOFF_CAP: u128 = 21_600_000_000_000;

/// A message that waits for another attempt.
#[derive(Debug)]
pub struct RetryEntry {
    pub id: String,
    pub registrable_domain: String,
    pub first_seen_at: Timestamp,
    pub attempts: u32,
    pub next_attempt_at: Timestamp,
    pub last_error: Option<String>,
}

/// What a `RetryEntry` says.
pub struct Waiting {
    pub id: Seq<char>,
    pub registrable_domain: Seq<char>,
    pub first_seen_at: Moment,
    pub attempts: nat,
    pub next_attempt_at: Moment,
    pub last_error: Option<Seq<char>>,
}

impl View for RetryEntry {
    type V = Waiting;

    open spec fn view(&self) -> Waiting {
        Waiting {
            id: self.id@,
            registrable_domain: self.registrable_domain@,
            first_seen_at: self.first_seen_at@,
            attempts: self.attempts as nat,
            next_attempt_at: self.next_attempt_at@,
            last_error: cache::text_of(self.last_error),
        }
    }
}

impl Clone for RetryEntry {
    fn clone(&self) -> (r: Self)
        ensures
            r == *self,
    {
        RetryEntry {
            id: self.id.clone(),
            registrable_domain: self.registrable_domain.clone(),
            first_seen_at: self.first_seen_at,
            attempts: self.attempts,
            next_attempt_at: self.next_attempt_at,
            last_error: state::clone_text(&self.last_error),
        }
    }
}

/// What the entries of a list say.
pub open spec fn waiting(entries: Seq<RetryEntry>) -> Seq<Waiting> {
    entries.map_values(|e: RetryEntry| e@)
}

/// 2 to the power of `n`.
pub open spec fn pow2(n: nat) -> nat
    decreases n,
{
    if n == 0 {
        1
    } else {
        2 * pow2((n - 1) as nat)
    }
}

/// The smaller of two numbers.
pub open spec fn min(a: nat, b: nat) -> nat {
    if a <= b {
        a
    } else {
        b
    }
}

/// The nanoseconds to wait after this many attempts: the base interval,
/// doubled once for each of the first sixteen, but no longer than the cap.
pub open spec fn backoff(base: nat, attempts: nat) -> nat {
    min(base * pow2(min(attempts, 16)), BACKOFF_CAP as nat)
}

/// The entry for a message that is put into the queue.
pub open spec fn fresh_entry(
    id: Seq<char>,
    registrable_domain: Seq<char>,
    error: Seq<char>,
    base: Interval,
    now: Moment,
) -> Waiting {
    Waiting {
        id,
        registrable_domain,
        first_seen_at: now,
        attempts: 0,
        next_attempt_at: time::later_by(now, base.effective()),
        last_error: Some(error),
    }
}

/// The list without the entries for `id`.
pub open spec fn without(list: Seq<Waiting>, id: Seq<char>) -> Seq<Waiting> {
    list.filter(|e: Waiting| e.id != id)
}

/// The entries that are due.
pub open spec fn due_at(list: Seq<Waiting>, now: Moment) -> Seq<Waiting> {
    list.filter(|e: Waiting| time::not_after(e.next_attempt_at, now))
}

/// Where the first entry for `id` stands; the length of the list if there is
/// none.
pub open spec fn position(list: Seq<Waiting>, id: Seq<char>) -> nat
    decreases list.len(),
{
    if list.len() == 0 || list[0].id == id {
        0
    } else {
        1 + position(list.drop_first(), id)
    }
}

/// The entry after another failed attempt.
pub open spec fn bumped_entry(e: Waiting, error: Seq<char>, base: nat, now: Moment) -> Waiting {
    Waiting {
        attempts: e.attempts + 1,
        last_error: Some(error),
        next_attempt_at: time::later_by(now, backoff(base, e.attempts + 1)),
        ..e
    }
}

/// What a failed attempt can lead to.
pub enum BumpOutcome {
    /// There is no entry for the message.
    Missing,
    /// The message waits for another attempt.
    Rescheduled,
    /// The attempts are used up, and the entry was dropped.
    Exhausted,
}

/// What becomes of a failed attempt.
pub open spec fn bump_outcome(list: Seq<Waiting>, id: Seq<char>, max_attempts: nat) -> BumpOutcome {
    let i = position(list, id);
    if i >= list.len() {
        BumpOutcome::Missing
    } else if list[i as int].attempts + 1 >= max_attempts {
        BumpOutcome::Exhausted
    } else {
        BumpOutcome::Rescheduled
    }
}

/// Whether a failed attempt can be counted: the number of attempts has not
/// reached its limit, and the time of the next one is a date that a timestamp
/// can hold.
pub open spec fn can_be_bumped(
    list: Seq<Waiting>,
    id: Seq<char>,
    base: nat,
    max_attempts: nat,
    now: Moment,
) -> bool {
    let i = position(list, id) as int;
    match bump_outcome(list, id, max_attempts) {
        BumpOutcome::Missing => true,
        BumpOutcome::Exhausted => list[i].attempts < u32::MAX,
        BumpOutcome::Rescheduled => list[i].attempts < u32::MAX && time::representable(
            time::later_by(now, backoff(base, list[i].attempts + 1)),
        ),
    }
}

/// The list after a failed attempt.
pub open spec fn bumped(
    list: Seq<Waiting>,
    id: Seq<char>,
    error: Seq<char>,
    base: nat,
    max_attempts: nat,
    now: Moment,
) -> Seq<Waiting> {
    let i = position(list, id) as int;
    match bump_outcome(list, id, max_attempts) {
        BumpOutcome::Missing => list,
        BumpOutcome::Exhausted => list.remove(i),
        BumpOutcome::Rescheduled => list.update(i, bumped_entry(list[i], error, base, now)),
    }
}

/// The messages that wait, in the order in which they were put in.
pub struct RetryQueue {
    entries: Vec<RetryEntry>,
    base_interval: Interval,
    max_attempts: u32,
    /// Whether there is a change that the queue file does not hold yet.
    changed: bool,
}

impl RetryQueue {
    /// The waiting messages.
    pub closed spec fn list(self) -> Seq<Waiting> {
        waiting(self.entries@)
    }

    /// The wait before the first attempt.
    pub closed spec fn base(self) -> Interval {
        self.base_interval
    }

    /// How many failed attempts a message may have.
    pub closed spec fn max(self) -> nat {
        self.max_attempts as nat
    }

    /// Whether there is a change that the queue file does not hold yet.
    pub closed spec fn is_changed(self) -> bool {
        self.changed
    }

    /// Takes up the queue file.
    pub fn load(
        file: StateFile<Vec<RetryEntry>>,
        base_interval: Interval,
        max_attempts: u32,
    ) -> (r: Result<Self, LoadError>)
        ensures
            match file {
                StateFile::Unreadable(reason) => r matches Err(e) && e.context@
                    == "reading retry queue"@ && e.reason == reason,
                StateFile::Parsed(entries) => r matches Ok(q) && q.list() == waiting(entries@)
                    && q.base() == base_interval && q.max() == max_attempts && !q.is_changed(),
                _ => r matches Ok(q) && q.list() == Seq::<Waiting>::empty() && q.base()
                    == base_interval && q.max() == max_attempts && !q.is_changed(),
            },
    {
        match state::contents_or(file, Vec::new(), "reading retry queue") {
            Ok(entries) => {
                let q = RetryQueue { entries, base_interval, max_attempts, changed: false };
                assert(entries@.len() == 0 ==> q.list() =~= Seq::<Waiting>::empty());
                Ok(q)
            },
            Err(e) => Err(e),
        }
    }

    /// Tells whether the first attempt of a message that is put in at `now`
    /// falls on a date that a timestamp can hold.
    pub fn can_enqueue(&self, now: Timestamp) -> (r: bool)
        ensures
            r == time::representable(time::later_by(now@, self.base().effective())),
    {
        now.reaches(&self.base_interval)
    }

    /// Tells whether another attempt can be counted for `id`, and the next one
    /// falls on a date that a timestamp can hold.
    pub fn can_bump(&self, id: &str, now: Timestamp) -> (r: bool)
        ensures
            r == can_be_bumped(self.list(), id@, self.base()@, self.max(), now@),
    {
        match self.find(id) {
            Some(i) => {
                let attempts: u32 = self.entries[i].attempts;
                if attempts == u32::MAX {
                    false
                } else if attempts + 1 >= self.max_attempts {
                    true
                } else {
                    now.reaches(&backoff_after(&self.base_interval, attempts + 1))
                }
            },
            None => true,
        }
    }

    /// Puts a message into the queue, in place of what waited under its id. The
    /// first attempt is due after the base interval.
    pub fn enqueue(
        &mut self,
        id: String,
        registrable_domain: String,
        error: String,
        now: Timestamp,
    )
        requires
            time::representable(time::later_by(now@, old(self).base().effective())),
        ensures
            final(self).list() == without(old(self).list(), id@).push(
                fresh_entry(id@, registrable_domain@, error@, old(self).base(), now@),
            ),
            final(self).base() == old(self).base(),
            final(self).max() == old(self).max(),
            final(self).is_changed(),
    {
        self.drop_id(id.as_str());
        let next_attempt_at = now.after(&self.base_interval);
        let entry = RetryEntry {
            id,
            registrable_domain,
            first_seen_at: now,
            attempts: 0,
            next_attempt_at,
            last_error: Some(error),
        };
        let ghost before = self.entries@;
        self.entries.push(entry);
        self.changed = true;
        proof {
            assert(waiting(self.entries@) =~= waiting(before).push(entry@));
        }
    }

    /// The entries that are due, in order.
    pub fn due(&self, now: Timestamp) -> (r: Vec<RetryEntry>)
        ensures
            waiting(r@) == due_at(self.list(), now@),
    {
        let ghost all = waiting(self.entries@);
        let ghost is_due = |e: Waiting| time::not_after(e.next_attempt_at, now@);
        let mut r: Vec<RetryEntry> = Vec::new();
        let mut i: usize = 0;
        proof {
            assert(waiting(r@) =~= all.take(0).filter(is_due)) by {
                reveal(Seq::filter);
            }
        }
        while i < self.entries.len()
            invariant
                i <= self.entries.len(),
                all == waiting(self.entries@),
                is_due == (|e: Waiting| time::not_after(e.next_attempt_at, now@)),
                waiting(r@) == all.take(i as int).filter(is_due),
            decreases self.entries.len() - i,
        {
            let ghost before = r@;
            let e = &self.entries[i];
            proof {
                assert(all.take(i + 1).drop_last() =~= all.take(i as int));
                assert(all.take(i + 1).last() == e@);
                reveal(Seq::filter);
            }
            if e.next_attempt_at.is_not_after(&now) {
                r.push(e.clone());
                proof {
                    assert(waiting(r@) =~= waiting(before).push(e@));
                }
            }
            i += 1;
        }
        proof {
            assert(all.take(all.len() as int) =~= all);
        }
        r
    }

    /// Drops the entries for `id`. Tells whether there was one.
    pub fn remove(&mut self, id: &str) -> (removed: bool)
        ensures
            final(self).list() == without(old(self).list(), id@),
            final(self).base() == old(self).base(),
            final(self).max() == old(self).max(),
            removed == (without(old(self).list(), id@).len() != old(self).list().len()),
            final(self).is_changed() == (old(self).is_changed() || removed),
    {
        let before: usize = self.entries.len();
        self.drop_id(id);
        let removed = self.entries.len() != before;
        if removed {
            self.changed = true;
        }
        removed
    }

    fn drop_id(&mut self, id: &str)
        ensures
            final(self).list() == without(old(self).list(), id@),
            final(self).base() == old(self).base(),
            final(self).max() == old(self).max(),
            final(self).is_changed() == old(self).is_changed(),
    {
        let ghost all = waiting(self.entries@);
        let ghost other = |e: Waiting| e.id != id@;
        let wanted = text::chars_of(id);
        let mut kept: Vec<RetryEntry> = Vec::new();
        let mut i: usize = 0;
        proof {
            assert(waiting(kept@) =~= all.take(0).filter(other)) by {
                reveal(Seq::filter);
            }
        }
        while i < self.entries.len()
            invariant
                i <= self.entries.len(),
                all == waiting(self.entries@),
                other == (|e: Waiting| e.id != id@),
                wanted@ == id@,
                waiting(kept@) == all.take(i as int).filter(other),
            decreases self.entries.len() - i,
        {
            let ghost before = kept@;
            let e = &self.entries[i];
            proof {
                assert(all.take(i + 1).drop_last() =~= all.take(i as int));
                assert(all.take(i + 1).last() == e@);
                reveal(Seq::filter);
            }
            let key = text::chars_of(e.id.as_str());
            if !text::same(&key, &wanted) {
                kept.push(e.clone());
                proof {
                    assert(waiting(kept@) =~= waiting(before).push(e@));
                }
            }
            i += 1;
        }
        proof {
            assert(all.take(all.len() as int) =~= all);
        }
        self.entries = kept;
    }

    /// Counts a failed attempt and sets the time of the next one, or drops the
    /// entry if the attempts are used up. Tells whether they are.
    pub fn bump(&mut self, id: &str, error: String, now: Timestamp) -> (exhausted: bool)
        requires
            can_be_bumped(old(self).list(), id@, old(self).base()@, old(self).max(), now@),
        ensures
            exhausted == (bump_outcome(old(self).list(), id@, old(self).max()) is Exhausted),
            final(self).list() == bumped(
                old(self).list(),
                id@,
                error@,
                old(self).base()@,
                old(self).max(),
                now@,
            ),
            final(self).base() == old(self).base(),
            final(self).max() == old(self).max(),
            final(self).is_changed() == (old(self).is_changed() || bump_outcome(
                old(self).list(),
                id@,
                old(self).max(),
            ) !is Missing),
    {
        let ghost all = waiting(self.entries@);
        let i = match self.find(id) {
            Some(i) => i,
            None => {
                return false;
            },
        };
        let ghost before = self.entries@;
        let attempts: u32 = self.entries[i].attempts + 1;
        self.changed = true;
        if attempts >= self.max_attempts {
            self.entries.remove(i);
            proof {
                assert(waiting(self.entries@) =~= all.remove(i as int));
            }
            true
        } else {
            let wait = backoff_after(&self.base_interval, attempts);
            let next_attempt_at = now.after(&wait);
            let old_entry = self.entries[i].clone();
            let entry = RetryEntry {
                id: old_entry.id,
                registrable_domain: old_entry.registrable_domain,
                first_seen_at: old_entry.first_seen_at,
                attempts,
                next_attempt_at,
                last_error: Some(error),
            };
            self.entries[i] = entry;
            proof {
                assert(waiting(self.entries@) =~= all.update(i as int, entry@));
            }
            false
        }
    }

    fn find(&self, id: &str) -> (r: Option<usize>)
        ensures
            match r {
                Some(i) => i < self.list().len() && position(self.list(), id@) == i,
                None => position(self.list(), id@) >= self.list().len(),
            },
    {
        let ghost all = waiting(self.entries@);
        let wanted = text::chars_of(id);
        let mut i: usize = 0;
        proof {
            assert(all.skip(0) =~= all);
        }
        while i < self.entries.len()
            invariant
                i <= self.entries.len(),
                all == waiting(self.entries@),
                wanted@ == id@,
                position(all, id@) == i + position(all.skip(i as int), id@),
            decreases self.entries.len() - i,
        {
            proof {
                assert(all.skip(i as int).drop_first() =~= all.skip(i + 1));
            }
            let key = text::chars_of(self.entries[i].id.as_str());
            if text::same(&key, &wanted) {
                return Some(i);
            }
            i += 1;
        }
        None
    }

    /// What to write to the queue file: everything, if something changed. After
    /// that the file is taken to be up to date.
    pub fn take_snapshot(&mut self) -> (snapshot: Option<Vec<RetryEntry>>)
        ensures
            final(self).list() == old(self).list(),
            final(self).base() == old(self).base(),
            final(self).max() == old(self).max(),
            !final(self).is_changed(),
            match snapshot {
                Some(entries) => old(self).is_changed() && waiting(entries@) == old(self).list(),
                None => !old(self).is_changed(),
            },
    {
        if !self.changed {
            return None;
        }
        self.changed = false;
        let mut copy: Vec<RetryEntry> = Vec::new();
        let mut i: usize = 0;
        while i < self.entries.len()
            invariant
                i <= self.entries.len(),
                copy@ == self.entries@.take(i as int),
            decreases self.entries.len() - i,
        {
            proof {
                assert(self.entries@.take(i + 1) =~= self.entries@.take(i as int).push(
                    self.entries@[i as int],
                ));
            }
            copy.push(self.entries[i].clone());
            i += 1;
        }
        proof {
            assert(self.entries@.take(self.entries@.len() as int) =~= self.entries@);
        }
        Some(copy)
    }
}

/// The wait after this many attempts.
pub fn backoff_after(base: &Interval, attempts: u32) -> (wait: Interval)
    ensures
        wait@ == backoff(base@, attempts as nat),
        wait.effective() == wait@,
{
    let doublings: u32 = if attempts < 16 {
        attempts
    } else {
        16
    };
    let cap: u128 = BACKOFF_CAP;
    let mut wait: u128 = base.as_nanos();
    let mut n: u32 = 0;
    proof {
        assert(pow2(0) == 1);
        assert(base@ * 1 == base@);
    }
    while n < doublings && wait < cap
        invariant
            n <= doublings,
            cap == BACKOFF_CAP,
            wait == base@ * pow2(n as nat),
            wait < 40_000_000_000_000_000_000_000_000_000,
        decreases doublings - n,
    {
        proof {
            assert(base@ * (2 * pow2(n as nat)) == 2 * (base@ * pow2(n as nat)))
                by (nonlinear_arith);
        }
        wait = wait * 2;
        n += 1;
    }
    proof {
        lemma_pow2_grows(n as nat, doublings as nat);
        assert(base@ * pow2(n as nat) <= base@ * pow2(doublings as nat)) by (nonlinear_arith)
            requires
                pow2(n as nat) <= pow2(doublings as nat),
        ;
    }
    let nanos: u128 = if wait < cap {
        wait
    } else {
        cap
    };
    let secs: u128 = nanos / 1_000_000_000;
    let rest: u128 = nanos % 1_000_000_000;
    match Interval::new(secs as u64, rest as u32) {
        Some(i) => i,
        None => *base,
    }
}

/// Powers of 2 grow.
proof fn lemma_pow2_grows(m: nat, n: nat)
    requires
        m <= n,
    ensures
        1 <= pow2(m) <= pow2(n),
    decreases n,
{
    if m < n {
        lemma_pow2_grows(m, (n - 1) as nat);
    } else if n > 0 {
        lemma_pow2_grows((n - 1) as nat, (n - 1) as nat);
    }
}

/// The wait never shrinks from one attempt to the next and never exceeds six
/// hours.
pub proof fn backoff_grows_to_its_cap(base: nat, attempts: nat)
    ensures
        backoff(base, attempts) <= backoff(base, attempts + 1),
        backoff(base, attempts) <= 6 * 60 * 60 * time::NANOS_PER_SEC,
{
    let m = min(attempts, 16);
    let n = min(attempts + 1, 16);
    lemma_pow2_grows(m, n);
    assert(base * pow2(m) <= base * pow2(n)) by (nonlinear_arith)
        requires
            pow2(m) <= pow2(n),
    ;
}

/// With a base interval of a second or more, the wait is the interval times 2
/// to the power of the attempts, or six hours if that is less.
pub proof fn backoff_doubles_with_each_attempt(base: nat, attempts: nat)
    requires
        base >= time::NANOS_PER_SEC,
    ensures
        backoff(base, attempts) == min(
            base * pow2(attempts),
            (6 * 60 * 60 * time::NANOS_PER_SEC) as nat,
        ),
{
    if attempts > 16 {
        reveal_with_fuel(pow2, 17);
        lemma_pow2_grows(16, attempts);
        assert(pow2(16) == 65536);
        assert(base * pow2(16) >= 1_000_000_000 * 65536) by (nonlinear_arith)
            requires
                base >= 1_000_000_000,
                pow2(16) == 65536,
        ;
        assert(base * pow2(attempts) >= base * pow2(16)) by (nonlinear_arith)
            requires
                pow2(attempts) >= pow2(16),
        ;
    }
}

/// Whether no message waits twice.
pub open spec fn distinct_ids(list: Seq<Waiting>) -> bool {
    forall|i: int, j: int|
        0 <= i < j < list.len() ==> (#[trigger] list[i]).id != (#[trigger] list[j]).id
}

/// Where `position` stops.
proof fn lemma_position(list: Seq<Waiting>, id: Seq<char>)
    ensures
        position(list, id) <= list.len(),
        position(list, id) < list.len() ==> list[position(list, id) as int].id == id,
        forall|j: int| 0 <= j < position(list, id) ==> (#[trigger] list[j]).id != id,
    decreases list.len(),
{
    if list.len() > 0 && list[0].id != id {
        let rest = list.drop_first();
        lemma_position(rest, id);
        assert forall|j: int| 0 <= j < position(list, id) implies (#[trigger] list[j]).id
            != id by {
            if j > 0 {
                assert(rest[j - 1] == list[j]);
            }
        }
    }
}

/// Nothing waits under `id` once its entries are left out, and every other
/// entry stays.
proof fn lemma_without(list: Seq<Waiting>, id: Seq<char>)
    ensures
        forall|i: int| 0 <= i < without(list, id).len() ==> (#[trigger] without(list, id)[i]).id != id,
        forall|i: int|
            0 <= i < without(list, id).len() ==> list.contains(#[trigger] without(list, id)[i]),
        distinct_ids(list) ==> distinct_ids(without(list, id)),
    decreases list.len(),
{
    let other = |e: Waiting| e.id != id;
    reveal(Seq::filter);
    if list.len() > 0 {
        let init = list.drop_last();
        let kept = without(init, id);
        lemma_without(init, id);
        assert forall|i: int| 0 <= i < without(list, id).len() implies (#[trigger] without(
            list,
            id,
        )[i]).id != id && list.contains(without(list, id)[i]) by {
            if i < kept.len() {
                assert(without(list, id)[i] == kept[i]);
                let k = choose|k: int| 0 <= k < init.len() && init[k] == kept[i];
                assert(list[k] == kept[i]);
            } else {
                assert(list[list.len() - 1] == without(list, id)[i]);
            }
        }
        if distinct_ids(list) {
            assert(distinct_ids(init)) by {
                assert forall|i: int, j: int| 0 <= i < j < init.len() implies (
                #[trigger] init[i]).id != (#[trigger] init[j]).id by {
                    assert(init[i] == list[i] && init[j] == list[j]);
                }
            }
            assert forall|i: int, j: int| 0 <= i < j < without(list, id).len() implies (
            #[trigger] without(list, id)[i]).id != (#[trigger] without(list, id)[j]).id by {
                assert(without(list, id)[i] == kept[i]);
                if j < kept.len() {
                    assert(without(list, id)[j] == kept[j]);
                } else {
                    let k = choose|k: int| 0 <= k < init.len() && init[k] == kept[i];
                    assert(list[k] == kept[i]);
                    assert(list[k].id != list[list.len() - 1].id);
                }
            }
        }
    }
}

/// A filter that no element passes leaves nothing.
proof fn lemma_filter_of_none(list: Seq<Waiting>, p: spec_fn(Waiting) -> bool)
    requires
        forall|i: int| 0 <= i < list.len() ==> !p(#[trigger] list[i]),
    ensures
        list.filter(p) == Seq::<Waiting>::empty(),
    decreases list.len(),
{
    reveal(Seq::filter);
    if list.len() > 0 {
        let init = list.drop_last();
        assert forall|i: int| 0 <= i < init.len() implies !p(#[trigger] init[i]) by {
            assert(init[i] == list[i]);
        }
        lemma_filter_of_none(init, p);
        assert(!p(list[list.len() - 1]));
    }
}

/// An entry for `id` can be dropped or replaced by another one for `id`:
/// without them the list is the same.
proof fn lemma_without_ignores(list: Seq<Waiting>, i: int, e: Waiting)
    requires
        0 <= i < list.len(),
        e.id == list[i].id,
    ensures
        without(list.update(i, e), e.id) == without(list, e.id),
        without(list.remove(i), e.id) == without(list, e.id),
{
    let id = e.id;
    let other = |e: Waiting| e.id != id;
    let a = list.take(i);
    let b = list.skip(i + 1);
    assert(list =~= a + seq![list[i]] + b);
    assert(list.update(i, e) =~= a + seq![e] + b);
    assert(list.remove(i) =~= a + b);
    Seq::filter_distributes_over_add(a + seq![list[i]], b, other);
    Seq::filter_distributes_over_add(a, seq![list[i]], other);
    Seq::filter_distributes_over_add(a + seq![e], b, other);
    Seq::filter_distributes_over_add(a, seq![e], other);
    Seq::filter_distributes_over_add(a, b, other);
    lemma_filter_of_none(seq![list[i]], other);
    lemma_filter_of_none(seq![e], other);
    assert(a.filter(other) + Seq::<Waiting>::empty() =~= a.filter(other));
}

/// Putting in, dropping or bumping one message leaves the others alone.
pub proof fn other_messages_are_left_alone(
    list: Seq<Waiting>,
    id: Seq<char>,
    e: Waiting,
    error: Seq<char>,
    base: nat,
    max_attempts: nat,
    now: Moment,
)
    requires
        e.id == id,
    ensures
        without(without(list, id).push(e), id) == without(list, id),
        without(without(list, id), id) == without(list, id),
        without(bumped(list, id, error, base, max_attempts, now), id) == without(list, id),
{
    let other = |e: Waiting| e.id != id;
    let rest = without(list, id);
    lemma_without(list, id);
    assert(rest.filter(other) == rest) by {
        lemma_filter_of_all(rest, other);
    }
    reveal(Seq::filter);
    assert(rest.push(e).drop_last() =~= rest);
    lemma_position(list, id);
    let i = position(list, id) as int;
    if i < list.len() {
        lemma_without_ignores(list, i, bumped_entry(list[i], error, base, now));
    }
}

/// A filter that every element passes changes nothing.
proof fn lemma_filter_of_all(list: Seq<Waiting>, p: spec_fn(Waiting) -> bool)
    requires
        forall|i: int| 0 <= i < list.len() ==> p(#[trigger] list[i]),
    ensures
        list.filter(p) == list,
    decreases list.len(),
{
    reveal(Seq::filter);
    if list.len() > 0 {
        let init = list.drop_last();
        assert forall|i: int| 0 <= i < init.len() implies p(#[trigger] init[i]) by {
            assert(init[i] == list[i]);
        }
        lemma_filter_of_all(init, p);
        assert(p(list[list.len() - 1]));
        assert(init.push(list.last()) =~= list);
    }
}

/// A queue in which no message waits twice stays one, whatever is done to it.
pub proof fn no_message_waits_twice(
    list: Seq<Waiting>,
    id: Seq<char>,
    e: Waiting,
    error: Seq<char>,
    base: nat,
    max_attempts: nat,
    now: Moment,
)
    requires
        distinct_ids(list),
        e.id == id,
    ensures
        distinct_ids(without(list, id).push(e)),
        distinct_ids(without(list, id)),
        distinct_ids(bumped(list, id, error, base, max_attempts, now)),
{
    lemma_without(list, id);
    lemma_position(list, id);
    let i = position(list, id) as int;
    let after = bumped(list, id, error, base, max_attempts, now);
    match bump_outcome(list, id, max_attempts) {
        BumpOutcome::Missing => {},
        BumpOutcome::Exhausted => {
            assert forall|a: int, b: int| 0 <= a < b < after.len() implies (#[trigger] after[a]).id
                != (#[trigger] after[b]).id by {
                let a2 = if a < i {
                    a
                } else {
                    a + 1
                };
                let b2 = if b < i {
                    b
                } else {
                    b + 1
                };
                assert(after[a] == list[a2] && after[b] == list[b2]);
            }
        },
        BumpOutcome::Rescheduled => {
            assert forall|a: int, b: int| 0 <= a < b < after.len() implies (#[trigger] after[a]).id
                != (#[trigger] after[b]).id by {
                assert(after[a].id == list[a].id && after[b].id == list[b].id);
            }
        },
    }
}

/// Whether exactly one entry waits under `id`, with this many attempts.
pub open spec fn waits_once(list: Seq<Waiting>, id: Seq<char>, attempts: nat) -> bool {
    exists|i: int|
        {
            &&& 0 <= i < list.len()
            &&& (#[trigger] list[i]).id == id
            &&& list[i].attempts == attempts
            &&& forall|j: int| 0 <= j < list.len() && j != i ==> (#[trigger] list[j]).id != id
        }
}

/// Whether nothing waits under `id`.
pub open spec fn waits_not(list: Seq<Waiting>, id: Seq<char>) -> bool {
    forall|j: int| 0 <= j < list.len() ==> (#[trigger] list[j]).id != id
}

/// A message that was dropped does not wait.
pub proof fn dropped_message_does_not_wait(list: Seq<Waiting>, id: Seq<char>)
    ensures
        waits_not(without(list, id), id),
{
    lemma_without(list, id);
}

/// A message that was put into the queue waits in it once, with no attempts.
pub proof fn enqueued_message_waits_once(
    list: Seq<Waiting>,
    id: Seq<char>,
    registrable_domain: Seq<char>,
    error: Seq<char>,
    base: Interval,
    now: Moment,
)
    ensures
        waits_once(
            without(list, id).push(fresh_entry(id, registrable_domain, error, base, now)),
            id,
            0,
        ),
{
    lemma_without(list, id);
    let after = without(list, id).push(fresh_entry(id, registrable_domain, error, base, now));
    assert(after[after.len() - 1].id == id);
}

/// Outside leap seconds, a message that was put in at `now` is due exactly when
/// the base interval has gone by.
pub proof fn enqueued_message_is_due_after_the_interval(
    id: Seq<char>,
    registrable_domain: Seq<char>,
    error: Seq<char>,
    base: Interval,
    now: Moment,
    then: Moment,
)
    requires
        0 <= now.nanos < time::NANOS_PER_SEC,
        0 <= then.nanos < time::NANOS_PER_SEC,
    ensures
        time::not_after(
            fresh_entry(id, registrable_domain, error, base, now).next_attempt_at,
            then,
        ) <==> time::elapsed(then, now) >= base.effective(),
{
    time::delay_has_passed(now, base.effective(), then);
}

/// The list after failed attempts, each with its error and its time.
pub open spec fn bumped_by(
    list: Seq<Waiting>,
    id: Seq<char>,
    base: nat,
    max_attempts: nat,
    tries: Seq<(Seq<char>, Moment)>,
) -> Seq<Waiting>
    decreases tries.len(),
{
    if tries.len() == 0 {
        list
    } else {
        let (error, now) = tries.last();
        bumped(
            bumped_by(list, id, base, max_attempts, tries.drop_last()),
            id,
            error,
            base,
            max_attempts,
            now,
        )
    }
}

/// A failed attempt is counted, or the message is given up.
pub proof fn failed_attempt_counts(
    list: Seq<Waiting>,
    id: Seq<char>,
    attempts: nat,
    error: Seq<char>,
    base: nat,
    max_attempts: nat,
    now: Moment,
)
    requires
        waits_once(list, id, attempts),
    ensures
        ({
            let after = bumped(list, id, error, base, max_attempts, now);
            if attempts + 1 >= max_attempts {
                &&& bump_outcome(list, id, max_attempts) == BumpOutcome::Exhausted
                &&& waits_not(after, id)
            } else {
                &&& bump_outcome(list, id, max_attempts) == BumpOutcome::Rescheduled
                &&& waits_once(after, id, attempts + 1)
            }
        }),
{
    let after = bumped(list, id, error, base, max_attempts, now);
    let i = choose|i: int|
        {
            &&& 0 <= i < list.len()
            &&& (#[trigger] list[i]).id == id
            &&& list[i].attempts == attempts
            &&& forall|j: int| 0 <= j < list.len() && j != i ==> (#[trigger] list[j]).id != id
        };
    lemma_position(list, id);
    assert(position(list, id) == i) by {
        let p = position(list, id) as int;
        if p < list.len() && p != i {
            assert(list[p].id != id);
        }
        if i < p {
            assert(list[i].id != id);
        }
    }
    if attempts + 1 >= max_attempts {
        assert forall|j: int| 0 <= j < after.len() implies (#[trigger] after[j]).id != id by {
            let k = if j < i {
                j
            } else {
                j + 1
            };
            assert(after[j] == list[k]);
        }
    } else {
        assert(after[i].id == id && after[i].attempts == attempts + 1);
        assert forall|j: int| 0 <= j < after.len() && j != i implies (#[trigger] after[j]).id
            != id by {
            assert(after[j] == list[j]);
        }
    }
}

/// A message is given up at exactly the attempt that reaches the limit, and not
/// before: until then each failed attempt counts, and after it the message no
/// longer waits.
pub proof fn message_is_given_up_at_the_limit(
    list: Seq<Waiting>,
    id: Seq<char>,
    base: nat,
    max_attempts: nat,
    tries: Seq<(Seq<char>, Moment)>,
    error: Seq<char>,
    now: Moment,
)
    requires
        waits_once(list, id, 0),
        tries.len() == 0 || tries.len() < max_attempts,
    ensures
        ({
            let before = bumped_by(list, id, base, max_attempts, tries);
            let after = bumped(before, id, error, base, max_attempts, now);
            &&& waits_once(before, id, tries.len())
            &&& if tries.len() + 1 < max_attempts {
                &&& bump_outcome(before, id, max_attempts) == BumpOutcome::Rescheduled
                &&& waits_once(after, id, tries.len() + 1)
            } else {
                &&& bump_outcome(before, id, max_attempts) == BumpOutcome::Exhausted
                &&& waits_not(after, id)
            }
        }),
    decreases tries.len(),
{
    if tries.len() > 0 {
        let (last_error, last_now) = tries.last();
        message_is_given_up_at_the_limit(
            list,
            id,
            base,
            max_attempts,
            tries.drop_last(),
            last_error,
            last_now,
        );
    }
    let before = bumped_by(list, id, base, max_attempts, tries);
    failed_attempt_counts(before, id, tries.len(), error, base, max_attempts, now);
}

/// A failed attempt that is not the last one sets the next attempt: the message
/// stays where it is, with one attempt more and the new error, and waits for the
/// base interval times two to the number of attempts (sixteen at the most), but no
/// longer than six hours. Nothing else in the list changes.
pub proof fn failed_attempt_sets_the_next_one(
    list: Seq<Waiting>,
    i: int,
    error: Seq<char>,
    base: nat,
    max_attempts: nat,
    now: Moment,
)
    requires
        0 <= i < list.len(),
        forall|j: int| 0 <= j < list.len() && j != i ==> (#[trigger] list[j]).id != list[i].id,
        list[i].attempts + 1 < max_attempts,
        0 <= now.nanos < 1_000_000_000,
    ensures
        ({
            let after = bumped(list, list[i].id, error, base, max_attempts, now);
            let n = list[i].attempts + 1;
            let factor = vstd::arithmetic::power2::pow2(if n <= 16 {
                n
            } else {
                16
            });
            let next = after[i].next_attempt_at;
            let wait = (next.secs - now.secs) * 1_000_000_000 + next.nanos - now.nanos;
            &&& after.len() == list.len()
            &&& forall|j: int| 0 <= j < list.len() && j != i ==> #[trigger] after[j] == list[j]
            &&& after[i].id == list[i].id
            &&& after[i].registrable_domain == list[i].registrable_domain
            &&& after[i].first_seen_at == list[i].first_seen_at
            &&& after[i].attempts == n
            &&& after[i].last_error == Some(error)
            &&& base * factor <= 21_600_000_000_000 ==> wait == base * factor
            &&& base * factor > 21_600_000_000_000 ==> wait == 21_600_000_000_000
            &&& bump_outcome(list, list[i].id, max_attempts) is Rescheduled
        }),
{
    let n = list[i].attempts + 1;
    let m = if n <= 16 {
        n
    } else {
        16
    };
    lemma_pow2_is_that_of_vstd(m);
    lemma_position(list, list[i].id);
    let p = position(list, list[i].id) as int;
    if p < i {
        assert(list[p].id != list[i].id);
    } else if p > i {
        assert(list[i].id != list[i].id);
    }
    time::delay_in_numbers(now, backoff(base, n));
}

/// The last failed attempt takes the message off the list, and nothing else.
pub proof fn last_attempt_drops_the_message(
    list: Seq<Waiting>,
    i: int,
    error: Seq<char>,
    base: nat,
    max_attempts: nat,
    now: Moment,
)
    requires
        0 <= i < list.len(),
        forall|j: int| 0 <= j < list.len() && j != i ==> (#[trigger] list[j]).id != list[i].id,
        list[i].attempts + 1 >= max_attempts,
    ensures
        bumped(list, list[i].id, error, base, max_attempts, now) == list.take(i) + list.skip(i + 1),
        bump_outcome(list, list[i].id, max_attempts) is Exhausted,
{
    lemma_position(list, list[i].id);
    let p = position(list, list[i].id) as int;
    if p < i {
        assert(list[p].id != list[i].id);
    } else if p > i {
        assert(list[i].id != list[i].id);
    }
    assert(list.remove(i) =~= list.take(i) + list.skip(i + 1));
}

/// A failed attempt for a message that does not wait changes nothing.
pub proof fn attempt_for_an_unknown_message_changes_nothing(
    list: Seq<Waiting>,
    id: Seq<char>,
    error: Seq<char>,
    base: nat,
    max_attempts: nat,
    now: Moment,
)
    requires
        forall|j: int| 0 <= j < list.len() ==> (#[trigger] list[j]).id != id,
    ensures
        bumped(list, id, error, base, max_attempts, now) == list,
        bump_outcome(list, id, max_attempts) is Missing,
{
    lemma_position(list, id);
}

proof fn lemma_pow2_is_that_of_vstd(n: nat)
    ensures
        pow2(n) == vstd::arithmetic::power2::pow2(n),
    decreases n,
{
    vstd::arithmetic::power2::lemma2_to64();
    if n > 0 {
        lemma_pow2_is_that_of_vstd((n - 1) as nat);
        vstd::arithmetic::power2::lemma_pow2_unfold(n);
    }
}

/// A message that is put in waits with no attempts, with its domain, its error
/// and the time, and its first attempt comes after the base interval, if that is
/// at most `i64::MAX` milliseconds.
pub proof fn new_entry_holds_what_was_given(
    id: Seq<char>,
    registrable_domain: Seq<char>,
    error: Seq<char>,
    base: Interval,
    now: Moment,
)
    requires
        0 <= now.nanos < 1_000_000_000,
        base@ <= 9_223_372_036_854_775_807_000_000,
    ensures
        ({
            let e = fresh_entry(id, registrable_domain, error, base, now);
            let next = e.next_attempt_at;
            &&& e.id == id
            &&& e.registrable_domain == registrable_domain
            &&& e.first_seen_at == now
            &&& e.attempts == 0
            &&& e.last_error == Some(error)
            &&& (next.secs - now.secs) * 1_000_000_000 + next.nanos - now.nanos == base@
        }),
{
    time::delay_in_numbers(now, base.effective());
}

/// Dropping a message drops the entries under its id, and only these; the others
/// stay in their order.
pub proof fn dropping_takes_off_one_id(a: Seq<Waiting>, b: Seq<Waiting>, e: Waiting, id: Seq<char>)
    ensures
        without(Seq::empty(), id) == Seq::<Waiting>::empty(),
        without(a + b, id) == without(a, id) + without(b, id),
        e.id == id ==> without(seq![e], id) == Seq::<Waiting>::empty(),
        e.id != id ==> without(seq![e], id) == seq![e],
{
    let other = |e: Waiting| e.id != id;
    reveal(Seq::filter);
    Seq::filter_distributes_over_add(a, b, other);
    assert(seq![e].drop_last() =~= Seq::<Waiting>::empty());
    assert(Seq::<Waiting>::empty().filter(other) =~= Seq::<Waiting>::empty());
    assert(Seq::<Waiting>::empty().push(e) =~= seq![e]);
}

/// An entry is due if its time is now or past; the due entries are given in their
/// order.
pub proof fn due_entries_are_those_whose_time_has_come(
    a: Seq<Waiting>,
    b: Seq<Waiting>,
    e: Waiting,
    now: Moment,
)
    requires
        0 <= now.nanos < 1_000_000_000,
        0 <= e.next_attempt_at.nanos < 1_000_000_000,
    ensures
        due_at(Seq::empty(), now) == Seq::<Waiting>::empty(),
        due_at(a + b, now) == due_at(a, now) + due_at(b, now),
        due_at(seq![e], now) == if e.next_attempt_at.secs * 1_000_000_000 + e.next_attempt_at.nanos
            <= now.secs * 1_000_000_000 + now.nanos {
            seq![e]
        } else {
            Seq::empty()
        },
{
    let is_due = |e: Waiting| time::not_after(e.next_attempt_at, now);
    reveal(Seq::filter);
    Seq::filter_distributes_over_add(a, b, is_due);
    assert(seq![e].drop_last() =~= Seq::<Waiting>::empty());
    assert(Seq::<Waiting>::empty().filter(is_due) =~= Seq::<Waiting>::empty());
    assert(Seq::<Waiting>::empty().push(e) =~= seq![e]);
}

} // verus!
