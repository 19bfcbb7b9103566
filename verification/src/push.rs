//! Following the mail store's push notifications: what to do about a state
//! change, how to hand on the messages that changed, and how long to wait
//! before connecting again.
use crate::retry;
use crate::state::{self, PersistedState, StateStore};
use crate::text;
use vstd::prelude::*;

verus! {

/// The wait before the first reconnection, in seconds.
pub const FIRST_WAIT_SECS: u64 = 1;

/// The longest wait before a reconnection, in seconds.
pub const LONGEST_WAIT_SECS: u64 = 30;

/// Work for the worker.
#[derive(Debug, Clone)]
pub enum WorkItem {
    /// Look at the message with this id.
    Process(String),
}

/// The wait that follows a wait of `secs` seconds: twice as long, up to the
/// longest.
pub open spec fn next_wait(secs: nat) -> nat {
    retry::min(2 * secs, LONGEST_WAIT_SECS as nat)
}

/// The wait after `n` earlier waits.
pub open spec fn wait_after(n: nat) -> nat
    decreases n,
{
    if n == 0 {
        FIRST_WAIT_SECS as nat
    } else {
        next_wait(wait_after((n - 1) as nat))
    }
}

/// The waits double from one second on, up to 30 seconds.
pub proof fn waits_double_up_to_the_longest(n: nat)
    ensures
        wait_after(n) == retry::min(retry::pow2(n), 30),
    decreases n,
{
    if n > 0 {
        waits_double_up_to_the_longest((n - 1) as nat);
    }
}

/// How long to wait before connecting again.
pub struct Reconnect {
    secs: u64,
}

impl View for Reconnect {
    type V = nat;

    /// The seconds to wait the next time.
    closed spec fn view(&self) -> nat {
        self.secs as nat
    }
}

impl Reconnect {
    /// Nothing was waited for yet.
    pub fn new() -> (r: Self)
        ensures
            r@ == wait_after(0),
    {
        Reconnect { secs: FIRST_WAIT_SECS }
    }

    /// The seconds to wait this time. The next wait is longer.
    pub fn wait_secs(&mut self) -> (secs: u64)
        ensures
            secs as nat == old(self)@,
            final(self)@ == next_wait(old(self)@),
    {
        let secs: u64 = self.secs;
        self.secs = if secs >= 15 {
            LONGEST_WAIT_SECS
        } else {
            2 * secs
        };
        secs
    }
}

/// What a state belongs to.
#[derive(Debug, Clone, Copy, PartialEq, Eq, Structural)]
pub enum ChangedType {
    Email,
    Other,
}

/// The new state of the mail, if it is among the states that changed: the first
/// one that is listed.
pub open spec fn new_email_state(changes: Seq<(ChangedType, String)>) -> Option<Seq<char>>
    decreases changes.len(),
{
    if changes.len() == 0 {
        None
    } else if changes[0].0 == ChangedType::Email {
        Some(changes[0].1@)
    } else {
        new_email_state(changes.drop_first())
    }
}

fn email_state_in(changes: &Vec<(ChangedType, String)>) -> (r: Option<String>)
    ensures
        match r {
            Some(s) => new_email_state(changes@) == Some(s@),
            None => new_email_state(changes@) is None,
        },
{
    let mut i: usize = 0;
    proof {
        assert(changes@.skip(0) =~= changes@);
    }
    while i < changes.len()
        invariant
            i <= changes.len(),
            new_email_state(changes@) == new_email_state(changes@.skip(i as int)),
        decreases changes.len() - i,
    {
        if changes[i].0 == ChangedType::Email {
            return Some(changes[i].1.clone());
        }
        proof {
            assert(changes@.skip(i as int).drop_first() =~= changes@.skip(i + 1));
        }
        i += 1;
    }
    None
}

/// What to do about a state change.
pub enum PushStep {
    /// Nothing.
    Ignore,
    /// Write the state file: the mail is followed from here on.
    Persist(PersistedState),
    /// Ask what changed since a state.
    Sweep { since: String, new_state: String },
}

/// Decides what to do about a state change. The first state that is ever seen
/// is where the mail is followed from; after that, a state of the mail that is
/// not the stored one asks for a sweep.
pub fn on_state_change(changes: Vec<(ChangedType, String)>, store: &mut StateStore) -> (step:
    PushStep)
    ensures
        match new_email_state(changes@) {
            None => step is Ignore && final(store)@ == old(store)@,
            Some(new_state) => match old(store)@ {
                None => {
                    &&& final(store)@ == Some(new_state)
                    &&& step matches PushStep::Persist(snapshot)
                    &&& state::held(snapshot) == Some(new_state)
                },
                Some(since) => {
                    &&& final(store)@ == old(store)@
                    &&& if since == new_state {
                        step is Ignore
                    } else {
                        &&& step matches PushStep::Sweep { since: s, new_state: n }
                        &&& s@ == since
                        &&& n@ == new_state
                    }
                },
            },
        },
{
    match email_state_in(&changes) {
        None => PushStep::Ignore,
        Some(new_state) => match store.email_state() {
            None => PushStep::Persist(store.set_email_state(new_state)),
            Some(since) => if since == new_state {
                PushStep::Ignore
            } else {
                PushStep::Sweep { since, new_state }
            },
        },
    }
}

/// What to do first.
pub enum StartStep {
    /// Ask for the current state of the mail, and go on with `on_start`.
    Seed,
    /// Ask what changed since this state.
    CatchUp { since: String },
}

/// Decides what to do first: with a state from an earlier run, to catch up with
/// what changed meanwhile; without one, to begin with the current state.
pub fn start_step(store: &StateStore) -> (step: StartStep)
    ensures
        match store@ {
            None => step is Seed,
            Some(held) => step matches StartStep::CatchUp { since } && since@ == held,
        },
{
    match store.email_state() {
        None => StartStep::Seed,
        Some(since) => StartStep::CatchUp { since },
    }
}

/// Takes up the current state of the mail, if that was answered, unless a state
/// is held already. The mail that is there is not looked at. Gives back what the
/// state file has to hold, if that changed.
pub fn on_start(store: &mut StateStore, answer: Option<String>) -> (snapshot: Option<
    PersistedState,
>)
    ensures
        match (old(store)@, answer) {
            (None, Some(state)) => {
                &&& final(store)@ == Some(state@)
                &&& snapshot matches Some(s)
                &&& state::held(s) == Some(state@)
            },
            _ => snapshot is None && final(store)@ == old(store)@,
        },
{
    match (store.email_state(), answer) {
        (None, Some(state)) => Some(store.set_email_state(state)),
        _ => None,
    }
}

/// How far a sweep has come: how many of the messages were handed on, and
/// whether the worker stopped taking them.
pub struct Progress {
    pub ids: Seq<Seq<char>>,
    pub sent: nat,
    pub closed: bool,
}

/// The next thing to do in a sweep.
pub enum Stage {
    /// Hand on this message.
    Dispatch(Seq<char>),
    /// All were handed on: the new state can be stored.
    Commit,
    /// Give up. The stored state stays as it is.
    Stop,
}

impl Progress {
    /// The next thing to do.
    pub open spec fn stage(self) -> Stage {
        if self.closed {
            Stage::Stop
        } else if self.sent < self.ids.len() {
            Stage::Dispatch(self.ids[self.sent as int])
        } else {
            Stage::Commit
        }
    }

    /// How far the sweep is after a message was handed on, or refused.
    pub open spec fn after(self, accepted: bool) -> Progress {
        if !(self.stage() is Dispatch) {
            self
        } else if accepted {
            Progress { sent: self.sent + 1, ..self }
        } else {
            Progress { closed: true, ..self }
        }
    }
}

/// A sweep over the messages that changed.
pub struct Sweep {
    ids: Vec<String>,
    sent: usize,
    closed: bool,
    new_state: String,
}

/// What the sweep asks for next.
pub enum SweepStep {
    /// Hand on this message and report whether it was taken.
    Dispatch(WorkItem),
    /// Write the state file.
    Commit(PersistedState),
    /// Stop: nobody takes the messages.
    Stop,
}

impl View for Sweep {
    type V = Progress;

    closed spec fn view(&self) -> Progress {
        Progress { ids: text::strings(self.ids@), sent: self.sent as nat, closed: self.closed }
    }
}

impl Sweep {
    #[verifier::type_invariant]
    spec fn sent_from_the_list(self) -> bool {
        self.sent <= self.ids@.len()
    }

    /// The state to store in the end.
    pub closed spec fn new_state(&self) -> Seq<char> {
        self.new_state@
    }

    /// Begins a sweep over these messages, which lead up to `new_state`.
    pub fn new(ids: Vec<String>, new_state: String) -> (sweep: Self)
        ensures
            sweep@ == (Progress { ids: text::strings(ids@), sent: 0, closed: false }),
            sweep.new_state() == new_state@,
    {
        Sweep { ids, sent: 0, closed: false, new_state }
    }

    /// Tells what to do next. Once all messages were handed on, the new state
    /// goes into the store, and not before.
    pub fn step(&self, store: &mut StateStore) -> (step: SweepStep)
        ensures
            match self@.stage() {
                Stage::Dispatch(id) => {
                    &&& step matches SweepStep::Dispatch(WorkItem::Process(s))
                    &&& s@ == id
                    &&& final(store)@ == old(store)@
                },
                Stage::Commit => {
                    &&& step matches SweepStep::Commit(snapshot)
                    &&& state::held(snapshot) == Some(self.new_state())
                    &&& final(store)@ == Some(self.new_state())
                },
                Stage::Stop => step is Stop && final(store)@ == old(store)@,
            },
    {
        if self.closed {
            SweepStep::Stop
        } else if self.sent < self.ids.len() {
            SweepStep::Dispatch(WorkItem::Process(self.ids[self.sent].clone()))
        } else {
            SweepStep::Commit(store.set_email_state(self.new_state.clone()))
        }
    }

    /// Takes note of whether the message was taken.
    pub fn report(&mut self, accepted: bool)
        ensures
            final(self)@ == old(self)@.after(accepted),
            final(self).new_state() == old(self).new_state(),
    {
        if !self.closed && self.sent < self.ids.len() {
            if accepted {
                self.sent = self.sent + 1;
            } else {
                self.closed = true;
            }
        }
    }
}

/// How far a sweep has come after these answers of the worker.
pub open spec fn progress(ids: Seq<Seq<char>>, answers: Seq<bool>) -> Progress
    decreases answers.len(),
{
    if answers.len() == 0 {
        Progress { ids, sent: 0, closed: false }
    } else {
        progress(ids, answers.drop_last()).after(answers.last())
    }
}

/// What has been asked for and taken at some point of a sweep: the messages
/// are handed on in their order, each of them once.
pub proof fn messages_are_handed_on_in_order(ids: Seq<Seq<char>>, answers: Seq<bool>)
    requires
        forall|i: int| 0 <= i < answers.len() ==> answers[i],
        answers.len() < ids.len(),
    ensures
        progress(ids, answers).stage() == Stage::Dispatch(ids[answers.len() as int]),
    decreases answers.len(),
{
    lemma_accepted(ids, answers);
}

/// A new state is stored once every message was taken.
pub proof fn state_is_stored_after_the_last_message(ids: Seq<Seq<char>>, answers: Seq<bool>)
    requires
        forall|i: int| 0 <= i < answers.len() ==> answers[i],
        answers.len() == ids.len(),
    ensures
        progress(ids, answers).stage() is Commit,
{
    lemma_accepted(ids, answers);
}

/// No new state is stored in a sweep in which a message was refused.
pub proof fn refused_message_keeps_the_state(ids: Seq<Seq<char>>, answers: Seq<bool>, k: int)
    requires
        0 <= k < answers.len(),
        k < ids.len(),
        !answers[k],
        forall|i: int| 0 <= i < k ==> answers[i],
    ensures
        progress(ids, answers).stage() is Stop,
    decreases answers.len(),
{
    if k == answers.len() - 1 {
        assert forall|i: int| 0 <= i < answers.drop_last().len() implies answers.drop_last()[i] by {
            assert(answers[i]);
        }
        lemma_accepted(ids, answers.drop_last());
    } else {
        refused_message_keeps_the_state(ids, answers.drop_last(), k);
    }
}

/// How far a sweep is while every message was taken.
proof fn lemma_accepted(ids: Seq<Seq<char>>, answers: Seq<bool>)
    requires
        forall|i: int| 0 <= i < answers.len() ==> answers[i],
        answers.len() <= ids.len(),
    ensures
        progress(ids, answers) == (Progress { ids, sent: answers.len(), closed: false }),
    decreases answers.len(),
{
    if answers.len() > 0 {
        assert forall|i: int| 0 <= i < answers.drop_last().len() implies answers.drop_last()[i] by {
            assert(answers[i]);
        }
        lemma_accepted(ids, answers.drop_last());
    }
}

/// The new state of the mail is the first one that is listed as the state of
/// mail; if none is, there is no new state.
pub proof fn first_state_of_mail_counts(changes: Seq<(ChangedType, String)>)
    ensures
        match new_email_state(changes) {
            Some(state) => exists|i: int|
                {
                    &&& 0 <= i < changes.len()
                    &&& (#[trigger] changes[i]).0 == ChangedType::Email
                    &&& changes[i].1@ == state
                    &&& forall|j: int|
                        0 <= j < i ==> (#[trigger] changes[j]).0 == ChangedType::Other
                },
            None => forall|j: int|
                0 <= j < changes.len() ==> (#[trigger] changes[j]).0 == ChangedType::Other,
        },
    decreases changes.len(),
{
    if changes.len() > 0 && changes[0].0 == ChangedType::Other {
        let rest = changes.drop_first();
        first_state_of_mail_counts(rest);
        match new_email_state(rest) {
            Some(state) => {
                let k = choose|i: int|
                    {
                        &&& 0 <= i < rest.len()
                        &&& (#[trigger] rest[i]).0 == ChangedType::Email
                        &&& rest[i].1@ == state
                        &&& forall|j: int|
                            0 <= j < i ==> (#[trigger] rest[j]).0 == ChangedType::Other
                    };
                assert(changes[k + 1] == rest[k]);
                assert forall|j: int| 0 <= j < k + 1 implies (#[trigger] changes[j]).0
                    == ChangedType::Other by {
                    if j > 0 {
                        assert(changes[j] == rest[j - 1]);
                    }
                }
            },
            None => {
                assert forall|j: int| 0 <= j < changes.len() implies (#[trigger] changes[j]).0
                    == ChangedType::Other by {
                    if j > 0 {
                        assert(changes[j] == rest[j - 1]);
                    }
                }
            },
        }
    } else if changes.len() > 0 {
        assert(changes[0].0 == ChangedType::Email);
    }
}

/// The first wait is one second, and each wait is twice the one before, up to 30
/// seconds.
pub proof fn each_wait_is_twice_the_one_before(secs: nat)
    ensures
        wait_after(0) == 1,
        next_wait(secs) == if secs <= 15 {
            2 * secs
        } else {
            30
        },
{
}

} // verus!
