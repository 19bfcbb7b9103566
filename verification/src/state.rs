//! What is kept on disk: how a state file is taken up at start, and the last
//! JMAP state of the mail store.
use vstd::prelude::*;

verus! {

/// What became of reading a state file.
pub enum StateFile<T> {
    /// It held this value.
    Parsed(T),
    /// It was read but holds no such value.
    Malformed,
    /// There is no such file.
    Missing,
    /// It could not be read, for this reason.
    Unreadable(String),
}

/// A state file that exists but could not be read.
pub struct LoadError {
    /// What was being read.
    pub context: String,
    /// Why it failed.
    pub reason: String,
}

/// The value to start with: what the file holds, or `empty` if there is no
/// file or nothing useful in it. A file that cannot be read is an error.
pub fn contents_or<T>(file: StateFile<T>, empty: T, context: &str) -> (r: Result<T, LoadError>)
    ensures
        match file {
            StateFile::Parsed(value) => r == Ok::<T, LoadError>(value),
            StateFile::Malformed => r == Ok::<T, LoadError>(empty),
            StateFile::Missing => r == Ok::<T, LoadError>(empty),
            StateFile::Unreadable(reason) => r matches Err(e) && e.context@ == context@ && e.reason
                == reason,
        },
{
    match file {
        StateFile::Parsed(value) => Ok(value),
        StateFile::Malformed => Ok(empty),
        StateFile::Missing => Ok(empty),
        StateFile::Unreadable(reason) => Err(LoadError { context: context.to_owned(), reason }),
    }
}

/// What the state file holds.
#[derive(Debug)]
pub struct PersistedState {
    /// The JMAP state up to which mail has been handed on.
    pub email_state: Option<String>,
}

/// A copy of an optional text.
pub fn clone_text(s: &Option<String>) -> (r: Option<String>)
    ensures
        r == *s,
{
    match s {
        Some(text) => Some(text.clone()),
        None => None,
    }
}

/// The JMAP state that a state file holds.
pub open spec fn held(state: PersistedState) -> Option<Seq<char>> {
    match state.email_state {
        Some(s) => Some(s@),
        None => None,
    }
}

impl Clone for PersistedState {
    fn clone(&self) -> (r: Self)
        ensures
            r == *self,
    {
        PersistedState { email_state: clone_text(&self.email_state) }
    }
}

impl Default for PersistedState {
    fn default() -> (r: Self)
        ensures
            r.email_state is None,
    {
        PersistedState { email_state: None }
    }
}

/// The state in memory.
pub struct StateStore {
    state: PersistedState,
}

impl View for StateStore {
    type V = Option<Seq<char>>;

    closed spec fn view(&self) -> Option<Seq<char>> {
        held(self.state)
    }
}

impl StateStore {
    /// Takes up the state file.
    pub fn load(file: StateFile<PersistedState>) -> (r: Result<Self, LoadError>)
        ensures
            match file {
                StateFile::Parsed(state) => r matches Ok(store) && store@ == held(state),
                StateFile::Malformed => r matches Ok(store) && store@ is None,
                StateFile::Missing => r matches Ok(store) && store@ is None,
                StateFile::Unreadable(reason) => r matches Err(e) && e.context@
                    == "reading state file"@ && e.reason == reason,
            },
    {
        let empty = PersistedState { email_state: None };
        match contents_or(file, empty, "reading state file") {
            Ok(state) => Ok(StateStore { state }),
            Err(e) => Err(e),
        }
    }

    /// The JMAP state, if one is known.
    pub fn email_state(&self) -> (r: Option<String>)
        ensures
            match r {
                Some(s) => self@ == Some(s@),
                None => self@ is None,
            },
    {
        clone_text(&self.state.email_state)
    }

    /// Sets the JMAP state and gives back what the state file has to hold: a
    /// store that is loaded from that has the same state.
    pub fn set_email_state(&mut self, new_state: String) -> (snapshot: PersistedState)
        ensures
            final(self)@ == Some(new_state@),
            snapshot.email_state == Some(new_state),
            held(snapshot) == final(self)@,
    {
        self.state.email_state = Some(new_state);
        self.state.clone()
    }
}

} // verus!
