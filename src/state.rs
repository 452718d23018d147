use vstd::prelude::*;

verus! {

/// The durable configuration: where events are pushed, and how far polling has
/// advanced. Both start out absent.
#[derive(Clone, Debug)]
pub struct PersistedState {
    pub endpoint: Option<String>,
    pub last_poll: Option<String>,
}

/// The character contents of an optional string.
pub open spec fn opt_view(o: Option<String>) -> Option<Seq<char>> {
    match o {
        Some(s) => Some(s@),
        None => None,
    }
}

fn clone_opt(o: &Option<String>) -> (r: Option<String>)
    ensures
        r == *o,
{
    match o {
        Some(s) => Some(s.clone()),
        None => None,
    }
}

impl PersistedState {
    /// A configuration with neither an endpoint nor a cursor.
    pub fn empty() -> (r: PersistedState)
        ensures
            r.endpoint is None,
            r.last_poll is None,
    {
        PersistedState { endpoint: None, last_poll: None }
    }
}

impl Default for PersistedState {
    fn default() -> (r: PersistedState)
        ensures
            r.endpoint is None,
            r.last_poll is None,
    {
        PersistedState::empty()
    }
}

/// The process's shared state: the notification source's credential and the
/// configuration. Callers that share it between threads hold it behind a lock,
/// so that each method runs on the whole configuration at once.
pub struct AppState {
    pub github_token: String,
    pub state: PersistedState,
}

impl AppState {
    /// Starts from a credential and the configuration loaded at startup.
    pub fn new(github_token: String, loaded: PersistedState) -> (r: AppState)
        ensures
            r.github_token == github_token,
            r.state == loaded,
    {
        AppState { github_token, state: loaded }
    }

    pub fn get_endpoint(&self) -> (r: Option<String>)
        ensures
            r == self.state.endpoint,
    {
        clone_opt(&self.state.endpoint)
    }

    /// Replaces the endpoint; the cursor and the credential are kept.
    pub fn set_endpoint(&mut self, endpoint: String)
        ensures
            final(self).state.endpoint == Some(endpoint),
            final(self).state.last_poll == old(self).state.last_poll,
            final(self).github_token == old(self).github_token,
    {
        self.state.endpoint = Some(endpoint);
    }

    pub fn get_last_poll(&self) -> (r: Option<String>)
        ensures
            r == self.state.last_poll,
    {
        clone_opt(&self.state.last_poll)
    }

    /// Replaces the cursor; the endpoint and the credential are kept.
    pub fn set_last_poll(&mut self, timestamp: String)
        ensures
            final(self).state.last_poll == Some(timestamp),
            final(self).state.endpoint == old(self).state.endpoint,
            final(self).github_token == old(self).github_token,
    {
        self.state.last_poll = Some(timestamp);
    }

    /// The configuration as it is to be persisted.
    pub fn snapshot(&self) -> (r: PersistedState)
        ensures
            r == self.state,
    {
        PersistedState {
            endpoint: clone_opt(&self.state.endpoint),
            last_poll: clone_opt(&self.state.last_poll),
        }
    }
}

} // verus!
