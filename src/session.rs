use vstd::prelude::*;
use crate::client::{ClientView, HttpRequest, JiraClient, is_worklog_body, search_request_of, worklog_request_of};
use crate::duration::{duration_seconds, trimmed};
use crate::error::JiraError;
use crate::types::WorklogRequest;

verus! {

/// The single active session: at most one client at a time. A new connection
/// replaces the previous client without any remote logout.
pub struct SessionStore {
    active: Option<JiraClient>,
}

pub open spec fn client_view(o: Option<JiraClient>) -> Option<ClientView> {
    match o {
        Some(c) => Some(c@),
        None => None,
    }
}

/// The session after a connection attempt with `client` whose probe gave `probe`:
/// installed only on a successful probe, otherwise unchanged.
pub open spec fn session_after_connect(
    s: Option<ClientView>,
    client: ClientView,
    probe: Result<bool, JiraError>,
) -> Option<ClientView> {
    if probe == Ok::<bool, JiraError>(true) {
        Some(client)
    } else {
        s
    }
}

/// What a connection attempt reports: a probe that answered without success
/// is `ConnectionFailed`; a probe that failed reports its own error.
pub open spec fn connect_result(probe: Result<bool, JiraError>) -> Result<bool, JiraError> {
    match probe {
        Ok(true) => Ok(true),
        Ok(false) => Err(JiraError::ConnectionFailed),
        Err(e) => Err(e),
    }
}

/// The session after a disconnect: empty, whatever it held.
pub open spec fn session_after_disconnect(s: Option<ClientView>) -> Option<ClientView> {
    None
}

impl View for SessionStore {
    type V = Option<ClientView>;

    closed spec fn view(&self) -> Option<ClientView> {
        client_view(self.active)
    }
}

/// A worklog ready to send: the client to send it with, the request and its body.
pub struct WorklogCall {
    pub client: JiraClient,
    pub request: HttpRequest,
    pub body: WorklogRequest,
}

/// A search ready to send: the client to send it with and the request.
pub struct SearchCall {
    pub client: JiraClient,
    pub request: HttpRequest,
}

impl SessionStore {
    /// An empty session.
    pub fn new() -> (r: SessionStore)
        ensures
            r@ == None::<ClientView>,
    {
        SessionStore { active: None }
    }

    /// Ends a connection attempt: `client` becomes the session exactly when
    /// its probe answered with success.
    pub fn finish_connect(&mut self, client: JiraClient, probe: Result<bool, JiraError>) -> (r:
        Result<bool, JiraError>)
        ensures
            final(self)@ == session_after_connect(old(self)@, client@, probe),
            r == connect_result(probe),
    {
        match probe {
            Ok(true) => {
                self.active = Some(client);
                Ok(true)
            },
            Ok(false) => Err(JiraError::ConnectionFailed),
            Err(e) => Err(e),
        }
    }

    /// A handle to the active client, if any; the store is not changed.
    pub fn current(&self) -> (r: Option<JiraClient>)
        ensures
            client_view(r) == self@,
    {
        match &self.active {
            Some(c) => Some(c.share()),
            None => None,
        }
    }

    pub fn is_connected(&self) -> (r: bool)
        ensures
            r == self@.is_some(),
    {
        self.active.is_some()
    }

    /// Clears the session; always succeeds.
    pub fn disconnect(&mut self)
        ensures
            final(self)@ == session_after_disconnect(old(self)@),
    {
        self.active = None;
    }
}

/// The search for the user's issues with the client `current` of the
/// session, or `NotConnected`.
pub fn plan_search(current: Option<JiraClient>) -> (r: Result<SearchCall, JiraError>)
    ensures
        current is None ==> r == Err::<SearchCall, JiraError>(JiraError::NotConnected),
        current matches Some(c) ==> r matches Ok(call) && call.client@ == c@
            && call.request@ == search_request_of(c@),
{
    match current {
        None => Err(JiraError::NotConnected),
        Some(client) => {
            let request = client.search_request();
            Ok(SearchCall { client, request })
        },
    }
}

/// A worklog of the duration `time_spent` on `issue_key` with the client
/// `current` of the session: `NotConnected` first, then a refused duration;
/// otherwise the request and its body, without visibility restriction.
pub fn plan_worklog(
    current: Option<JiraClient>,
    issue_key: &str,
    description: &str,
    started: &str,
    time_spent: &str,
) -> (r: Result<WorklogCall, JiraError>)
    ensures
        current is None ==> r == Err::<WorklogCall, JiraError>(JiraError::NotConnected),
        current matches Some(c) ==> match duration_seconds(trimmed(time_spent@)) {
            Err(e) => r == Err::<WorklogCall, JiraError>(JiraError::Duration(e)),
            Ok(secs) => r matches Ok(call) && call.client@ == c@ && call.request@
                == worklog_request_of(c@, issue_key@) && is_worklog_body(
                call.body,
                description@,
                started@,
                secs,
                None,
            ),
        },
{
    match current {
        None => Err(JiraError::NotConnected),
        Some(client) => match JiraClient::parse_time_to_seconds(time_spent) {
            Err(e) => Err(JiraError::Duration(e)),
            Ok(secs) => {
                let (request, body) = client.worklog_request(
                    issue_key,
                    description,
                    started,
                    secs,
                    None,
                );
                Ok(WorklogCall { client, request, body })
            },
        },
    }
}

/// Disconnecting twice leaves the session as disconnecting once does: empty.
pub proof fn lemma_disconnect_idempotent(s: Option<ClientView>)
    ensures
        session_after_disconnect(session_after_disconnect(s)) == session_after_disconnect(s),
        session_after_disconnect(s) is None,
{
}

/// After a successful connection the session holds the client built from the
/// given credentials; after a disconnect it holds none, whatever came before.
pub proof fn lemma_session_follows_last_change(
    s: Option<ClientView>,
    client: ClientView,
    probe: Result<bool, JiraError>,
)
    ensures
        connect_result(probe) is Ok ==> session_after_connect(s, client, probe) == Some(client),
        connect_result(probe) is Err ==> session_after_connect(s, client, probe) == s,
        session_after_disconnect(session_after_connect(s, client, probe)) is None,
{
}

} // verus!
