use jira_worklog::client::{HttpMethod, JiraClient};
use jira_worklog::duration::DurationError;
use jira_worklog::error::JiraError;
use jira_worklog::session::{plan_search, plan_worklog, SessionStore};

fn client_for(base: &str, email: &str) -> JiraClient {
    JiraClient::new(base.to_string(), email.to_string(), "SECRET-REDACTED".to_string())
        .expect("transport")
}

#[test]
fn new_session_is_empty() {
    let s = SessionStore::new();
    assert!(!s.is_connected());
    assert!(s.current().is_none());
}

#[test]
fn disconnect_twice_leaves_session_empty() {
    let mut s = SessionStore::new();
    assert_eq!(s.finish_connect(client_for("https://a", "a@x"), Ok(true)), Ok(true));
    s.disconnect();
    assert!(s.current().is_none());
    s.disconnect();
    assert!(s.current().is_none());
    assert!(!s.is_connected());
}

#[test]
fn successful_connect_installs_client() {
    let mut s = SessionStore::new();
    assert_eq!(s.finish_connect(client_for("https://a", "a@x"), Ok(true)), Ok(true));
    let c = s.current().expect("connected");
    assert_eq!(c.base_url(), "https://a");
    assert_eq!(c.email(), "a@x");
    assert_eq!(c.access_token(), "SECRET-REDACTED");
    // a new connection replaces the old one
    assert_eq!(s.finish_connect(client_for("https://b", "b@x"), Ok(true)), Ok(true));
    assert_eq!(s.current().expect("connected").base_url(), "https://b");
}

#[test]
fn failed_connect_keeps_prior_session() {
    let mut s = SessionStore::new();
    s.finish_connect(client_for("https://a", "a@x"), Ok(true)).unwrap();
    assert_eq!(
        s.finish_connect(client_for("https://b", "b@x"), Ok(false)),
        Err(JiraError::ConnectionFailed)
    );
    assert_eq!(s.current().unwrap().base_url(), "https://a");
    assert_eq!(
        s.finish_connect(client_for("https://c", "c@x"), Err(JiraError::Transport)),
        Err(JiraError::Transport)
    );
    assert_eq!(s.current().unwrap().base_url(), "https://a");
}

#[test]
fn failed_connect_on_empty_session() {
    let mut s = SessionStore::new();
    assert_eq!(
        s.finish_connect(client_for("https://a", "a@x"), Ok(false)),
        Err(JiraError::ConnectionFailed)
    );
    assert!(s.current().is_none());
}

#[test]
fn operations_need_a_session() {
    let s = SessionStore::new();
    assert!(matches!(plan_search(s.current()), Err(JiraError::NotConnected)));
    assert!(matches!(
        plan_worklog(s.current(), "PROJ-1", "x", "2024-01-01T09:00:00", "2h"),
        Err(JiraError::NotConnected)
    ));
    // the session is checked before the duration
    assert!(matches!(
        plan_worklog(None, "PROJ-1", "x", "2024-01-01T09:00:00", "5x"),
        Err(JiraError::NotConnected)
    ));
}

#[test]
fn worklog_with_bad_duration() {
    let mut s = SessionStore::new();
    s.finish_connect(client_for("https://a", "a@x"), Ok(true)).unwrap();
    assert!(matches!(
        plan_worklog(s.current(), "PROJ-1", "x", "2024-01-01T09:00:00", "5x"),
        Err(JiraError::Duration(DurationError::InvalidFormat))
    ));
    assert!(matches!(
        plan_worklog(s.current(), "PROJ-1", "x", "2024-01-01T09:00:00", ""),
        Err(JiraError::Duration(DurationError::EmptyInput))
    ));
}

#[test]
fn two_handles_search_alike() {
    let mut s = SessionStore::new();
    s.finish_connect(client_for("https://a", "a@x"), Ok(true)).unwrap();
    let first = plan_search(s.current()).ok().expect("connected");
    let second = plan_search(s.current()).ok().expect("connected");
    assert_eq!(first.request, second.request);
    assert_eq!(first.request.url, "https://a/rest/api/3/search");
    assert!(s.is_connected());
}

#[test]
fn connect_then_log_two_hours() {
    let mut s = SessionStore::new();
    assert_eq!(
        s.finish_connect(client_for("https://jira.example.com", "me@x"), Ok(true)),
        Ok(true)
    );
    assert!(s.current().is_some());
    let call = plan_worklog(s.current(), "PROJ-1", "Fixed bug", "2024-01-01T09:00:00", "2h")
        .ok()
        .expect("planned");
    assert_eq!(call.request.method, HttpMethod::Post);
    assert_eq!(call.request.url, "https://jira.example.com/rest/api/3/issue/PROJ-1/worklog");
    assert_eq!(call.body.time_spent_seconds, 7200);
    assert_eq!(call.body.started, "2024-01-01T09:00:00");
    assert_eq!(call.body.visibility, None);
    let doc = &call.body.comment;
    assert_eq!(doc.doc_type, "doc");
    assert_eq!(doc.version, 1);
    assert_eq!(doc.content.len(), 1);
    assert_eq!(doc.content[0].paragraph_type, "paragraph");
    assert_eq!(doc.content[0].content.len(), 1);
    assert_eq!(doc.content[0].content[0].text_type, "text");
    assert_eq!(doc.content[0].content[0].text, "Fixed bug");
    assert_eq!(call.client.base_url(), "https://jira.example.com");
}
