use jira_worklog::client::{
    accepts_invalid_certs, is_success, probe_outcome, search_outcome, worklog_outcome, CertificatePolicy, HttpMethod,
    JiraClient,
};
use jira_worklog::error::JiraError;
use jira_worklog::types::{
    IssueFields, IssueStatus, JiraIssue, JiraSearchResponse, WorklogResponse, WorklogVisibility,
};

fn pairs(v: &[(&str, &str)]) -> Vec<(String, String)> {
    v.iter().map(|(a, b)| (a.to_string(), b.to_string())).collect()
}

fn client() -> JiraClient {
    JiraClient::new(
        "https://jira.example.com".to_string(),
        "me@example.com".to_string(),
        "SECRET-REDACTED".to_string(),
    )
    .expect("transport")
}

fn issue(key: &str) -> JiraIssue {
    JiraIssue {
        key: key.to_string(),
        fields: IssueFields {
            summary: "Something".to_string(),
            status: IssueStatus { name: "Open".to_string() },
            assignee: None,
        },
    }
}

#[test]
fn client_keeps_credentials() {
    let c = client();
    assert_eq!(c.base_url(), "https://jira.example.com");
    assert_eq!(c.email(), "me@example.com");
    assert_eq!(c.access_token(), "SECRET-REDACTED");
    assert_eq!(c.policy(), CertificatePolicy::Verify);
    let shared = c.share();
    assert_eq!(shared.base_url(), c.base_url());
    assert_eq!(shared.email(), c.email());
    assert_eq!(shared.access_token(), c.access_token());
}

#[test]
fn invalid_certificates_only_on_request() {
    let c = JiraClient::with_policy(
        "https://jira.example.com".to_string(),
        "me@example.com".to_string(),
        "t".to_string(),
        CertificatePolicy::AcceptInvalid,
    )
    .expect("transport");
    assert_eq!(c.policy(), CertificatePolicy::AcceptInvalid);
    assert!(c.transport_accepts_invalid());
    assert!(!client().transport_accepts_invalid());
    assert!(accepts_invalid_certs(CertificatePolicy::AcceptInvalid));
    assert!(!accepts_invalid_certs(CertificatePolicy::Verify));
}

#[test]
fn probe_request_targets_current_user() {
    let r = client().probe_request();
    assert_eq!(r.method, HttpMethod::Get);
    assert_eq!(r.url, "https://jira.example.com/rest/api/3/myself");
    assert_eq!(r.headers, pairs(&[("Accept", "application/json")]));
    assert!(r.query.is_empty());
    assert_eq!(r.username, "me@example.com");
    assert_eq!(r.password, "SECRET-REDACTED");
}

#[test]
fn search_request_selects_assigned_issues() {
    let r = client().search_request();
    assert_eq!(r.method, HttpMethod::Get);
    assert_eq!(r.url, "https://jira.example.com/rest/api/3/search");
    assert_eq!(
        r.query,
        pairs(&[("jql", "assignee=currentUser()"), ("fields", "summary,status,assignee")])
    );
    assert_eq!(r.headers, pairs(&[("Accept", "application/json")]));
}

#[test]
fn worklog_request_wraps_description() {
    let vis = WorklogVisibility { visibility_type: "group".to_string(), identifier: "dev".to_string() };
    let (r, body) = client().worklog_request("PROJ-7", "Reviewed", "2024-02-03T10:00:00", 900, Some(vis.clone()));
    assert_eq!(r.method, HttpMethod::Post);
    assert_eq!(r.url, "https://jira.example.com/rest/api/3/issue/PROJ-7/worklog");
    assert_eq!(
        r.headers,
        pairs(&[("Accept", "application/json"), ("Content-Type", "application/json")])
    );
    assert_eq!(body.comment.doc_type, "doc");
    assert_eq!(body.comment.version, 1);
    assert_eq!(body.comment.content.len(), 1);
    assert_eq!(body.comment.content[0].paragraph_type, "paragraph");
    assert_eq!(body.comment.content[0].content.len(), 1);
    assert_eq!(body.comment.content[0].content[0].text_type, "text");
    assert_eq!(body.comment.content[0].content[0].text, "Reviewed");
    assert_eq!(body.started, "2024-02-03T10:00:00");
    assert_eq!(body.time_spent_seconds, 900);
    assert_eq!(body.visibility, Some(vis));
}

#[test]
fn success_range() {
    assert!(!is_success(199));
    assert!(is_success(200));
    assert!(is_success(204));
    assert!(is_success(299));
    assert!(!is_success(300));
    assert!(!is_success(401));
    assert!(probe_outcome(200));
    assert!(!probe_outcome(403));
}

#[test]
fn search_outcomes() {
    let page = JiraSearchResponse { issues: vec![issue("A-1"), issue("A-2")], total: 5, start_at: 0, max_results: 2 };
    assert_eq!(search_outcome(200, Some(page.clone())), Ok(vec![issue("A-1"), issue("A-2")]));
    assert_eq!(search_outcome(401, Some(page)), Err(JiraError::Remote { status: 401 }));
    assert_eq!(search_outcome(200, None), Err(JiraError::Decode));
    assert_eq!(search_outcome(500, None), Err(JiraError::Remote { status: 500 }));
}

#[test]
fn worklog_outcomes() {
    let resp = WorklogResponse {
        id: "10".to_string(),
        issue_id: "20".to_string(),
        started: "2024-01-01T09:00:00".to_string(),
        time_spent_seconds: 7200,
    };
    assert_eq!(worklog_outcome(201, Some(resp.clone())), Ok(resp));
    assert_eq!(worklog_outcome(201, None), Err(JiraError::Decode));
    assert_eq!(worklog_outcome(404, None), Err(JiraError::Remote { status: 404 }));
}
