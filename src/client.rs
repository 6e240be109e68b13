use vstd::prelude::*;
use crate::duration::{DurationError, duration_seconds, parse_trimmed_duration, trim_whitespace, trimmed};
use crate::error::JiraError;
use crate::types::{
    JiraIssue, JiraSearchResponse, WorklogComment, WorklogRequest, WorklogResponse,
    WorklogVisibility,
};

verus! {

/// reqwest's HTTP client, carried through opaque.
#[verifier::external_type_specification]
#[verifier::external_body]
pub struct ExHttpClient(reqwest::Client);

/// reqwest's error, only ever mapped to `JiraError::Transport`.
#[verifier::external_type_specification]
#[verifier::external_body]
pub struct ExHttpError(reqwest::Error);

/// Relies on reqwest's `ClientBuilder::danger_accept_invalid_certs` and
/// `ClientBuilder::build`: a transport that skips certificate validation only
/// when asked to. Building may fail; nothing is promised of the client.
#[verifier::external_body]
fn build_transport(accept_invalid_certs: bool) -> (r: Result<reqwest::Client, reqwest::Error>) {
    reqwest::Client::builder().danger_accept_invalid_certs(accept_invalid_certs).build()
}

/// Relies on reqwest's `Client::clone`: another handle to the same transport.
pub assume_specification[ <reqwest::Client as Clone>::clone ](c: &reqwest::Client) -> reqwest::Client;

/// How the transport treats server certificates.
#[derive(Debug, Clone, Copy, PartialEq, Eq, Structural)]
pub enum CertificatePolicy {
    /// Standard validation.
    Verify,
    /// Accept certificates that fail validation. This gives up the protection
    /// TLS offers against an intercepting party; choose it only on purpose.
    AcceptInvalid,
}

/// What the transport builder is told: skip certificate validation exactly
/// when the policy opts in.
pub fn accepts_invalid_certs(policy: CertificatePolicy) -> (r: bool)
    ensures
        r == (policy == CertificatePolicy::AcceptInvalid),
{
    match policy {
        CertificatePolicy::Verify => false,
        CertificatePolicy::AcceptInvalid => true,
    }
}

#[derive(Debug, Clone, Copy, PartialEq, Eq, Structural)]
pub enum HttpMethod {
    Get,
    Post,
}

/// An HTTP request as this client means it: the transport sends it as stated,
/// with HTTP Basic authentication from `username` and `password`, and, for a
/// request with a body, the body encoded as JSON.
#[derive(Debug, Clone, PartialEq, Eq)]
pub struct HttpRequest {
    pub method: HttpMethod,
    pub url: String,
    pub headers: Vec<(String, String)>,
    pub query: Vec<(String, String)>,
    pub username: String,
    pub password: String,
}

pub struct RequestView {
    pub method: HttpMethod,
    pub url: Seq<char>,
    pub headers: Seq<(Seq<char>, Seq<char>)>,
    pub query: Seq<(Seq<char>, Seq<char>)>,
    pub username: Seq<char>,
    pub password: Seq<char>,
}

pub open spec fn pair_views(v: Seq<(String, String)>) -> Seq<(Seq<char>, Seq<char>)> {
    v.map_values(|p: (String, String)| (p.0@, p.1@))
}

impl View for HttpRequest {
    type V = RequestView;

    open spec fn view(&self) -> RequestView {
        RequestView {
            method: self.method,
            url: self.url@,
            headers: pair_views(self.headers@),
            query: pair_views(self.query@),
            username: self.username@,
            password: self.password@,
        }
    }
}

/// Credentials and transport settings of a client.
pub struct ClientView {
    pub base_url: Seq<char>,
    pub email: Seq<char>,
    pub access_token: Seq<char>,
    pub policy: CertificatePolicy,
    /// What the transport was told: skip certificate validation.
    pub transport_accepts_invalid: bool,
}

/// A client of one JIRA instance. Its credentials do not change after it is
/// built; copies made by `share` use the same transport.
pub struct JiraClient {
    base_url: String,
    email: String,
    access_token: String,
    policy: CertificatePolicy,
    accepts_invalid: bool,
    transport: reqwest::Client,
}

impl View for JiraClient {
    type V = ClientView;

    closed spec fn view(&self) -> ClientView {
        ClientView {
            base_url: self.base_url@,
            email: self.email@,
            access_token: self.access_token@,
            policy: self.policy,
            transport_accepts_invalid: self.accepts_invalid,
        }
    }
}

pub open spec fn json_accept() -> Seq<(Seq<char>, Seq<char>)> {
    seq![("Accept"@, "application/json"@)]
}

pub open spec fn json_accept_and_content() -> Seq<(Seq<char>, Seq<char>)> {
    seq![("Accept"@, "application/json"@), ("Content-Type"@, "application/json"@)]
}

/// The query that selects the current user's issues, with only the fields shown.
pub open spec fn assigned_query() -> Seq<(Seq<char>, Seq<char>)> {
    seq![("jql"@, "assignee=currentUser()"@), ("fields"@, "summary,status,assignee"@)]
}

/// The connectivity probe: the current-user resource.
pub open spec fn probe_request_of(c: ClientView) -> RequestView {
    RequestView {
        method: HttpMethod::Get,
        url: c.base_url + "/rest/api/3/myself"@,
        headers: json_accept(),
        query: seq![],
        username: c.email,
        password: c.access_token,
    }
}

/// The search for issues assigned to the current user.
pub open spec fn search_request_of(c: ClientView) -> RequestView {
    RequestView {
        method: HttpMethod::Get,
        url: c.base_url + "/rest/api/3/search"@,
        headers: json_accept(),
        query: assigned_query(),
        username: c.email,
        password: c.access_token,
    }
}

/// The creation of a worklog under the issue `issue_key`.
pub open spec fn worklog_request_of(c: ClientView, issue_key: Seq<char>) -> RequestView {
    RequestView {
        method: HttpMethod::Post,
        url: c.base_url + "/rest/api/3/issue/"@ + issue_key + "/worklog"@,
        headers: json_accept_and_content(),
        query: seq![],
        username: c.email,
        password: c.access_token,
    }
}

/// The body of a worklog: the description as a one-paragraph document.
pub open spec fn is_worklog_body(
    b: WorklogRequest,
    description: Seq<char>,
    started: Seq<char>,
    time_spent_seconds: u32,
    visibility: Option<WorklogVisibility>,
) -> bool {
    &&& b.comment.is_single_paragraph(description)
    &&& b.started@ == started
    &&& b.time_spent_seconds == time_spent_seconds
    &&& b.visibility == visibility
}

pub open spec fn is_success_status(status: u16) -> bool {
    200 <= status && status <= 299
}

/// How a response ends: an error status wins; a success needs a decoded body.
pub open spec fn response_outcome<T>(status: u16, body: Option<T>) -> Result<T, JiraError> {
    if !is_success_status(status) {
        Err(JiraError::Remote { status })
    } else {
        match body {
            Some(b) => Ok(b),
            None => Err(JiraError::Decode),
        }
    }
}

/// Whether an HTTP status is in the success range 200..=299.
pub fn is_success(status: u16) -> (r: bool)
    ensures
        r == is_success_status(status),
{
    200 <= status && status <= 299
}

fn header_pair(name: &str, value: &str) -> (r: (String, String))
    ensures
        r.0@ == name@,
        r.1@ == value@,
{
    (String::from_str(name), String::from_str(value))
}

fn json_headers(with_content_type: bool) -> (r: Vec<(String, String)>)
    ensures
        with_content_type ==> pair_views(r@) == json_accept_and_content(),
        !with_content_type ==> pair_views(r@) == json_accept(),
{
    let mut h: Vec<(String, String)> = Vec::new();
    h.push(header_pair("Accept", "application/json"));
    if with_content_type {
        h.push(header_pair("Content-Type", "application/json"));
        assert(pair_views(h@) =~= json_accept_and_content());
    } else {
        assert(pair_views(h@) =~= json_accept());
    }
    h
}

impl JiraClient {
    /// Seconds for a human duration such as `2h`, `30m`, `1d` or `1.5h`,
    /// after surrounding whitespace is removed: `EmptyInput` when nothing is
    /// left, otherwise as `parse_trimmed_duration`.
    pub fn parse_time_to_seconds(time_str: &str) -> (r: Result<u32, DurationError>)
        ensures
            r == duration_seconds(trimmed(time_str@)),
    {
        let t = trim_whitespace(time_str);
        parse_trimmed_duration(t)
    }

    /// A client that validates server certificates.
    pub fn new(base_url: String, email: String, access_token: String) -> (r: Result<
        JiraClient,
        JiraError,
    >)
        ensures
            r matches Ok(c) ==> c@ == (ClientView {
                base_url: base_url@,
                email: email@,
                access_token: access_token@,
                policy: CertificatePolicy::Verify,
                transport_accepts_invalid: false,
            }),
            r matches Err(e) ==> e == JiraError::Transport,
    {
        JiraClient::with_policy(base_url, email, access_token, CertificatePolicy::Verify)
    }

    /// A client with an explicit certificate policy. Fails with `Transport`
    /// only when the transport cannot be set up.
    pub fn with_policy(
        base_url: String,
        email: String,
        access_token: String,
        policy: CertificatePolicy,
    ) -> (r: Result<JiraClient, JiraError>)
        ensures
            r matches Ok(c) ==> c@ == (ClientView {
                base_url: base_url@,
                email: email@,
                access_token: access_token@,
                policy,
                transport_accepts_invalid: policy == CertificatePolicy::AcceptInvalid,
            }),
            r matches Err(e) ==> e == JiraError::Transport,
    {
        let accepts_invalid = accepts_invalid_certs(policy);
        match build_transport(accepts_invalid) {
            Ok(transport) => Ok(
                JiraClient { base_url, email, access_token, policy, accepts_invalid, transport },
            ),
            Err(_) => Err(JiraError::Transport),
        }
    }

    pub fn base_url(&self) -> (r: &str)
        ensures
            r@ == self@.base_url,
    {
        self.base_url.as_str()
    }

    pub fn email(&self) -> (r: &str)
        ensures
            r@ == self@.email,
    {
        self.email.as_str()
    }

    pub fn access_token(&self) -> (r: &str)
        ensures
            r@ == self@.access_token,
    {
        self.access_token.as_str()
    }

    pub fn policy(&self) -> (r: CertificatePolicy)
        ensures
            r == self@.policy,
    {
        self.policy
    }

    /// Whether the transport skips certificate validation.
    pub fn transport_accepts_invalid(&self) -> (r: bool)
        ensures
            r == self@.transport_accepts_invalid,
    {
        self.accepts_invalid
    }

    /// The transport, for sending the requests this client describes.
    pub fn transport(&self) -> &reqwest::Client {
        &self.transport
    }

    /// Another handle with the same credentials and the same transport.
    pub fn share(&self) -> (r: JiraClient)
        ensures
            r@ == self@,
    {
        JiraClient {
            base_url: self.base_url.clone(),
            email: self.email.clone(),
            access_token: self.access_token.clone(),
            policy: self.policy,
            accepts_invalid: self.accepts_invalid,
            transport: self.transport.clone(),
        }
    }

    fn url_with(&self, path: &str) -> (r: String)
        ensures
            r@ == self.base_url@ + path@,
    {
        let mut url = self.base_url.clone();
        url.append(path);
        url
    }

    /// The connectivity probe; success is a status in 200..=299.
    pub fn probe_request(&self) -> (r: HttpRequest)
        ensures
            r@ == probe_request_of(self@),
    {
        let r = HttpRequest {
            method: HttpMethod::Get,
            url: self.url_with("/rest/api/3/myself"),
            headers: json_headers(false),
            query: Vec::new(),
            username: self.email.clone(),
            password: self.access_token.clone(),
        };
        assert(r@.query =~= seq![]);
        r
    }

    /// The search for the issues assigned to the current user (first page only).
    pub fn search_request(&self) -> (r: HttpRequest)
        ensures
            r@ == search_request_of(self@),
    {
        let mut query: Vec<(String, String)> = Vec::new();
        query.push(header_pair("jql", "assignee=currentUser()"));
        query.push(header_pair("fields", "summary,status,assignee"));
        assert(pair_views(query@) =~= assigned_query());
        HttpRequest {
            method: HttpMethod::Get,
            url: self.url_with("/rest/api/3/search"),
            headers: json_headers(false),
            query,
            username: self.email.clone(),
            password: self.access_token.clone(),
        }
    }

    /// The request and body that create a worklog of `time_spent_seconds` on
    /// `issue_key`, with `description` as a one-paragraph comment.
    pub fn worklog_request(
        &self,
        issue_key: &str,
        description: &str,
        started: &str,
        time_spent_seconds: u32,
        visibility: Option<WorklogVisibility>,
    ) -> (r: (HttpRequest, WorklogRequest))
        ensures
            r.0@ == worklog_request_of(self@, issue_key@),
            is_worklog_body(r.1, description@, started@, time_spent_seconds, visibility),
    {
        let mut url = self.url_with("/rest/api/3/issue/");
        url.append(issue_key);
        url.append("/worklog");
        let request = HttpRequest {
            method: HttpMethod::Post,
            url,
            headers: json_headers(true),
            query: Vec::new(),
            username: self.email.clone(),
            password: self.access_token.clone(),
        };
        assert(request@.query =~= seq![]);
        let body = WorklogRequest {
            comment: WorklogComment::single_paragraph(description),
            started: String::from_str(started),
            time_spent_seconds,
            visibility,
        };
        (request, body)
    }
}

/// Outcome of the connectivity probe from its status.
pub fn probe_outcome(status: u16) -> (r: bool)
    ensures
        r == is_success_status(status),
{
    is_success(status)
}

/// Outcome of the issue search: the issues of the first page, `Remote` for an
/// error status, `Decode` when a success came without a readable body.
pub fn search_outcome(status: u16, body: Option<JiraSearchResponse>) -> (r: Result<
    Vec<JiraIssue>,
    JiraError,
>)
    ensures
        r == (match response_outcome(status, body) {
            Ok(b) => Ok(b.issues),
            Err(e) => Err(e),
        }),
{
    if !is_success(status) {
        return Err(JiraError::Remote { status });
    }
    match body {
        Some(b) => Ok(b.issues),
        None => Err(JiraError::Decode),
    }
}

/// Outcome of a worklog creation, by the same rule as `search_outcome`.
pub fn worklog_outcome(status: u16, body: Option<WorklogResponse>) -> (r: Result<
    WorklogResponse,
    JiraError,
>)
    ensures
        r == response_outcome(status, body),
{
    if !is_success(status) {
        return Err(JiraError::Remote { status });
    }
    match body {
        Some(b) => Ok(b),
        None => Err(JiraError::Decode),
    }
}

} // verus!
