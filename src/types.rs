use vstd::prelude::*;

verus! {

/// An issue as the search endpoint returns it; never changed locally.
#[derive(Debug, Clone, PartialEq, Eq)]
pub struct JiraIssue {
    pub key: String,
    pub fields: IssueFields,
}

#[derive(Debug, Clone, PartialEq, Eq)]
pub struct IssueFields {
    pub summary: String,
    pub status: IssueStatus,
    pub assignee: Option<IssueAssignee>,
}

#[derive(Debug, Clone, PartialEq, Eq)]
pub struct IssueStatus {
    pub name: String,
}

#[derive(Debug, Clone, PartialEq, Eq)]
pub struct IssueAssignee {
    pub display_name: String,
    pub email_address: String,
}

/// One page of search results; only the first page is ever requested.
#[derive(Debug, Clone, PartialEq, Eq)]
pub struct JiraSearchResponse {
    pub issues: Vec<JiraIssue>,
    pub total: u32,
    pub start_at: u32,
    pub max_results: u32,
}

/// A rich-text document: document, paragraphs, text nodes.
#[derive(Debug, Clone, PartialEq, Eq)]
pub struct WorklogComment {
    pub doc_type: String,
    pub version: u32,
    pub content: Vec<WorklogParagraph>,
}

#[derive(Debug, Clone, PartialEq, Eq)]
pub struct WorklogParagraph {
    pub paragraph_type: String,
    pub content: Vec<WorklogText>,
}

#[derive(Debug, Clone, PartialEq, Eq)]
pub struct WorklogText {
    pub text_type: String,
    pub text: String,
}

#[derive(Debug, Clone, PartialEq, Eq)]
pub struct WorklogVisibility {
    pub visibility_type: String,
    pub identifier: String,
}

/// The body of a worklog creation request.
#[derive(Debug, Clone, PartialEq, Eq)]
pub struct WorklogRequest {
    pub comment: WorklogComment,
    pub started: String,
    pub time_spent_seconds: u32,
    pub visibility: Option<WorklogVisibility>,
}

/// What the server answers to a worklog creation.
#[derive(Debug, Clone, PartialEq, Eq)]
pub struct WorklogResponse {
    pub id: String,
    pub issue_id: String,
    pub started: String,
    pub time_spent_seconds: u32,
}

impl WorklogComment {
    /// A version-1 document holding one paragraph that holds one text
    /// node with `text`.
    pub open spec fn is_single_paragraph(&self, text: Seq<char>) -> bool {
        &&& self.doc_type@ == "doc"@
        &&& self.version == 1
        &&& self.content@.len() == 1
        &&& self.content@[0].paragraph_type@ == "paragraph"@
        &&& self.content@[0].content@.len() == 1
        &&& self.content@[0].content@[0].text_type@ == "text"@
        &&& self.content@[0].content@[0].text@ == text
    }

    /// The document that wraps `text` as a single paragraph.
    pub fn single_paragraph(text: &str) -> (r: WorklogComment)
        ensures
            r.is_single_paragraph(text@),
    {
        let node = WorklogText { text_type: String::from_str("text"), text: String::from_str(text) };
        let mut texts: Vec<WorklogText> = Vec::new();
        texts.push(node);
        let paragraph = WorklogParagraph {
            paragraph_type: String::from_str("paragraph"),
            content: texts,
        };
        let mut paragraphs: Vec<WorklogParagraph> = Vec::new();
        paragraphs.push(paragraph);
        WorklogComment { doc_type: String::from_str("doc"), version: 1, content: paragraphs }
    }
}

} // verus!
