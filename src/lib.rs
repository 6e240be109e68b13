//! Verified core of a desktop worklog companion for a JIRA instance: the
//! duration grammar, the request and response rules of the REST client, the
//! single-session store and the daily reminder check.

pub mod client;
pub mod duration;
pub mod error;
pub mod types;
pub mod reminder;
pub mod session;
