//! Decisions of the client of the upstream server's admin API: where its
//! endpoints are, which answers count as success, and what error a failed
//! exchange reports.

use vstd::prelude::*;
use crate::json::{json_compact_text, value_model, value_to_string};
use crate::text::{decimal, push_decimal};

verus! {

/// The login endpoint, relative to the server's base URL.
pub const LOGIN_PATH: &'static str = "/admin/api/login";
/// The queue statistics endpoint.
pub const STATS_PATH: &'static str = "/admin/api/stats";
/// The global settings endpoint.
pub const GLOBAL_SETTINGS_PATH: &'static str = "/admin/api/global-settings";

/// A failed exchange with the admin API.
#[derive(Debug)]
pub enum AdminError {
    /// The request could not be made or its answer could not be read; the
    /// HTTP client's own description.
    Http(String),
    /// The server answered with a status outside 200..=299.
    LoginFailed { status: u16, message: String },
    /// No session has been opened yet.
    NotConnected,
}

/// The text an [`AdminError`] is shown as.
pub open spec fn admin_error_text(e: AdminError) -> Seq<char> {
    match e {
        AdminError::Http(m) => "HTTP error: "@ + m@,
        AdminError::LoginFailed { status, message } => "omlx login failed with HTTP "@ + decimal(
            status as nat,
        ) + ": "@ + message@,
        AdminError::NotConnected => "not connected — call omlx_connect first"@,
    }
}

impl AdminError {
    /// The text the error is shown as (see [`admin_error_text`]).
    pub fn message(&self) -> (r: String)
        ensures
            r@ == admin_error_text(*self),
    {
        match self {
            AdminError::Http(m) => {
                let mut s = "HTTP error: ".to_owned();
                s.append(m.as_str());
                s
            },
            AdminError::LoginFailed { status, message } => {
                let mut s = "omlx login failed with HTTP ".to_owned();
                push_decimal(&mut s, *status as u64);
                s.append(": ");
                s.append(message.as_str());
                s
            },
            AdminError::NotConnected => "not connected — call omlx_connect first".to_owned(),
        }
    }
}

/// Whether an HTTP status is a success (`StatusCode::is_success`).
pub open spec fn is_success_spec(status: u16) -> bool {
    200 <= status <= 299
}

/// Whether an HTTP status is a success: 200..=299.
pub fn is_success_status(status: u16) -> (r: bool)
    ensures
        r == is_success_spec(status),
{
    200 <= status && status <= 299
}

/// The URL of an admin endpoint: the base URL followed by the endpoint path.
pub fn admin_url(base_url: &str, path: &str) -> (r: String)
    ensures
        r@ == base_url@ + path@,
{
    let mut url = base_url.to_owned();
    url.append(path);
    url
}

/// The outcome of a login answered with `status` and body text `body`: a
/// session on success, else the failure with that status and body.
pub fn login_outcome(status: u16, body: String) -> (r: Result<(), AdminError>)
    ensures
        is_success_spec(status) ==> r is Ok,
        !is_success_spec(status) ==> (r matches Err(AdminError::LoginFailed { status: s, message: m })
            && s == status && m@ == body@),
{
    if is_success_status(status) {
        Ok(())
    } else {
        Err(AdminError::LoginFailed { status, message: body })
    }
}

/// The outcome of an admin request answered with `status` and the JSON
/// document `body`: the document on success; else the failure with that
/// status and the document's compact text.
pub fn response_outcome(status: u16, body: serde_json::Value) -> (r: Result<
    serde_json::Value,
    AdminError,
>)
    ensures
        is_success_spec(status) ==> (r matches Ok(v) && v == body),
        !is_success_spec(status) ==> (r matches Err(AdminError::LoginFailed { status: s, message: m })
            && s == status && (json_compact_text(value_model(body)) matches Some(t) ==> m@ == t)),
{
    if is_success_status(status) {
        return Ok(body);
    }
    let message = match value_to_string(&body) {
        Some(t) => t,
        None => String::new(),
    };
    Err(AdminError::LoginFailed { status, message })
}

/// The session, or `NotConnected` when none has been opened.
pub fn session_or_not_connected<S>(session: Option<S>) -> (r: Result<S, AdminError>)
    ensures
        match session {
            Some(s) => r == Ok::<S, AdminError>(s),
            None => r matches Err(AdminError::NotConnected),
        },
{
    match session {
        Some(s) => Ok(s),
        None => Err(AdminError::NotConnected),
    }
}

} // verus!
