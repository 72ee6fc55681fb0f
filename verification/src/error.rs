use vstd::prelude::*;

use crate::endpoint::{Labels, display_labels};
use crate::text::owned;

verus! {

/// Errors that may occur in this library.
#[derive(Debug, PartialEq, Eq)]
pub enum Error {
    /// Endpoint does not exist.
    NoSuchEndpoint(String),
    /// Bad json.
    BadJson {
        /// The problematic request.
        request: String,
        /// The deserialization issue.
        problem: String,
    },
    /// User tried to perform something which requires permission
    /// without having that permission first.
    NoPermit(String),
    /// The user asked for more than what was needed.
    /// For example, observe same endpoint twice.
    SuperfluousRequest(String),
    /// The user did something which is not valid.
    BadUsage(String),
    /// Configuration file problems.
    BadConfig(String),
    /// No endpoint carries all the requested labels.
    NoMatchingEndpoints(Labels),
    /// A problem with the websocket connection.
    WebsocketIssue(String),
    /// A problem inside the server.
    InternalIssue(String),
}

/// The mathematical value of an [`Error`].
pub enum ErrorView {
    /// Endpoint does not exist.
    NoSuchEndpoint(Seq<char>),
    /// Bad json.
    BadJson { request: Seq<char>, problem: Seq<char> },
    /// Missing permission.
    NoPermit(Seq<char>),
    /// Superfluous request.
    SuperfluousRequest(Seq<char>),
    /// Bad usage.
    BadUsage(Seq<char>),
    /// Bad configuration.
    BadConfig(Seq<char>),
    /// No matching endpoints.
    NoMatchingEndpoints(Seq<Seq<char>>),
    /// Websocket problem.
    WebsocketIssue(Seq<char>),
    /// Internal problem.
    InternalIssue(Seq<char>),
}

impl View for Error {
    type V = ErrorView;

    open spec fn view(&self) -> ErrorView {
        match self {
            Error::NoSuchEndpoint(s) => ErrorView::NoSuchEndpoint(s@),
            Error::BadJson { request, problem } => ErrorView::BadJson { request: request@, problem: problem@ },
            Error::NoPermit(s) => ErrorView::NoPermit(s@),
            Error::SuperfluousRequest(s) => ErrorView::SuperfluousRequest(s@),
            Error::BadUsage(s) => ErrorView::BadUsage(s@),
            Error::BadConfig(s) => ErrorView::BadConfig(s@),
            Error::NoMatchingEndpoints(l) => ErrorView::NoMatchingEndpoints(l@),
            Error::WebsocketIssue(s) => ErrorView::WebsocketIssue(s@),
            Error::InternalIssue(s) => ErrorView::InternalIssue(s@),
        }
    }
}

/// The text of an error, as shown to people.
pub open spec fn error_message(e: ErrorView) -> Seq<char> {
    match e {
        ErrorView::NoSuchEndpoint(s) => "The endpoint `"@ + s + "` does not exist"@,
        ErrorView::BadJson { request, problem } =>
            "The request `"@ + request + "` could not be deserialized. Problem: "@ + problem,
        ErrorView::NoPermit(s) => "No permit: "@ + s,
        ErrorView::SuperfluousRequest(s) => "The request was superfluous. Problem: `"@ + s + "`"@,
        ErrorView::BadUsage(s) => "The request did not conform to valid usage. Problem: `"@ + s + "`"@,
        ErrorView::BadConfig(s) => "The server configuration is not valid. Problem: `"@ + s + "`"@,
        ErrorView::NoMatchingEndpoints(l) => "No endpoints match the labels: "@ + display_labels(l),
        ErrorView::WebsocketIssue(s) => "Websocket issue: "@ + s,
        ErrorView::InternalIssue(s) => "Internal issue: "@ + s,
    }
}

fn wrap(prefix: &str, inner: &String, suffix: &str) -> (s: String)
    ensures
        s@ == prefix@ + inner@ + suffix@,
{
    let mut s = owned(prefix);
    s.append(inner.as_str());
    s.append(suffix);
    s
}

impl Error {
    /// Try coercing this error into a bad config error.
    pub fn try_into_bad_config(self) -> (r: Result<String, Self>)
        ensures
            match self@ {
                ErrorView::BadConfig(m) => r is Ok && r->Ok_0@ == m,
                _ => r is Err && r->Err_0@ == self@,
            },
    {
        match self {
            Error::BadConfig(v) => Ok(v),
            other => Err(other),
        }
    }

    /// The error's text, as shown to people.
    pub fn message(&self) -> (s: String)
        ensures
            s@ == error_message(self@),
    {
        proof {
            reveal_strlit("");
            reveal_strlit("`");
            reveal_strlit("The endpoint `");
            reveal_strlit("` does not exist");
            reveal_strlit("The request `");
            reveal_strlit("` could not be deserialized. Problem: ");
            reveal_strlit("No permit: ");
            reveal_strlit("The request was superfluous. Problem: `");
            reveal_strlit("The request did not conform to valid usage. Problem: `");
            reveal_strlit("The server configuration is not valid. Problem: `");
            reveal_strlit("No endpoints match the labels: ");
            reveal_strlit("Websocket issue: ");
            reveal_strlit("Internal issue: ");
        }
        match self {
            Error::NoSuchEndpoint(s) => wrap("The endpoint `", s, "` does not exist"),
            Error::BadJson { request, problem } => {
                let mut m = wrap("The request `", request, "` could not be deserialized. Problem: ");
                m.append(problem.as_str());
                m
            },
            Error::NoPermit(s) => wrap("No permit: ", s, ""),
            Error::SuperfluousRequest(s) => wrap("The request was superfluous. Problem: `", s, "`"),
            Error::BadUsage(s) => wrap("The request did not conform to valid usage. Problem: `", s, "`"),
            Error::BadConfig(s) => wrap("The server configuration is not valid. Problem: `", s, "`"),
            Error::NoMatchingEndpoints(l) => {
                let t = l.display();
                wrap("No endpoints match the labels: ", &t, "")
            },
            Error::WebsocketIssue(s) => wrap("Websocket issue: ", s, ""),
            Error::InternalIssue(s) => wrap("Internal issue: ", s, ""),
        }
    }
}

} // verus!
