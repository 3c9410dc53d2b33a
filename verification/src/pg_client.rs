//! Errors and request bodies of the HTTP client that PostgreSQL uses to reach
//! the query API.

use vstd::prelude::*;
use crate::text::{decimal, owned, push_decimal, push_str};

verus! {

/// Errors from the Tesseract HTTP client.
#[derive(Debug)]
pub enum ClientError {
    /// Network or connection-level failure (timeout, refused, DNS, etc.).
    ConnectionError(String),
    /// Tesseract responded with an application-level error.
    RequestError { status: u16, message: String },
    /// Failed to parse the response body.
    ParseError(String),
}

/// The human-readable message of a client error.
pub open spec fn client_error_message(e: &ClientError) -> Seq<char> {
    match e {
        ClientError::ConnectionError(m) => "connection error: "@ + m@,
        ClientError::RequestError { status, message } => "request failed ("@ + decimal(*status as nat) + "): "@ + message@,
        ClientError::ParseError(m) => "parse error: "@ + m@,
    }
}

impl ClientError {
    /// The human-readable message of this error.
    pub fn to_string(&self) -> (r: String)
        ensures
            r@ == client_error_message(self),
    {
        match self {
            ClientError::ConnectionError(m) => {
                let mut s = owned("connection error: ");
                push_str(&mut s, m.as_str());
                s
            },
            ClientError::RequestError { status, message } => {
                let mut s = owned("request failed (");
                push_decimal(&mut s, *status as u128);
                push_str(&mut s, "): ");
                push_str(&mut s, message.as_str());
                s
            },
            ClientError::ParseError(m) => {
                let mut s = owned("parse error: ");
                push_str(&mut s, m.as_str());
                s
            },
        }
    }
}

/// Body sent to `POST /query`.
#[derive(Debug)]
pub struct QueryArgs {
    pub vql: String,
    pub user_id: Option<String>,
}

/// Response from `POST /insert`.
#[derive(Debug)]
pub struct InsertResponse {
    pub success: bool,
    pub id: u64,
    pub error: Option<String>,
}

/// The error of a response with HTTP status `status` whose body reports
/// `success` and `error`: none when the status is 2xx and the body reports
/// success, and otherwise a failed request carrying the status and the
/// reported error (`unknown error` when none is reported).
pub fn response_error(status: u16, success: bool, error: Option<String>) -> (r: Option<ClientError>)
    ensures
        (200 <= status <= 299 && success) ==> r is None,
        !(200 <= status <= 299 && success) ==> (r matches Some(ClientError::RequestError { status: s, message })
            && s == status && message@ == match error {
            Some(e) => e@,
            None => "unknown error"@,
        }),
{
    if 200 <= status && status <= 299 && success {
        None
    } else {
        let message = match error {
            Some(e) => e,
            None => owned("unknown error"),
        };
        Some(ClientError::RequestError { status, message })
    }
}

/// The SQL error class a failed call is raised with in PostgreSQL.
#[derive(Debug, Clone, Copy, PartialEq, Eq, Structural)]
pub enum SqlErrorClass {
    /// `connection_failure`.
    ConnectionFailure,
    /// `data_exception`.
    DataException,
}

/// How a client error is raised in PostgreSQL: its SQL error class and
/// message. A connection failure is `connection refused`, a refused request
/// carries the server's message, and a parse failure says so.
pub fn sql_error(err: &ClientError) -> (r: (SqlErrorClass, String))
    ensures
        match err {
            ClientError::ConnectionError(m) => r.0 == SqlErrorClass::ConnectionFailure
                && r.1@ == "tesseract_fdw: connection refused: "@ + m@,
            ClientError::RequestError { message, .. } => r.0 == SqlErrorClass::DataException
                && r.1@ == "tesseract_fdw: "@ + message@,
            ClientError::ParseError(m) => r.0 == SqlErrorClass::DataException
                && r.1@ == "tesseract_fdw: parse error: "@ + m@,
        },
{
    match err {
        ClientError::ConnectionError(m) => {
            let mut s = owned("tesseract_fdw: connection refused: ");
            push_str(&mut s, m.as_str());
            (SqlErrorClass::ConnectionFailure, s)
        },
        ClientError::RequestError { message, .. } => {
            let mut s = owned("tesseract_fdw: ");
            push_str(&mut s, message.as_str());
            (SqlErrorClass::DataException, s)
        },
        ClientError::ParseError(m) => {
            let mut s = owned("tesseract_fdw: parse error: ");
            push_str(&mut s, m.as_str());
            (SqlErrorClass::DataException, s)
        },
    }
}

} // verus!
