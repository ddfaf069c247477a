//! The client side of the protocol: how one response answers one request.
//!
//! A client sends a request, reads exactly one response and translates it;
//! the socket plumbing lives outside the library and hands the decoded
//! response — or the fact that there was none, or that it was malformed —
//! to these functions.

use vstd::prelude::*;

use crate::network::{ErrorType, NetworkResponse};

verus! {

/// Everything that can go wrong on the client.
#[derive(Debug, Clone, Copy, PartialEq, Eq, Structural)]
pub enum Error {
    /// The response bytes could not be decoded.
    ResponseDeserialisation,
    /// The response does not answer the request that was sent.
    UnexpectedResponse,
    /// The removed key was not present on the server.
    KeyNotFound,
    /// The connection closed before any response arrived.
    NoResponse,
    /// The server reported this error.
    Server(ErrorType),
}

impl Error {
    /// A short human-readable description, for front ends that print errors.
    pub fn message(&self) -> (r: &'static str)
        ensures
            r@.len() > 0,
    {
        let r = match self {
            Error::ResponseDeserialisation => "Failed to deserialise response",
            Error::UnexpectedResponse => "Unexpected response",
            Error::KeyNotFound => "Key not found",
            Error::NoResponse => "No response from server",
            Error::Server(_) => "Server error",
        };
        proof {
            reveal_strlit("Failed to deserialise response");
            reveal_strlit("Unexpected response");
            reveal_strlit("Key not found");
            reveal_strlit("No response from server");
            reveal_strlit("Server error");
        }
        r
    }
}

/// What a `get` round trip yields. `resp` is the decoded response, absent
/// when the stream ended, or an error when its bytes were malformed.
pub fn translate_get(resp: Option<Result<NetworkResponse, crate::errors::KvsError>>) -> (r:
    Result<Option<String>, Error>)
    ensures
        match resp {
            None => r == Err::<Option<String>, Error>(Error::NoResponse),
            Some(Err(_)) => r == Err::<Option<String>, Error>(Error::ResponseDeserialisation),
            Some(Ok(p)) => match p@ {
                crate::network::NetworkResponseView::Value(v) => r matches Ok(Some(x)) && x@
                    == v,
                crate::network::NetworkResponseView::Empty => r == Ok::<
                    Option<String>,
                    Error,
                >(None::<String>),
                crate::network::NetworkResponseView::Error { code } => r == Err::<
                    Option<String>,
                    Error,
                >(Error::Server(code)),
            },
        },
{
    match resp {
        None => Err(Error::NoResponse),
        Some(Err(_)) => Err(Error::ResponseDeserialisation),
        Some(Ok(p)) => match p {
            NetworkResponse::Value(v) => Ok(Some(v)),
            NetworkResponse::Empty => Ok(None),
            NetworkResponse::Error { code } => Err(Error::Server(code)),
        },
    }
}

/// What a `set` round trip yields.
pub fn translate_set(resp: Option<Result<NetworkResponse, crate::errors::KvsError>>) -> (r:
    Result<(), Error>)
    ensures
        match resp {
            None => r == Err::<(), Error>(Error::NoResponse),
            Some(Err(_)) => r == Err::<(), Error>(Error::ResponseDeserialisation),
            Some(Ok(p)) => match p@ {
                crate::network::NetworkResponseView::Value(_) => r == Err::<(), Error>(
                    Error::UnexpectedResponse,
                ),
                crate::network::NetworkResponseView::Empty => r == Ok::<(), Error>(()),
                crate::network::NetworkResponseView::Error { code } => r == Err::<(), Error>(
                    Error::Server(code),
                ),
            },
        },
{
    match resp {
        None => Err(Error::NoResponse),
        Some(Err(_)) => Err(Error::ResponseDeserialisation),
        Some(Ok(p)) => match p {
            NetworkResponse::Value(_) => Err(Error::UnexpectedResponse),
            NetworkResponse::Empty => Ok(()),
            NetworkResponse::Error { code } => Err(Error::Server(code)),
        },
    }
}

/// What a `remove` round trip yields: the server's missing-key report keeps
/// its own error kind so a front end can exit accordingly.
pub fn translate_remove(resp: Option<Result<NetworkResponse, crate::errors::KvsError>>) -> (r:
    Result<(), Error>)
    ensures
        match resp {
            None => r == Err::<(), Error>(Error::NoResponse),
            Some(Err(_)) => r == Err::<(), Error>(Error::ResponseDeserialisation),
            Some(Ok(p)) => match p@ {
                crate::network::NetworkResponseView::Value(_) => r == Err::<(), Error>(
                    Error::UnexpectedResponse,
                ),
                crate::network::NetworkResponseView::Empty => r == Ok::<(), Error>(()),
                crate::network::NetworkResponseView::Error { code } => r == (if code
                    == ErrorType::KeyNotFound {
                    Err::<(), Error>(Error::KeyNotFound)
                } else {
                    Err::<(), Error>(Error::Server(code))
                }),
            },
        },
{
    match resp {
        None => Err(Error::NoResponse),
        Some(Err(_)) => Err(Error::ResponseDeserialisation),
        Some(Ok(p)) => match p {
            NetworkResponse::Value(_) => Err(Error::UnexpectedResponse),
            NetworkResponse::Empty => Ok(()),
            NetworkResponse::Error { code } => match code {
                ErrorType::KeyNotFound => Err(Error::KeyNotFound),
                _ => Err(Error::Server(code)),
            },
        },
    }
}

} // verus!
