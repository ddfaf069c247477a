//! The server side of the protocol: what response each engine outcome earns,
//! and how a server infers which engine's data already lives in a directory.
//!
//! The accept loop, sockets and worker pool are plumbing around this logic
//! and live outside the library; they decode a request, call the engine, and
//! send back exactly the response these functions prescribe.

use vstd::prelude::*;

use crate::engine::KvsEngine;
use crate::errors::KvsError;
use crate::network::{
    decode_network_command_at, spec_decode_net_command, ErrorType, NetworkCommand,
    NetworkCommandView, NetworkResponse, NetworkResponseView,
};

verus! {

/// The response to a `Get` that returned `r`.
pub fn get_response(r: Result<Option<String>, KvsError>) -> (resp: NetworkResponse)
    ensures
        match r {
            Ok(Some(v)) => resp@ matches crate::network::NetworkResponseView::Value(x) && x
                == v@,
            Ok(None) => resp is Empty,
            Err(_) => resp@ matches crate::network::NetworkResponseView::Error { code } && code
                == ErrorType::Unknown,
        },
{
    match r {
        Ok(Some(v)) => NetworkResponse::Value(v),
        Ok(None) => NetworkResponse::Empty,
        Err(_) => NetworkResponse::Error { code: ErrorType::Unknown },
    }
}

/// The response to a `Put` that returned `r`.
pub fn set_response(r: Result<(), KvsError>) -> (resp: NetworkResponse)
    ensures
        match r {
            Ok(()) => resp is Empty,
            Err(_) => resp@ matches crate::network::NetworkResponseView::Error { code } && code
                == ErrorType::Unknown,
        },
{
    match r {
        Ok(()) => NetworkResponse::Empty,
        Err(_) => NetworkResponse::Error { code: ErrorType::Unknown },
    }
}

/// The response to a `Rm` that returned `r`: a missing key keeps its own
/// error code, every other failure is anonymous.
pub fn remove_response(r: Result<(), KvsError>) -> (resp: NetworkResponse)
    ensures
        match r {
            Ok(()) => resp is Empty,
            Err(e) => resp@ matches crate::network::NetworkResponseView::Error { code } && code
                == (if e == KvsError::KeyNotFound {
                    ErrorType::KeyNotFound
                } else {
                    ErrorType::Unknown
                }),
        },
{
    match r {
        Ok(()) => NetworkResponse::Empty,
        Err(KvsError::KeyNotFound) => NetworkResponse::Error { code: ErrorType::KeyNotFound },
        Err(_) => NetworkResponse::Error { code: ErrorType::Unknown },
    }
}

/// The responses a request of each kind can earn, whatever the engine
/// returns: a read answers with a value, an empty hit or the anonymous
/// error; a put answers empty or anonymously; a removal may also report the
/// missing key.
pub open spec fn spec_response_shape(cmd: NetworkCommandView, resp: NetworkResponseView) -> bool {
    match cmd {
        NetworkCommandView::Get { .. } => resp matches NetworkResponseView::Value(_) || resp
            is Empty || resp == (NetworkResponseView::Error { code: ErrorType::Unknown }),
        NetworkCommandView::Put { .. } => resp is Empty || resp == (
        NetworkResponseView::Error { code: ErrorType::Unknown }),
        NetworkCommandView::Rm { .. } => resp is Empty || resp == (NetworkResponseView::Error {
            code: ErrorType::KeyNotFound,
        }) || resp == (NetworkResponseView::Error { code: ErrorType::Unknown }),
    }
}

/// Run one decoded request against the engine and build its response. The
/// exact dispatch table is stated on [`get_response`], [`set_response`] and
/// [`remove_response`]; whatever the engine returned, the response lies in
/// the request's row of that table.
pub fn handle_command<E: KvsEngine>(cmd: &NetworkCommand, engine: &E) -> (resp: NetworkResponse)
    ensures
        spec_response_shape(cmd@, resp@),
{
    match cmd {
        NetworkCommand::Get { key } => get_response(engine.get(key.clone())),
        NetworkCommand::Put { key, value } => set_response(
            engine.set(key.clone(), value.clone()),
        ),
        NetworkCommand::Rm { key } => remove_response(engine.remove(key.clone())),
    }
}

/// Answer one raw request record: a record that does not decode earns the
/// decode-failure error; a decoded request is dispatched to the engine and
/// answered within its row of the table.
pub fn respond_to_record<E: KvsEngine>(record: &Vec<u8>, engine: &E) -> (resp: NetworkResponse)
    ensures
        match spec_decode_net_command(record@) {
            Some((c, _)) => spec_response_shape(c, resp@),
            None => resp@ == (NetworkResponseView::Error {
                code: ErrorType::CommandDeserialisation,
            }),
        },
{
    proof {
        assert(record@.skip(0) =~= record@);
    }
    match decode_network_command_at(record, 0) {
        Ok((cmd, _)) => handle_command(&cmd, engine),
        Err(_) => NetworkResponse::Error { code: ErrorType::CommandDeserialisation },
    }
}

/// The storage engines a server can run.
#[derive(Debug, Clone, Copy, PartialEq, Eq, Structural)]
pub enum EngineType {
    Kvs,
    Sled,
}

impl EngineType {
    /// The engine's name, as used on the command line and in logs.
    pub fn name(&self) -> (r: &'static str)
        ensures
            r@.len() > 0,
    {
        proof {
            reveal_strlit("kvs");
            reveal_strlit("sled");
        }
        match self {
            EngineType::Kvs => "kvs",
            EngineType::Sled => "sled",
        }
    }
}

/// Which engine already has data in the working directory? The caller
/// reports whether each engine's subdirectory exists; the native engine
/// wins when both do.
pub fn existing_engine(kvs_dir_exists: bool, sled_dir_exists: bool) -> (r: Option<EngineType>)
    ensures
        r == (if kvs_dir_exists {
            Some(EngineType::Kvs)
        } else if sled_dir_exists {
            Some(EngineType::Sled)
        } else {
            None::<EngineType>
        }),
{
    if kvs_dir_exists {
        Some(EngineType::Kvs)
    } else if sled_dir_exists {
        Some(EngineType::Sled)
    } else {
        None
    }
}

} // verus!
