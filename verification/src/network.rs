//! The wire protocol: the request and response records the client and
//! server exchange, and their codec.
//!
//! A request is tagged `Get`, `Put` or `Rm` and carries a key — and, for
//! `Put`, a value. A response is an error code, an empty success, or a
//! value. Records use the same self-delimiting framing as the on-disk
//! codec: a tag byte followed by length-prefixed UTF-8 strings, so a stream
//! of them can be decoded back to back.

use vstd::prelude::*;
use vstd::utf8::encode_utf8;

use crate::codec::{
    decode_str_at, encode_str_into, lemma_str_round_trip, spec_decode_str, spec_encode_str,
};
use crate::errors::KvsError;

verus! {

broadcast use {vstd::utf8::group_utf8_lib, vstd::seq::group_seq_axioms};

/// A request on the wire.
#[derive(Debug, Clone)]
pub enum NetworkCommand {
    Get { key: String },
    Put { key: String, value: String },
    Rm { key: String },
}

/// The mathematical form of a [`NetworkCommand`].
pub enum NetworkCommandView {
    Get { key: Seq<char> },
    Put { key: Seq<char>, value: Seq<char> },
    Rm { key: Seq<char> },
}

impl View for NetworkCommand {
    type V = NetworkCommandView;

    open spec fn view(&self) -> NetworkCommandView {
        match self {
            NetworkCommand::Get { key } => NetworkCommandView::Get { key: key@ },
            NetworkCommand::Put { key, value } => NetworkCommandView::Put {
                key: key@,
                value: value@,
            },
            NetworkCommand::Rm { key } => NetworkCommandView::Rm { key: key@ },
        }
    }
}

impl NetworkCommandView {
    /// The strings fit the framing's length prefixes; every executable
    /// request satisfies this.
    pub open spec fn wf(self) -> bool {
        match self {
            NetworkCommandView::Get { key } => encode_utf8(key).len() <= u64::MAX,
            NetworkCommandView::Put { key, value } => encode_utf8(key).len() <= u64::MAX
                && encode_utf8(value).len() <= u64::MAX,
            NetworkCommandView::Rm { key } => encode_utf8(key).len() <= u64::MAX,
        }
    }
}

/// A response on the wire.
#[derive(Debug, Clone)]
pub enum NetworkResponse {
    Error { code: ErrorType },
    Empty,
    Value(String),
}

/// The mathematical form of a [`NetworkResponse`].
pub enum NetworkResponseView {
    Error { code: ErrorType },
    Empty,
    Value(Seq<char>),
}

impl View for NetworkResponse {
    type V = NetworkResponseView;

    open spec fn view(&self) -> NetworkResponseView {
        match self {
            NetworkResponse::Error { code } => NetworkResponseView::Error { code: *code },
            NetworkResponse::Empty => NetworkResponseView::Empty,
            NetworkResponse::Value(v) => NetworkResponseView::Value(v@),
        }
    }
}

impl NetworkResponseView {
    /// The value string fits the framing's length prefix.
    pub open spec fn wf(self) -> bool {
        match self {
            NetworkResponseView::Value(v) => encode_utf8(v).len() <= u64::MAX,
            _ => true,
        }
    }
}

/// The error codes a server reports.
#[derive(Debug, Clone, Copy, PartialEq, Eq, Structural)]
pub enum ErrorType {
    /// The request record could not be decoded.
    CommandDeserialisation,
    /// A removal named a key the store does not hold.
    KeyNotFound,
    /// Any other engine failure.
    Unknown,
}

/// The code byte for an error kind.
pub open spec fn spec_error_code(e: ErrorType) -> u8 {
    match e {
        ErrorType::CommandDeserialisation => 0u8,
        ErrorType::KeyNotFound => 1u8,
        ErrorType::Unknown => 2u8,
    }
}

/// The encoding of one request record.
pub open spec fn spec_encode_net_command(c: NetworkCommandView) -> Seq<u8> {
    match c {
        NetworkCommandView::Get { key } => seq![0u8] + spec_encode_str(key),
        NetworkCommandView::Put { key, value } => seq![1u8] + spec_encode_str(key)
            + spec_encode_str(value),
        NetworkCommandView::Rm { key } => seq![2u8] + spec_encode_str(key),
    }
}

/// Decode one request record from the front of `s`.
pub open spec fn spec_decode_net_command(s: Seq<u8>) -> Option<(NetworkCommandView, int)> {
    if s.len() < 1 {
        None
    } else if s[0] == 0u8 {
        match spec_decode_str(s.skip(1)) {
            Some((k, n)) => Some((NetworkCommandView::Get { key: k }, 1 + n)),
            None => None,
        }
    } else if s[0] == 1u8 {
        match spec_decode_str(s.skip(1)) {
            Some((k, n1)) => match spec_decode_str(s.skip(1 + n1)) {
                Some((v, n2)) => Some(
                    (NetworkCommandView::Put { key: k, value: v }, 1 + n1 + n2),
                ),
                None => None,
            },
            None => None,
        }
    } else if s[0] == 2u8 {
        match spec_decode_str(s.skip(1)) {
            Some((k, n)) => Some((NetworkCommandView::Rm { key: k }, 1 + n)),
            None => None,
        }
    } else {
        None
    }
}

/// The encoding of one response record.
pub open spec fn spec_encode_net_response(r: NetworkResponseView) -> Seq<u8> {
    match r {
        NetworkResponseView::Error { code } => seq![0u8, spec_error_code(code)],
        NetworkResponseView::Empty => seq![1u8],
        NetworkResponseView::Value(v) => seq![2u8] + spec_encode_str(v),
    }
}

/// Decode one response record from the front of `s`.
pub open spec fn spec_decode_net_response(s: Seq<u8>) -> Option<(NetworkResponseView, int)> {
    if s.len() < 1 {
        None
    } else if s[0] == 0u8 {
        if s.len() < 2 {
            None
        } else if s[1] == 0u8 {
            Some((NetworkResponseView::Error { code: ErrorType::CommandDeserialisation }, 2))
        } else if s[1] == 1u8 {
            Some((NetworkResponseView::Error { code: ErrorType::KeyNotFound }, 2))
        } else if s[1] == 2u8 {
            Some((NetworkResponseView::Error { code: ErrorType::Unknown }, 2))
        } else {
            None
        }
    } else if s[0] == 1u8 {
        Some((NetworkResponseView::Empty, 1))
    } else if s[0] == 2u8 {
        match spec_decode_str(s.skip(1)) {
            Some((v, n)) => Some((NetworkResponseView::Value(v), 1 + n)),
            None => None,
        }
    } else {
        None
    }
}

/// Encode one request record.
pub fn encode_network_command(c: &NetworkCommand) -> (r: Vec<u8>)
    ensures
        r@ == spec_encode_net_command(c@),
        c@.wf(),
{
    let mut out: Vec<u8> = Vec::new();
    match c {
        NetworkCommand::Get { key } => {
            out.push(0u8);
            encode_str_into(&mut out, key);
        },
        NetworkCommand::Put { key, value } => {
            out.push(1u8);
            encode_str_into(&mut out, key);
            encode_str_into(&mut out, value);
        },
        NetworkCommand::Rm { key } => {
            out.push(2u8);
            encode_str_into(&mut out, key);
        },
    }
    proof {
        assert(out@ =~= spec_encode_net_command(c@));
    }
    out
}

/// Decode one request record of `data` starting at `start`.
pub fn decode_network_command_at(data: &Vec<u8>, start: usize) -> (r: Result<
    (NetworkCommand, usize),
    KvsError,
>)
    requires
        start <= data@.len(),
    ensures
        match r {
            Ok((c, next)) => {
                &&& spec_decode_net_command(data@.skip(start as int)) == Some(
                    (c@, next - start as int),
                )
                &&& start < next <= data@.len()
            },
            Err(e) => {
                &&& e == KvsError::CorruptLog
                &&& spec_decode_net_command(data@.skip(start as int)) is None
            },
        },
{
    let ghost tail = data@.skip(start as int);
    if data.len() - start < 1 {
        return Err(KvsError::CorruptLog);
    }
    let tag: u8 = data[start];
    proof {
        assert(tag == tail[0]);
        assert(tail.skip(1) =~= data@.skip(start + 1));
    }
    if tag == 0u8 {
        match decode_str_at(data, start + 1) {
            Ok((key, next)) => Ok((NetworkCommand::Get { key }, next)),
            Err(e) => Err(e),
        }
    } else if tag == 1u8 {
        let (key, after_key) = match decode_str_at(data, start + 1) {
            Ok(p) => p,
            Err(e) => {
                return Err(e);
            },
        };
        proof {
            assert(tail.skip(1 + (after_key - (start + 1))) =~= data@.skip(after_key as int));
        }
        match decode_str_at(data, after_key) {
            Ok((value, next)) => Ok((NetworkCommand::Put { key, value }, next)),
            Err(e) => Err(e),
        }
    } else if tag == 2u8 {
        match decode_str_at(data, start + 1) {
            Ok((key, next)) => Ok((NetworkCommand::Rm { key }, next)),
            Err(e) => Err(e),
        }
    } else {
        Err(KvsError::CorruptLog)
    }
}

/// Encode one response record.
pub fn encode_network_response(r: &NetworkResponse) -> (out: Vec<u8>)
    ensures
        out@ == spec_encode_net_response(r@),
        r@.wf(),
{
    let mut out: Vec<u8> = Vec::new();
    match r {
        NetworkResponse::Error { code } => {
            out.push(0u8);
            let b: u8 = match code {
                ErrorType::CommandDeserialisation => 0u8,
                ErrorType::KeyNotFound => 1u8,
                ErrorType::Unknown => 2u8,
            };
            out.push(b);
        },
        NetworkResponse::Empty => {
            out.push(1u8);
        },
        NetworkResponse::Value(v) => {
            out.push(2u8);
            encode_str_into(&mut out, v);
        },
    }
    proof {
        assert(out@ =~= spec_encode_net_response(r@));
    }
    out
}

/// Decode one response record of `data` starting at `start`.
pub fn decode_network_response_at(data: &Vec<u8>, start: usize) -> (r: Result<
    (NetworkResponse, usize),
    KvsError,
>)
    requires
        start <= data@.len(),
    ensures
        match r {
            Ok((resp, next)) => {
                &&& spec_decode_net_response(data@.skip(start as int)) == Some(
                    (resp@, next - start as int),
                )
                &&& start < next <= data@.len()
            },
            Err(e) => {
                &&& e == KvsError::CorruptLog
                &&& spec_decode_net_response(data@.skip(start as int)) is None
            },
        },
{
    let ghost tail = data@.skip(start as int);
    if data.len() - start < 1 {
        return Err(KvsError::CorruptLog);
    }
    let tag: u8 = data[start];
    proof {
        assert(tag == tail[0]);
        assert(tail.skip(1) =~= data@.skip(start + 1));
    }
    if tag == 0u8 {
        if data.len() - start < 2 {
            return Err(KvsError::CorruptLog);
        }
        let cb: u8 = data[start + 1];
        proof {
            assert(cb == tail[1]);
        }
        let code = if cb == 0u8 {
            ErrorType::CommandDeserialisation
        } else if cb == 1u8 {
            ErrorType::KeyNotFound
        } else if cb == 2u8 {
            ErrorType::Unknown
        } else {
            return Err(KvsError::CorruptLog);
        };
        Ok((NetworkResponse::Error { code }, start + 2))
    } else if tag == 1u8 {
        Ok((NetworkResponse::Empty, start + 1))
    } else if tag == 2u8 {
        match decode_str_at(data, start + 1) {
            Ok((v, next)) => Ok((NetworkResponse::Value(v), next)),
            Err(e) => Err(e),
        }
    } else {
        Err(KvsError::CorruptLog)
    }
}

/// Decoding the encoding of any well-formed request, followed by anything,
/// yields the request back, consuming exactly the record.
pub proof fn lemma_net_command_round_trip(c: NetworkCommandView, rest: Seq<u8>)
    requires
        c.wf(),
    ensures
        spec_decode_net_command(spec_encode_net_command(c) + rest) == Some(
            (c, spec_encode_net_command(c).len() as int),
        ),
{
    vstd::bytes::lemma_auto_spec_u64_to_from_le_bytes();
    let e = spec_encode_net_command(c) + rest;
    match c {
        NetworkCommandView::Get { key } => {
            assert(e[0] == 0u8);
            assert(e.skip(1) =~= spec_encode_str(key) + rest);
            lemma_str_round_trip(key, rest);
        },
        NetworkCommandView::Put { key, value } => {
            let klen = 8 + encode_utf8(key).len() as int;
            assert(e[0] == 1u8);
            assert(e.skip(1) =~= spec_encode_str(key) + (spec_encode_str(value) + rest));
            lemma_str_round_trip(key, spec_encode_str(value) + rest);
            assert(e.skip(1 + klen) =~= spec_encode_str(value) + rest);
            lemma_str_round_trip(value, rest);
        },
        NetworkCommandView::Rm { key } => {
            assert(e[0] == 2u8);
            assert(e.skip(1) =~= spec_encode_str(key) + rest);
            lemma_str_round_trip(key, rest);
        },
    }
}

/// Decoding the encoding of any well-formed response, followed by anything,
/// yields the response back, consuming exactly the record.
pub proof fn lemma_net_response_round_trip(r: NetworkResponseView, rest: Seq<u8>)
    requires
        r.wf(),
    ensures
        spec_decode_net_response(spec_encode_net_response(r) + rest) == Some(
            (r, spec_encode_net_response(r).len() as int),
        ),
{
    vstd::bytes::lemma_auto_spec_u64_to_from_le_bytes();
    let e = spec_encode_net_response(r) + rest;
    match r {
        NetworkResponseView::Error { code } => {
            assert(e[0] == 0u8);
            assert(e[1] == spec_error_code(code));
        },
        NetworkResponseView::Empty => {
            assert(e[0] == 1u8);
        },
        NetworkResponseView::Value(v) => {
            assert(e[0] == 2u8);
            assert(e.skip(1) =~= spec_encode_str(v) + rest);
            lemma_str_round_trip(v, rest);
        },
    }
}

} // verus!
