//! The record codec.
//!
//! A command is stored as one self-delimiting binary record: a tag byte (`1`
//! for a put, `0` for a tombstone), then the key as a length-prefixed UTF-8
//! string, then — for a put only — the value in the same form. A string field
//! is its byte length as eight little-endian bytes followed by its UTF-8
//! bytes. Records carry no framing beyond this, so a reader can walk a
//! segment left to right and report the byte offset after each record.

use vstd::bytes::{
    lemma_auto_spec_u64_to_from_le_bytes, spec_u64_from_le_bytes, spec_u64_to_le_bytes,
    u64_from_le_bytes, u64_to_le_bytes,
};
use vstd::prelude::*;
use vstd::slice::{slice_subrange, slice_to_vec};
use vstd::string::StrSliceExecFns;
use vstd::utf8::{decode_utf8, encode_utf8, valid_utf8};

use crate::errors::KvsError;

verus! {

broadcast use {vstd::utf8::group_utf8_lib, vstd::seq::group_seq_axioms};

/// An operation recorded in the log: a put of `value` under `key`, or — when
/// `value` is absent — a tombstone that removes `key`.
#[derive(Debug, Clone)]
pub struct Command {
    pub key: String,
    pub value: Option<String>,
}

/// The mathematical form of a [`Command`].
pub struct CommandView {
    pub key: Seq<char>,
    pub value: Option<Seq<char>>,
}

impl CommandView {
    /// Both strings of the command have UTF-8 encodings whose length fits the
    /// record's eight-byte length prefix. Every command built from executable
    /// strings satisfies this.
    pub open spec fn wf(self) -> bool {
        &&& encode_utf8(self.key).len() <= u64::MAX
        &&& match self.value {
            Some(v) => encode_utf8(v).len() <= u64::MAX,
            None => true,
        }
    }
}

impl View for Command {
    type V = CommandView;

    open spec fn view(&self) -> CommandView {
        CommandView {
            key: self.key@,
            value: match self.value {
                Some(v) => Some(v@),
                None => None,
            },
        }
    }
}

/// The encoding of one string field: an eight-byte little-endian length,
/// then the UTF-8 bytes.
pub open spec fn spec_encode_str(s: Seq<char>) -> Seq<u8> {
    spec_u64_to_le_bytes(encode_utf8(s).len() as u64) + encode_utf8(s)
}

/// The encoding of one command record.
pub open spec fn spec_encode(c: CommandView) -> Seq<u8> {
    match c.value {
        Some(v) => seq![1u8] + spec_encode_str(c.key) + spec_encode_str(v),
        None => seq![0u8] + spec_encode_str(c.key),
    }
}

/// Decode one string field from the front of `s`: the string and the number
/// of bytes consumed, or nothing if `s` does not start with a whole field.
pub open spec fn spec_decode_str(s: Seq<u8>) -> Option<(Seq<char>, int)> {
    if s.len() < 8 {
        None
    } else {
        let n = spec_u64_from_le_bytes(s.subrange(0, 8)) as int;
        if s.len() < 8 + n {
            None
        } else {
            let b = s.subrange(8, 8 + n);
            if valid_utf8(b) {
                Some((decode_utf8(b), 8 + n))
            } else {
                None
            }
        }
    }
}

/// Decode one command record from the front of `s`: the command and the
/// number of bytes consumed, or nothing if `s` does not start with a whole
/// well-formed record.
pub open spec fn spec_decode(s: Seq<u8>) -> Option<(CommandView, int)> {
    if s.len() < 1 {
        None
    } else if s[0] == 1u8 {
        match spec_decode_str(s.skip(1)) {
            Some((k, n1)) => match spec_decode_str(s.skip(1 + n1)) {
                Some((v, n2)) => Some(
                    (CommandView { key: k, value: Some(v) }, 1 + n1 + n2),
                ),
                None => None,
            },
            None => None,
        }
    } else if s[0] == 0u8 {
        match spec_decode_str(s.skip(1)) {
            Some((k, n1)) => Some((CommandView { key: k, value: None }, 1 + n1)),
            None => None,
        }
    } else {
        None
    }
}

/// Relies on str::from_utf8: it succeeds exactly on valid UTF-8 input, and
/// then returns the string those bytes encode.
#[verifier::external_body]
fn utf8_to_string(b: &[u8]) -> (r: Option<String>)
    ensures
        r is Some <==> valid_utf8(b@),
        r matches Some(s) ==> s@ == decode_utf8(b@),
{
    match std::str::from_utf8(b) {
        Ok(s) => Some(s.to_string()),
        Err(_) => None,
    }
}

/// Append the encoding of one string field to `out`.
pub(crate) fn encode_str_into(out: &mut Vec<u8>, s: &String)
    ensures
        final(out)@ == old(out)@ + spec_encode_str(s@),
        encode_utf8(s@).len() <= u64::MAX,
{
    let mut b: Vec<u8> = s.as_str().as_bytes_vec();
    let mut lenb: Vec<u8> = u64_to_le_bytes(b.len() as u64);
    out.append(&mut lenb);
    out.append(&mut b);
}

/// Encode one command as a record.
pub fn encode_command(c: &Command) -> (r: Vec<u8>)
    ensures
        r@ == spec_encode(c@),
        c@.wf(),
        r@.len() >= 9,
{
    let mut out: Vec<u8> = Vec::new();
    match &c.value {
        Some(v) => {
            out.push(1u8);
            encode_str_into(&mut out, &c.key);
            encode_str_into(&mut out, v);
            proof {
                assert(out@ =~= spec_encode(c@));
                lemma_auto_spec_u64_to_from_le_bytes();
            }
        },
        None => {
            out.push(0u8);
            encode_str_into(&mut out, &c.key);
            proof {
                assert(out@ =~= spec_encode(c@));
                lemma_auto_spec_u64_to_from_le_bytes();
            }
        },
    }
    out
}

/// Decode one string field of `data` starting at `start`: the string and the
/// position just past the field.
pub(crate) fn decode_str_at(data: &Vec<u8>, start: usize) -> (r: Result<(String, usize), KvsError>)
    requires
        start <= data@.len(),
    ensures
        match r {
            Ok((s, next)) => {
                &&& spec_decode_str(data@.skip(start as int)) == Some(
                    (s@, next - start as int),
                )
                &&& start < next <= data@.len()
            },
            Err(e) => {
                &&& e == KvsError::CorruptLog
                &&& spec_decode_str(data@.skip(start as int)) is None
            },
        },
{
    let ghost tail = data@.skip(start as int);
    if data.len() - start < 8 {
        return Err(KvsError::CorruptLog);
    }
    let lenb: &[u8] = slice_subrange(data.as_slice(), start, start + 8);
    assert(lenb@ =~= tail.subrange(0, 8));
    let n: u64 = u64_from_le_bytes(lenb);
    let avail: usize = data.len() - start - 8;
    if n > avail as u64 {
        return Err(KvsError::CorruptLog);
    }
    let nu: usize = n as usize;
    let body: &[u8] = slice_subrange(data.as_slice(), start + 8, start + 8 + nu);
    assert(body@ =~= tail.subrange(8, 8 + n as int));
    match utf8_to_string(body) {
        Some(s) => Ok((s, start + 8 + nu)),
        None => Err(KvsError::CorruptLog),
    }
}

/// Decode one command record of `data` starting at `start`: the command and
/// the position just past the record.
pub fn decode_command_at(data: &Vec<u8>, start: usize) -> (r: Result<
    (Command, usize),
    KvsError,
>)
    requires
        start <= data@.len(),
    ensures
        match r {
            Ok((c, next)) => {
                &&& spec_decode(data@.skip(start as int)) == Some((c@, next - start as int))
                &&& start < next <= data@.len()
                &&& c@.wf()
            },
            Err(e) => {
                &&& e == KvsError::CorruptLog
                &&& spec_decode(data@.skip(start as int)) is None
            },
        },
{
    let ghost tail = data@.skip(start as int);
    if data.len() - start < 1 {
        return Err(KvsError::CorruptLog);
    }
    let tag: u8 = data[start];
    assert(tag == tail[0]);
    if tag == 1u8 {
        let (key, after_key) = match decode_str_at(data, start + 1) {
            Ok(p) => p,
            Err(e) => {
                proof {
                    assert(tail.skip(1) =~= data@.skip(start + 1));
                }
                return Err(e);
            },
        };
        proof {
            assert(tail.skip(1) =~= data@.skip(start + 1));
        }
        let (value, after_value) = match decode_str_at(data, after_key) {
            Ok(p) => p,
            Err(e) => {
                proof {
                    assert(tail.skip(1 + (after_key - (start + 1)))
                        =~= data@.skip(after_key as int));
                }
                return Err(e);
            },
        };
        proof {
            assert(tail.skip(1 + (after_key - (start + 1)))
                =~= data@.skip(after_key as int));
            lemma_decoded_str_wf(data@.skip(start + 1), key@, after_key - (start + 1));
            lemma_decoded_str_wf(data@.skip(after_key as int), value@, after_value - after_key);
        }
        Ok((Command { key, value: Some(value) }, after_value))
    } else if tag == 0u8 {
        let (key, after_key) = match decode_str_at(data, start + 1) {
            Ok(p) => p,
            Err(e) => {
                proof {
                    assert(tail.skip(1) =~= data@.skip(start + 1));
                }
                return Err(e);
            },
        };
        proof {
            assert(tail.skip(1) =~= data@.skip(start + 1));
            lemma_decoded_str_wf(data@.skip(start + 1), key@, after_key - (start + 1));
        }
        Ok((Command { key, value: None }, after_key))
    } else {
        Err(KvsError::CorruptLog)
    }
}

/// A string decoded from a record field has a UTF-8 encoding that fits the
/// field's eight-byte length prefix: its encoding is the field's bytes.
pub proof fn lemma_decoded_str_wf(t: Seq<u8>, s: Seq<char>, n: int)
    requires
        spec_decode_str(t) == Some((s, n)),
    ensures
        encode_utf8(s).len() == n - 8,
        encode_utf8(s).len() <= u64::MAX,
{
    let b = t.subrange(8, n);
    assert(valid_utf8(b) && s == decode_utf8(b));
    assert(encode_utf8(s) == b);
}

/// Decoding a string field out of its own encoding followed by anything
/// yields the string back, consuming exactly the field.
pub proof fn lemma_str_round_trip(s: Seq<char>, rest: Seq<u8>)
    requires
        encode_utf8(s).len() <= u64::MAX,
    ensures
        spec_decode_str(spec_encode_str(s) + rest) == Some(
            (s, 8 + encode_utf8(s).len() as int),
        ),
{
    lemma_auto_spec_u64_to_from_le_bytes();
    let e = spec_encode_str(s) + rest;
    let len = encode_utf8(s).len() as u64;
    assert(e.subrange(0, 8) =~= spec_u64_to_le_bytes(len));
    assert(spec_u64_from_le_bytes(e.subrange(0, 8)) == len);
    assert(e.subrange(8, 8 + len as int) =~= encode_utf8(s));
}

/// A decoded record consumes at least its tag and length prefix, consumes no
/// more than the input, and yields a well-formed command.
pub proof fn lemma_decode_bounds(s: Seq<u8>, c: CommandView, n: int)
    requires
        spec_decode(s) == Some((c, n)),
    ensures
        9 <= n <= s.len(),
        c.wf(),
{
    if s[0] == 1u8 {
        let (k, n1) = spec_decode_str(s.skip(1))->Some_0;
        let (v, n2) = spec_decode_str(s.skip(1 + n1))->Some_0;
        lemma_decoded_str_wf(s.skip(1), k, n1);
        lemma_decoded_str_wf(s.skip(1 + n1), v, n2);
    } else {
        let (k, n1) = spec_decode_str(s.skip(1))->Some_0;
        lemma_decoded_str_wf(s.skip(1), k, n1);
    }
}

/// Decoding the encoding of any well-formed command, followed by anything,
/// yields the command back, consuming exactly the record.
pub proof fn lemma_command_round_trip(c: CommandView, rest: Seq<u8>)
    requires
        c.wf(),
    ensures
        spec_decode(spec_encode(c) + rest) == Some((c, spec_encode(c).len() as int)),
{
    lemma_auto_spec_u64_to_from_le_bytes();
    let e = spec_encode(c) + rest;
    match c.value {
        Some(v) => {
            let klen = 8 + encode_utf8(c.key).len() as int;
            let vlen = 8 + encode_utf8(v).len() as int;
            assert(e[0] == 1u8);
            assert(e.skip(1) =~= spec_encode_str(c.key) + (spec_encode_str(v) + rest));
            lemma_str_round_trip(c.key, spec_encode_str(v) + rest);
            assert(e.skip(1 + klen) =~= spec_encode_str(v) + rest);
            lemma_str_round_trip(v, rest);
            assert(spec_encode(c).len() == 1 + klen + vlen);
        },
        None => {
            let klen = 8 + encode_utf8(c.key).len() as int;
            assert(e[0] == 0u8);
            assert(e.skip(1) =~= spec_encode_str(c.key) + rest);
            lemma_str_round_trip(c.key, rest);
            assert(spec_encode(c).len() == 1 + klen);
        },
    }
}

/// Encode-then-decode is the identity on well-formed commands.
pub proof fn lemma_encode_decode_round_trip(c: CommandView)
    requires
        c.wf(),
    ensures
        spec_decode(spec_encode(c)) == Some((c, spec_encode(c).len() as int)),
{
    assert(spec_encode(c) + Seq::<u8>::empty() =~= spec_encode(c));
    lemma_command_round_trip(c, Seq::<u8>::empty());
}

/// Two byte sequences that agree on a common prefix agree at each index of it.
proof fn lemma_agree_prefix(s: Seq<u8>, t: Seq<u8>, n: int)
    requires
        0 <= n <= s.len(),
        n <= t.len(),
        t.subrange(0, n) == s.subrange(0, n),
    ensures
        forall|i: int| 0 <= i < n ==> t[i] == s[i],
{
    assert forall|i: int| 0 <= i < n implies t[i] == s[i] by {
        assert(t.subrange(0, n)[i] == t[i]);
        assert(s.subrange(0, n)[i] == s[i]);
        assert(t.subrange(0, n)[i] == s.subrange(0, n)[i]);
    }
}

/// Decoding a string field reads only the bytes it consumes: any other input
/// that agrees on those bytes decodes to the same field.
proof fn lemma_decode_str_local(s: Seq<u8>, t: Seq<u8>, k: Seq<char>, n: int)
    requires
        spec_decode_str(s) == Some((k, n)),
        n <= t.len(),
        t.subrange(0, n) == s.subrange(0, n),
    ensures
        spec_decode_str(t) == Some((k, n)),
{
    lemma_agree_prefix(s, t, n);
    assert(t.subrange(0, 8) =~= s.subrange(0, 8));
    assert(t.subrange(8, n) =~= s.subrange(8, n));
}

/// Decoding a record reads only the bytes it consumes: any other input that
/// agrees on those bytes decodes to the same record.
pub proof fn lemma_decode_local(s: Seq<u8>, t: Seq<u8>, c: CommandView, n: int)
    requires
        spec_decode(s) == Some((c, n)),
        n <= t.len(),
        t.subrange(0, n) == s.subrange(0, n),
    ensures
        spec_decode(t) == Some((c, n)),
{
    lemma_decode_bounds(s, c, n);
    lemma_agree_prefix(s, t, n);
    assert(t[0] == s[0]);
    if s[0] == 1u8 {
        let (k, n1) = spec_decode_str(s.skip(1))->Some_0;
        let (v, n2) = spec_decode_str(s.skip(1 + n1))->Some_0;
        assert(t.skip(1).subrange(0, n1) =~= s.skip(1).subrange(0, n1));
        lemma_decode_str_local(s.skip(1), t.skip(1), k, n1);
        assert(t.skip(1 + n1).subrange(0, n2) =~= s.skip(1 + n1).subrange(0, n2));
        lemma_decode_str_local(s.skip(1 + n1), t.skip(1 + n1), v, n2);
    } else {
        let (k, n1) = spec_decode_str(s.skip(1))->Some_0;
        assert(t.skip(1).subrange(0, n1) =~= s.skip(1).subrange(0, n1));
        lemma_decode_str_local(s.skip(1), t.skip(1), k, n1);
    }
}

/// Decode a whole byte sequence as back-to-back records, or nothing if it is
/// not exactly a concatenation of well-formed records.
pub open spec fn spec_decode_all(s: Seq<u8>) -> Option<Seq<CommandView>>
    decreases s.len(),
{
    if s.len() == 0 {
        Some(Seq::<CommandView>::empty())
    } else {
        match spec_decode(s) {
            Some((c, n)) => if 1 <= n <= s.len() {
                match spec_decode_all(s.skip(n)) {
                    Some(r) => Some(seq![c] + r),
                    None => None,
                }
            } else {
                None
            },
            None => None,
        }
    }
}

/// Appending the encoding of one more well-formed command to a sequence that
/// decodes as a stream of records extends the decoded stream by that command.
pub proof fn lemma_decode_all_snoc(s: Seq<u8>, cs: Seq<CommandView>, c: CommandView)
    requires
        spec_decode_all(s) == Some(cs),
        c.wf(),
    ensures
        spec_decode_all(s + spec_encode(c)) == Some(cs.push(c)),
    decreases s.len(),
{
    let e = spec_encode(c);
    lemma_encode_decode_round_trip(c);
    lemma_decode_bounds(e, c, e.len() as int);
    if s.len() == 0 {
        assert(s + e =~= e);
        assert(e.skip(e.len() as int) =~= Seq::<u8>::empty());
        assert(spec_decode_all(Seq::<u8>::empty()) == Some(Seq::<CommandView>::empty()));
        assert(spec_decode_all(e) == Some(seq![c] + Seq::<CommandView>::empty()));
        assert(cs =~= Seq::<CommandView>::empty());
        assert(seq![c] + Seq::<CommandView>::empty() =~= cs.push(c));
    } else {
        let (c0, n0) = spec_decode(s)->Some_0;
        lemma_decode_bounds(s, c0, n0);
        let t = s + e;
        assert(t.subrange(0, n0) =~= s.subrange(0, n0));
        lemma_decode_local(s, t, c0, n0);
        let rest = spec_decode_all(s.skip(n0))->Some_0;
        assert(t.skip(n0) =~= s.skip(n0) + e);
        lemma_decode_all_snoc(s.skip(n0), rest, c);
        assert(seq![c0] + rest.push(c) =~= (seq![c0] + rest).push(c));
        assert(cs == seq![c0] + rest);
    }
}


/// A byte sequence that decodes as a string field begins with the canonical
/// encoding of that string.
proof fn lemma_decode_str_canonical(s: Seq<u8>, k: Seq<char>, n: int)
    requires
        spec_decode_str(s) == Some((k, n)),
    ensures
        s.subrange(0, n) == spec_encode_str(k),
        encode_utf8(k).len() == n - 8,
{
    lemma_auto_spec_u64_to_from_le_bytes();
    let b = s.subrange(8, n);
    assert(valid_utf8(b) && k == decode_utf8(b));
    assert(encode_utf8(k) == b);
    let lenb = s.subrange(0, 8);
    assert(spec_u64_to_le_bytes(spec_u64_from_le_bytes(lenb)) == lenb);
    assert(s.subrange(0, n) =~= lenb + b);
    assert(spec_encode_str(k) == spec_u64_to_le_bytes(encode_utf8(k).len() as u64) + encode_utf8(
        k,
    ));
    assert(encode_utf8(k).len() as u64 == spec_u64_from_le_bytes(lenb));
}

/// A byte sequence that decodes as exactly one whole record is the canonical
/// encoding of that record: the codec admits one byte form per command.
pub proof fn lemma_decode_canonical(s: Seq<u8>, c: CommandView)
    requires
        spec_decode(s) == Some((c, s.len() as int)),
    ensures
        s == spec_encode(c),
{
    let n = s.len() as int;
    if s[0] == 1u8 {
        let (k, n1) = spec_decode_str(s.skip(1))->Some_0;
        let (v, n2) = spec_decode_str(s.skip(1 + n1))->Some_0;
        lemma_decode_str_canonical(s.skip(1), k, n1);
        lemma_decode_str_canonical(s.skip(1 + n1), v, n2);
        assert(s.skip(1).subrange(0, n1) =~= s.subrange(1, 1 + n1));
        assert(s.skip(1 + n1).subrange(0, n2) =~= s.subrange(1 + n1, 1 + n1 + n2));
        assert(n == 1 + n1 + n2);
        assert(s =~= seq![1u8] + s.subrange(1, 1 + n1) + s.subrange(1 + n1, n));
        assert(s =~= spec_encode(c));
    } else {
        let (k, n1) = spec_decode_str(s.skip(1))->Some_0;
        lemma_decode_str_canonical(s.skip(1), k, n1);
        assert(s.skip(1).subrange(0, n1) =~= s.subrange(1, 1 + n1));
        assert(n == 1 + n1);
        assert(s =~= seq![0u8] + s.subrange(1, n));
        assert(s =~= spec_encode(c));
    }
}


/// The encoding of a whole sequence of commands, back to back.
pub open spec fn spec_encode_all(cs: Seq<CommandView>) -> Seq<u8>
    decreases cs.len(),
{
    if cs.len() == 0 {
        Seq::<u8>::empty()
    } else {
        spec_encode_all(cs.drop_last()) + spec_encode(cs.last())
    }
}

/// Encoding any sequence of well-formed commands back to back and decoding
/// the result sequentially yields the same sequence; each record decodes at
/// the cumulative size of those before it, so the reported offsets strictly
/// increase.
pub proof fn lemma_stream_round_trip(cs: Seq<CommandView>)
    requires
        forall|i: int| 0 <= i < cs.len() ==> (#[trigger] cs[i]).wf(),
    ensures
        spec_decode_all(spec_encode_all(cs)) == Some(cs),
    decreases cs.len(),
{
    if cs.len() == 0 {
        assert(spec_decode_all(Seq::<u8>::empty()) == Some(Seq::<CommandView>::empty()));
        assert(cs =~= Seq::<CommandView>::empty());
    } else {
        let front = cs.drop_last();
        assert(forall|i: int| 0 <= i < front.len() ==> front[i] == cs[i]);
        lemma_stream_round_trip(front);
        lemma_decode_all_snoc(spec_encode_all(front), front, cs.last());
        assert(front.push(cs.last()) =~= cs);
    }
}

} // verus!

// ---------------------------------------------------------------------------
// Laws of the codec.
// ---------------------------------------------------------------------------
