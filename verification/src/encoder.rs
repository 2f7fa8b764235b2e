//! The handshake message and its wire codec.
//!
//! A message is encoded as: timestamp (variable-length quantity), agent
//! name (one length byte, then that many UTF-8 bytes), version (3 raw
//! bytes), peer name (length byte, then bytes), and one reserved zero
//! byte. Decoding reads the same fields in order, validates but discards
//! the timestamp, never consumes the reserved byte, and ignores whatever
//! follows the peer name.

use vstd::prelude::*;
use vstd::slice::slice_subrange;
use vstd::slice::slice_to_vec;
use vstd::utf8::decode_utf8;
use vstd::utf8::decode_utf8_encode_utf8;
use vstd::utf8::encode_utf8;
use vstd::utf8::encode_utf8_decode_utf8;
use vstd::utf8::encode_utf8_valid_utf8;
use vstd::utf8::valid_utf8;

use std::time::SystemTime;
use std::time::UNIX_EPOCH;

use crate::error::ProtocolError;
use crate::text::string_from_utf8;
use crate::text::TinyString;
use crate::varint::lemma_spec_varint_shape;
use crate::varint::lemma_varint_round_trip;
use crate::varint::read_unsigned_varint;
use crate::varint::spec_varint;
use crate::varint::varint_end;
use crate::varint::varint_ok;
use crate::varint::write_unsigned_varint;
use crate::version::Version;

verus! {

/// The mathematical content of a handshake message: the three retained
/// fields, with names as character sequences and the version as its
/// three bytes.
pub struct SpecMessage {
    pub agent_name: Seq<char>,
    pub version: Seq<u8>,
    pub peer_name: Seq<char>,
}

impl SpecMessage {
    /// Both names fit their one-byte length prefix and the version has
    /// exactly three bytes.
    pub open spec fn wf(&self) -> bool {
        &&& encode_utf8(self.agent_name).len() <= 255
        &&& self.version.len() == 3
        &&& encode_utf8(self.peer_name).len() <= 255
    }
}

/// The handshake message: agent name, version and peer name. The
/// timestamp on the wire is produced at encode time and is not retained.
#[derive(Debug, Default)]
pub struct HandshakeMessage {
    pub agent_name: TinyString,
    pub version: Version,
    pub peer_name: TinyString,
}

impl View for HandshakeMessage {
    type V = SpecMessage;

    open spec fn view(&self) -> SpecMessage {
        SpecMessage {
            agent_name: self.agent_name@,
            version: self.version@,
            peer_name: self.peer_name@,
        }
    }
}

/// The exact byte sequence that encodes `m` with timestamp `ts`.
pub open spec fn spec_encode(m: SpecMessage, ts: u64) -> Seq<u8>
    recommends
        m.wf(),
{
    let agent = encode_utf8(m.agent_name);
    let peer = encode_utf8(m.peer_name);
    spec_varint(ts as nat) + seq![agent.len() as u8] + agent + m.version + seq![
        peer.len() as u8,
    ] + peer + seq![0u8]
}

/// Reading one length-prefixed UTF-8 field at `pos`: the decoded
/// characters and the position after the field, or the first failure
/// (buffer exhausted, or the bytes are not UTF-8).
pub open spec fn spec_read_string(b: Seq<u8>, pos: int) -> Result<(Seq<char>, int), ProtocolError>
    recommends
        0 <= pos,
{
    if pos >= b.len() {
        Err(ProtocolError::UnexpectedEndOfInput)
    } else {
        let len = b[pos] as int;
        if pos + 1 + len > b.len() {
            Err(ProtocolError::UnexpectedEndOfInput)
        } else {
            let bytes = b.subrange(pos + 1, pos + 1 + len);
            if valid_utf8(bytes) {
                Ok((decode_utf8(bytes), pos + 1 + len))
            } else {
                Err(ProtocolError::Utf8DecodeError)
            }
        }
    }
}

/// What decoding `b` yields: timestamp quantity (validated, discarded),
/// agent name, three version bytes, peer name; the reserved byte and any
/// trailing bytes are not consumed. Each field that cannot be read in
/// full gives its specific failure.
pub open spec fn spec_decode(b: Seq<u8>) -> Result<SpecMessage, ProtocolError> {
    if !varint_ok(b) {
        Err(ProtocolError::MalformedVarint)
    } else {
        let p1 = varint_end(b) + 1;
        match spec_read_string(b, p1) {
            Err(e) => Err(e),
            Ok((agent, p2)) => {
                if p2 + 3 > b.len() {
                    Err(ProtocolError::UnexpectedEndOfInput)
                } else {
                    match spec_read_string(b, p2 + 3) {
                        Err(e) => Err(e),
                        Ok((peer, _p3)) => Ok(
                            SpecMessage {
                                agent_name: agent,
                                version: b.subrange(p2, p2 + 3),
                                peer_name: peer,
                            },
                        ),
                    }
                }
            },
        }
    }
}

impl HandshakeMessage {
    /// Both name fields fit their one-byte length prefix.
    pub open spec fn wf(&self) -> bool {
        self@.wf()
    }

    /// Encodes `self` with the given timestamp: exactly the bytes of
    /// `spec_encode`.
    pub fn encode_with_timestamp(&self, timestamp: u64) -> (r: Vec<u8>)
        requires
            self.wf(),
        ensures
            r@ == spec_encode(self@, timestamp),
    {
        let mut buf: Vec<u8> = Vec::new();
        write_unsigned_varint(timestamp, &mut buf);
        let agent = self.agent_name.0.as_str().as_bytes();
        buf.push(agent.len() as u8);
        push_bytes(&mut buf, agent);
        buf.push(self.version.0[0]);
        buf.push(self.version.0[1]);
        buf.push(self.version.0[2]);
        let peer = self.peer_name.0.as_str().as_bytes();
        buf.push(peer.len() as u8);
        push_bytes(&mut buf, peer);
        buf.push(0);
        proof {
            assert(buf@ =~= spec_encode(self@, timestamp));
        }
        buf
    }

    /// Encodes `self` for an outgoing request, stamping it with the
    /// clock's current milliseconds since the Unix epoch. Writing into
    /// the in-memory buffer cannot fail.
    pub fn encode_for_request(&self) -> (r: Result<Vec<u8>, ProtocolError>)
        requires
            self.wf(),
        ensures
            r is Ok,
            r is Ok ==> exists|ts: u64| r.unwrap()@ == spec_encode(self@, ts),
    {
        let timestamp = get_current_unix_timestamp();
        let buf = self.encode_with_timestamp(timestamp);
        proof {
            assert(buf@ == spec_encode(self@, timestamp));
        }
        Ok(buf)
    }

    /// Decodes a response buffer into a message, field by field, exactly
    /// as `spec_decode` describes; trailing bytes after the peer name
    /// are ignored.
    pub fn decode_from_response(data: Vec<u8>) -> (r: Result<HandshakeMessage, ProtocolError>)
        ensures
            spec_decode(data@) is Ok ==> r is Ok && r.unwrap()@ == spec_decode(data@).unwrap()
                && r.unwrap().wf(),
            spec_decode(data@) is Err ==> r is Err && r.unwrap_err() == spec_decode(data@)->Err_0,
    {
        let slice = data.as_slice();
        proof {
            assert(data@.skip(0) =~= data@);
        }
        let p1 = match read_unsigned_varint(slice, 0) {
            Ok(v) => v.1,
            Err(e) => {
                return Err(e);
            },
        };
        let (agent_name, p2) = match read_string(slice, p1) {
            Ok(v) => v,
            Err(e) => {
                return Err(e);
            },
        };
        if slice.len() - p2 < 3 {
            return Err(ProtocolError::UnexpectedEndOfInput);
        }
        let v0 = *vstd::slice::slice_index_get(slice, p2);
        let v1 = *vstd::slice::slice_index_get(slice, p2 + 1);
        let v2 = *vstd::slice::slice_index_get(slice, p2 + 2);
        let (peer_name, _p3) = match read_string(slice, p2 + 3) {
            Ok(v) => v,
            Err(e) => {
                return Err(e);
            },
        };
        let msg = HandshakeMessage { agent_name, version: Version([v0, v1, v2]), peer_name };
        proof {
            assert(msg@.version =~= data@.subrange(p2 as int, p2 as int + 3));
        }
        Ok(msg)
    }
}

/// Encoding a well-formed message and decoding the result, with any
/// trailing bytes left in the buffer, yields the message back: the three
/// retained fields are unchanged, whatever the timestamp was.
pub proof fn lemma_encode_decode_round_trip(m: SpecMessage, ts: u64, trailing: Seq<u8>)
    requires
        m.wf(),
    ensures
        spec_decode(spec_encode(m, ts) + trailing) == Ok::<SpecMessage, ProtocolError>(m),
{
    let agent = encode_utf8(m.agent_name);
    let peer = encode_utf8(m.peer_name);
    let e = spec_varint(ts as nat);
    let rest = seq![agent.len() as u8] + agent + m.version + seq![peer.len() as u8] + peer + seq![
        0u8,
    ] + trailing;
    let b = spec_encode(m, ts) + trailing;
    assert(b =~= e + rest);
    lemma_varint_round_trip(ts, rest);
    lemma_spec_varint_shape(ts as nat);
    let p1 = varint_end(b) + 1;
    assert(p1 == e.len());
    assert(b[p1] == agent.len() as u8);
    encode_utf8_valid_utf8(m.agent_name);
    encode_utf8_decode_utf8(m.agent_name);
    assert(b.subrange(p1 + 1, p1 + 1 + agent.len()) =~= agent);
    let p2 = p1 + 1 + agent.len() as int;
    assert(spec_read_string(b, p1) == Ok::<(Seq<char>, int), ProtocolError>((m.agent_name, p2)));
    assert(b.subrange(p2, p2 + 3) =~= m.version);
    let p3 = p2 + 3;
    assert(b[p3] == peer.len() as u8);
    encode_utf8_valid_utf8(m.peer_name);
    encode_utf8_decode_utf8(m.peer_name);
    assert(b.subrange(p3 + 1, p3 + 1 + peer.len()) =~= peer);
    assert(spec_read_string(b, p3) == Ok::<(Seq<char>, int), ProtocolError>((
        m.peer_name,
        p3 + 1 + peer.len(),
    )));
    assert(spec_decode(b).unwrap() == m);
}

/// Relies on `std::time::SystemTime::now`: the clock's current time,
/// converted to whole milliseconds since the Unix epoch. Nothing is
/// promised of the value; like the clock it comes from, it can differ
/// between any two calls.
#[verifier::external_body]
fn clock_unix_millis() -> u64 {
    SystemTime::now()
        .duration_since(UNIX_EPOCH)
        .expect("expected a valid unix epoch timestamp")
        .as_millis() as u64
}

/// Milliseconds since the Unix epoch at the moment of the call, for
/// stamping an outgoing request. The value depends on the clock, so no
/// two calls need agree.
pub fn get_current_unix_timestamp() -> u64 {
    clock_unix_millis()
}

/// Reads one length-prefixed UTF-8 string field at `start`, exactly as
/// `spec_read_string` describes.
fn read_string(data: &[u8], start: usize) -> (r: Result<(TinyString, usize), ProtocolError>)
    requires
        start <= data@.len(),
    ensures
        r is Ok ==> spec_read_string(data@, start as int) is Ok && r.unwrap().0@
            == spec_read_string(data@, start as int).unwrap().0 && r.unwrap().1
            == spec_read_string(data@, start as int).unwrap().1 && r.unwrap().0.wf() && r.unwrap().1
            <= data@.len(),
        r is Err ==> spec_read_string(data@, start as int) is Err && r.unwrap_err()
            == spec_read_string(data@, start as int)->Err_0,
{
    if start >= data.len() {
        return Err(ProtocolError::UnexpectedEndOfInput);
    }
    let len = *vstd::slice::slice_index_get(data, start) as usize;
    if len > data.len() - (start + 1) {
        return Err(ProtocolError::UnexpectedEndOfInput);
    }
    let end = start + 1 + len;
    let bytes = slice_to_vec(slice_subrange(data, start + 1, end));
    let ghost bv = bytes@;
    match string_from_utf8(bytes) {
        Ok(s) => {
            proof {
                decode_utf8_encode_utf8(bv);
            }
            Ok((TinyString(s), end))
        },
        Err(e) => Err(e),
    }
}

/// Appends all of `bytes` to `out`.
fn push_bytes(out: &mut Vec<u8>, bytes: &[u8])
    ensures
        final(out)@ == old(out)@ + bytes@,
{
    let mut k: usize = 0;
    while k < bytes.len()
        invariant
            k <= bytes@.len(),
            out@ == old(out)@ + bytes@.take(k as int),
        decreases bytes@.len() - k,
    {
        let b = *vstd::slice::slice_index_get(bytes, k);
        out.push(b);
        k += 1;
        proof {
            assert(out@ =~= old(out)@ + bytes@.take(k as int));
        }
    }
    proof {
        assert(bytes@.take(bytes@.len() as int) =~= bytes@);
    }
}

} // verus!
