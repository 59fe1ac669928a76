//! Payloads, log records, and the payload codec.
//!
//! A [`Payload`] is opaque user bytes. On the write path it is encoded by
//! prefixing a one-byte format tag; the encoding is infallible and decoding
//! is total on the codec's own output. The log core never inspects the body.

use vstd::prelude::*;

use crate::lsn::Lsn;

verus! {

/// The leading format tag of every encoded payload.
pub const PAYLOAD_FORMAT_TAG: u8 = 1;

/// Opaque user bytes carried through the log.
#[derive(Clone, Debug)]
pub struct Payload {
    pub body: Vec<u8>,
}

impl Payload {
    pub fn new(body: Vec<u8>) -> (r: Self)
        ensures
            r.body@ == body@,
    {
        Payload { body }
    }

    /// An empty payload.
    pub fn empty() -> (r: Self)
        ensures
            r.body@.len() == 0,
    {
        Payload { body: Vec::new() }
    }
}

impl Default for Payload {
    fn default() -> (r: Self)
        ensures
            r.body@.len() == 0,
    {
        Payload { body: Vec::new() }
    }
}

/// A gap a reader crosses where records below `until` were trimmed away.
#[derive(Clone, Copy, Debug, Hash, PartialEq, Eq, Structural)]
pub struct TrimGap {
    pub until: Lsn,
}

/// What a read yields at one position: user data, or a trim gap.
#[derive(Clone, Debug)]
pub enum Record {
    Data(Payload),
    TrimGap(TrimGap),
}

/// The unit read from a log: a position and what stands at it.
#[derive(Clone, Debug)]
pub struct LogRecord {
    pub offset: Lsn,
    pub record: Record,
}

/// The bytes that encoding a payload body produces: the format tag, then the
/// body unchanged.
pub open spec fn spec_encode_payload(body: Seq<u8>) -> Seq<u8> {
    seq![PAYLOAD_FORMAT_TAG] + body
}

/// What decoding yields on arbitrary bytes: the body if the format tag leads,
/// nothing otherwise.
pub open spec fn spec_decode_payload(bytes: Seq<u8>) -> Option<Seq<u8>> {
    if bytes.len() >= 1 && bytes[0] == PAYLOAD_FORMAT_TAG {
        Some(bytes.subrange(1, bytes.len() as int))
    } else {
        None
    }
}

/// Decoding is total on the codec's own output and returns the body
/// unchanged: the round trip is the identity.
pub proof fn lemma_payload_codec_round_trip(body: Seq<u8>)
    ensures
        spec_decode_payload(spec_encode_payload(body)) == Some(body),
{
    assert(spec_encode_payload(body)[0] == PAYLOAD_FORMAT_TAG);
    assert(spec_encode_payload(body).subrange(1, spec_encode_payload(body).len() as int) =~= body);
}

/// Encode a payload for storage. Infallible.
pub fn encode_payload(payload: &Payload) -> (r: Vec<u8>)
    ensures
        r@ == spec_encode_payload(payload.body@),
{
    let mut out: Vec<u8> = Vec::new();
    out.push(PAYLOAD_FORMAT_TAG);
    out.extend_from_slice(payload.body.as_slice());
    assert(out@ =~= spec_encode_payload(payload.body@));
    out
}

/// Decode stored bytes back into a payload. Total on the output of
/// [`encode_payload`]; returns `None` on bytes the codec never produced.
pub fn decode_payload(bytes: &Vec<u8>) -> (r: Option<Payload>)
    ensures
        match r {
            Some(p) => spec_decode_payload(bytes@) == Some(p.body@),
            None => spec_decode_payload(bytes@) is None,
        },
{
    if bytes.len() >= 1 && bytes[0] == PAYLOAD_FORMAT_TAG {
        let mut body: Vec<u8> = Vec::new();
        let mut i: usize = 1;
        while i < bytes.len()
            invariant
                1 <= i <= bytes@.len(),
                body@ =~= bytes@.subrange(1, i as int),
            decreases bytes@.len() - i,
        {
            body.push(bytes[i]);
            i = i + 1;
        }
        assert(body@ =~= bytes@.subrange(1, bytes@.len() as int));
        Some(Payload { body })
    } else {
        None
    }
}

} // verus!
