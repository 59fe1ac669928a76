//! Key encodings of the local log store.
//!
//! Data keys are `(log_id, offset)`, metadata keys `(log_id, kind)`. Both
//! encode their integers big-endian so that the byte ordering of encoded
//! keys matches the numeric ordering of `(log_id, offset)` pairs.

use vstd::prelude::*;

verus! {

/// The key byte that tags per-log state in the metadata column family.
pub const LOG_STATE_KIND_BYTE: u8 = 1;

/// The big-endian bytes of a 64-bit integer, most significant byte first.
pub open spec fn spec_u64_be_bytes(x: u64) -> Seq<u8> {
    seq![
        (x >> 56) as u8,
        (x >> 48) as u8,
        (x >> 40) as u8,
        (x >> 32) as u8,
        (x >> 24) as u8,
        (x >> 16) as u8,
        (x >> 8) as u8,
        x as u8,
    ]
}

/// Append the big-endian bytes of `x` to `out`.
pub fn push_u64_be(out: &mut Vec<u8>, x: u64)
    ensures
        final(out)@ == old(out)@ + spec_u64_be_bytes(x),
{
    out.push((x >> 56) as u8);
    out.push((x >> 48) as u8);
    out.push((x >> 40) as u8);
    out.push((x >> 32) as u8);
    out.push((x >> 24) as u8);
    out.push((x >> 16) as u8);
    out.push((x >> 8) as u8);
    out.push(x as u8);
    proof {
        assert(out@ =~= old(out)@ + spec_u64_be_bytes(x));
    }
}

/// Whether `a` stands strictly before `b` in the store's byte order.
pub open spec fn bytes_lex_less(a: Seq<u8>, b: Seq<u8>) -> bool
    decreases a.len(),
{
    if a.len() == 0 || b.len() == 0 {
        false
    } else if a[0] != b[0] {
        a[0] < b[0]
    } else {
        bytes_lex_less(a.drop_first(), b.drop_first())
    }
}

/// A sequence never stands before itself.
proof fn lemma_lex_irreflexive(a: Seq<u8>, b: Seq<u8>)
    requires
        a == b,
    ensures
        !bytes_lex_less(a, b),
    decreases a.len(),
{
    if a.len() > 0 {
        lemma_lex_irreflexive(a.drop_first(), b.drop_first());
    }
}

/// Equal-length sequences compare by their first differing byte.
proof fn lemma_lex_first_diff(a: Seq<u8>, b: Seq<u8>, k: int)
    requires
        a.len() == b.len(),
        0 <= k < a.len(),
        forall|i: int| 0 <= i < k ==> a[i] == b[i],
        a[k] != b[k],
    ensures
        bytes_lex_less(a, b) <==> a[k] < b[k],
    decreases k,
{
    if k > 0 {
        assert(a[0] == b[0]);
        assert(forall|i: int| 0 <= i < k - 1 ==> a.drop_first()[i] == #[trigger] b.drop_first()[i]);
        assert(a.drop_first()[k - 1] != b.drop_first()[k - 1]);
        lemma_lex_first_diff(a.drop_first(), b.drop_first(), k - 1);
    }
}

/// The position of the first differing big-endian byte of two distinct
/// integers; that byte decides their numeric order.
proof fn lemma_be_first_diff(x: u64, y: u64) -> (k: int)
    requires
        x != y,
    ensures
        0 <= k < 8,
        forall|i: int|
            0 <= i < k ==> spec_u64_be_bytes(x)[i] == #[trigger] spec_u64_be_bytes(y)[i],
        spec_u64_be_bytes(x)[k] != spec_u64_be_bytes(y)[k],
        (spec_u64_be_bytes(x)[k] < spec_u64_be_bytes(y)[k]) <==> x < y,
{
    let a = spec_u64_be_bytes(x);
    let b = spec_u64_be_bytes(y);
    if a[0] != b[0] {
        assert(((x >> 56) as u8 != (y >> 56) as u8) ==> ((((x >> 56) as u8) < ((y >> 56) as u8))
            <==> x < y)) by (bit_vector);
        0
    } else if a[1] != b[1] {
        assert(((x >> 56) as u8 == (y >> 56) as u8 && (x >> 48) as u8 != (y >> 48) as u8) ==> ((((x >> 48) as u8) < ((y >> 48) as u8)) <==> x < y)) by (bit_vector);
        1
    } else if a[2] != b[2] {
        assert(((x >> 56) as u8 == (y >> 56) as u8 && (x >> 48) as u8 == (y >> 48) as u8 && (x
            >> 40) as u8 != (y >> 40) as u8) ==> ((((x >> 40) as u8) < ((y >> 40) as u8)) <==> x
            < y)) by (bit_vector);
        2
    } else if a[3] != b[3] {
        assert(((x >> 56) as u8 == (y >> 56) as u8 && (x >> 48) as u8 == (y >> 48) as u8 && (x
            >> 40) as u8 == (y >> 40) as u8 && (x >> 32) as u8 != (y >> 32) as u8) ==> ((((x >> 32) as u8) < ((y >> 32) as u8)) <==> x < y)) by (bit_vector);
        3
    } else if a[4] != b[4] {
        assert(((x >> 56) as u8 == (y >> 56) as u8 && (x >> 48) as u8 == (y >> 48) as u8 && (x
            >> 40) as u8 == (y >> 40) as u8 && (x >> 32) as u8 == (y >> 32) as u8 && (x
            >> 24) as u8 != (y >> 24) as u8) ==> ((((x >> 24) as u8) < ((y >> 24) as u8)) <==> x
            < y)) by (bit_vector);
        4
    } else if a[5] != b[5] {
        assert(((x >> 56) as u8 == (y >> 56) as u8 && (x >> 48) as u8 == (y >> 48) as u8 && (x
            >> 40) as u8 == (y >> 40) as u8 && (x >> 32) as u8 == (y >> 32) as u8 && (x
            >> 24) as u8 == (y >> 24) as u8 && (x >> 16) as u8 != (y >> 16) as u8) ==> ((((x >> 16) as u8) < ((y >> 16) as u8)) <==> x < y)) by (bit_vector);
        5
    } else if a[6] != b[6] {
        assert(((x >> 56) as u8 == (y >> 56) as u8 && (x >> 48) as u8 == (y >> 48) as u8 && (x
            >> 40) as u8 == (y >> 40) as u8 && (x >> 32) as u8 == (y >> 32) as u8 && (x
            >> 24) as u8 == (y >> 24) as u8 && (x >> 16) as u8 == (y >> 16) as u8 && (x
            >> 8) as u8 != (y >> 8) as u8) ==> ((((x >> 8) as u8) < ((y >> 8) as u8)) <==> x
            < y)) by (bit_vector);
        6
    } else {
        assert(((x >> 56) as u8 == (y >> 56) as u8 && (x >> 48) as u8 == (y >> 48) as u8 && (x
            >> 40) as u8 == (y >> 40) as u8 && (x >> 32) as u8 == (y >> 32) as u8 && (x
            >> 24) as u8 == (y >> 24) as u8 && (x >> 16) as u8 == (y >> 16) as u8 && (x
            >> 8) as u8 == (y >> 8) as u8 && x as u8 == y as u8) ==> x == y) by (bit_vector);
        assert(a[7] != b[7]);
        assert(((x >> 56) as u8 == (y >> 56) as u8 && (x >> 48) as u8 == (y >> 48) as u8 && (x
            >> 40) as u8 == (y >> 40) as u8 && (x >> 32) as u8 == (y >> 32) as u8 && (x
            >> 24) as u8 == (y >> 24) as u8 && (x >> 16) as u8 == (y >> 16) as u8 && (x
            >> 8) as u8 == (y >> 8) as u8 && x as u8 != y as u8) ==> (((x as u8) < (y as u8)) <==> x
            < y)) by (bit_vector);
        7
    }
}

/// Law: the big-endian encoding preserves numeric order — the byte order of
/// two encoded integers is their numeric order.
pub proof fn lemma_u64_be_order(x: u64, y: u64)
    ensures
        bytes_lex_less(spec_u64_be_bytes(x), spec_u64_be_bytes(y)) <==> x < y,
{
    if x == y {
        lemma_lex_irreflexive(spec_u64_be_bytes(x), spec_u64_be_bytes(y));
    } else {
        let k = lemma_be_first_diff(x, y);
        lemma_lex_first_diff(spec_u64_be_bytes(x), spec_u64_be_bytes(y), k);
    }
}

/// Law: the natural byte ordering of encoded data keys matches the numeric
/// ordering of `(log_id, offset)` pairs, so an ordered scan of the data
/// column family visits the records of each log contiguously and in offset
/// order.
pub proof fn lemma_data_key_order(a: DataKey, b: DataKey)
    ensures
        bytes_lex_less(spec_data_key_bytes(a), spec_data_key_bytes(b)) <==> (a.log_id < b.log_id
            || (a.log_id == b.log_id && a.offset < b.offset)),
{
    let ka = spec_data_key_bytes(a);
    let kb = spec_data_key_bytes(b);
    if a.log_id != b.log_id {
        let k = lemma_be_first_diff(a.log_id, b.log_id);
        assert(forall|i: int| 0 <= i < k ==> ka[i] == #[trigger] kb[i]);
        assert(ka[k] == spec_u64_be_bytes(a.log_id)[k]);
        assert(kb[k] == spec_u64_be_bytes(b.log_id)[k]);
        lemma_lex_first_diff(ka, kb, k);
    } else if a.offset != b.offset {
        let k = lemma_be_first_diff(a.offset, b.offset);
        assert(forall|i: int|
            0 <= i < 8 + k ==> ka[i] == #[trigger] kb[i]) by {
            assert(forall|i: int|
                0 <= i < 8 ==> ka[i] == #[trigger] spec_u64_be_bytes(a.log_id)[i]);
            assert(forall|i: int|
                8 <= i < 16 ==> ka[i] == #[trigger] spec_u64_be_bytes(a.offset)[i - 8]);
        }
        assert(ka[8 + k] == spec_u64_be_bytes(a.offset)[k]);
        assert(kb[8 + k] == spec_u64_be_bytes(b.offset)[k]);
        lemma_lex_first_diff(ka, kb, 8 + k);
    } else {
        assert(ka =~= kb);
        lemma_lex_irreflexive(ka, kb);
    }
}

/// What per-log metadata a key addresses.
#[derive(Clone, Copy, Debug, Hash, PartialEq, Eq, Structural)]
pub enum MetadataKind {
    LogState,
}

impl MetadataKind {
    /// The key byte of this kind.
    pub fn kind_byte(self) -> (r: u8)
        ensures
            r == self.spec_kind_byte(),
    {
        match self {
            MetadataKind::LogState => LOG_STATE_KIND_BYTE,
        }
    }

    pub open spec fn spec_kind_byte(self) -> u8 {
        match self {
            MetadataKind::LogState => LOG_STATE_KIND_BYTE,
        }
    }
}

/// A key of the metadata column family: a log and a kind of state.
#[derive(Clone, Copy, Debug, Hash, PartialEq, Eq, Structural)]
pub struct MetadataKey {
    pub log_id: u64,
    pub kind: MetadataKind,
}

/// The encoded form of a metadata key: the log id big-endian, then the kind
/// byte.
pub open spec fn spec_metadata_key_bytes(key: MetadataKey) -> Seq<u8> {
    spec_u64_be_bytes(key.log_id) + seq![key.kind.spec_kind_byte()]
}

impl MetadataKey {
    pub fn new(log_id: u64, kind: MetadataKind) -> (r: Self)
        ensures
            r == (MetadataKey { log_id, kind }),
    {
        MetadataKey { log_id, kind }
    }

    /// Encode the key for the store.
    pub fn to_bytes(&self) -> (r: Vec<u8>)
        ensures
            r@ == spec_metadata_key_bytes(*self),
            r@.len() == 9,
    {
        let mut out: Vec<u8> = Vec::new();
        push_u64_be(&mut out, self.log_id);
        out.push(self.kind.kind_byte());
        proof {
            assert(out@ =~= spec_metadata_key_bytes(*self));
        }
        out
    }
}

/// A key of the data column family: a log and a record offset within it.
#[derive(Clone, Copy, Debug, Hash, PartialEq, Eq, Structural)]
pub struct DataKey {
    pub log_id: u64,
    pub offset: u64,
}

/// The encoded form of a data key: log id then offset, both big-endian, so
/// byte order equals numeric `(log_id, offset)` order.
pub open spec fn spec_data_key_bytes(key: DataKey) -> Seq<u8> {
    spec_u64_be_bytes(key.log_id) + spec_u64_be_bytes(key.offset)
}

impl DataKey {
    pub fn new(log_id: u64, offset: u64) -> (r: Self)
        ensures
            r == (DataKey { log_id, offset }),
    {
        DataKey { log_id, offset }
    }

    /// Encode the key for the store.
    pub fn to_bytes(&self) -> (r: Vec<u8>)
        ensures
            r@ == spec_data_key_bytes(*self),
            r@.len() == 16,
    {
        let mut out: Vec<u8> = Vec::new();
        push_u64_be(&mut out, self.log_id);
        push_u64_be(&mut out, self.offset);
        proof {
            assert(out@ =~= spec_data_key_bytes(*self));
        }
        out
    }
}

} // verus!
