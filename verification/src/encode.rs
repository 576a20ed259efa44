use vstd::prelude::*;
use vstd::bytes::*;
use vstd::slice::*;
use crate::types::{BlockHeader, BlockHeaderV};

verus! {

/// Canonical encoding of a u64: its eight little-endian bytes.
pub open spec fn enc_u64(x: u64) -> Seq<u8> {
    spec_u64_to_le_bytes(x)
}

/// Canonical encoding of a variable-length byte string: its length as a
/// u64, then the bytes themselves.
pub open spec fn enc_bytes(b: Seq<u8>) -> Seq<u8>
    recommends
        b.len() <= u64::MAX,
{
    enc_u64(b.len() as u64) + b
}

pub proof fn lemma_enc_u64_len(x: u64)
    ensures
        enc_u64(x).len() == 8,
{
    lemma_auto_spec_u64_to_from_le_bytes();
}

pub proof fn lemma_enc_u64_injective(x: u64, y: u64)
    requires
        enc_u64(x) == enc_u64(y),
    ensures
        x == y,
{
    lemma_auto_spec_u64_to_from_le_bytes();
    assert(spec_u64_from_le_bytes(spec_u64_to_le_bytes(x)) == x);
    assert(spec_u64_from_le_bytes(spec_u64_to_le_bytes(y)) == y);
}

/// Two concatenations are equal and their first parts have equal length:
/// then both parts coincide.
pub proof fn lemma_concat_parts(a: Seq<u8>, x: Seq<u8>, b: Seq<u8>, y: Seq<u8>)
    requires
        a.len() == b.len(),
        a + x == b + y,
    ensures
        a == b,
        x == y,
{
    assert forall|i: int| 0 <= i < a.len() implies a[i] == b[i] by {
        assert((a + x)[i] == a[i]);
        assert((b + y)[i] == b[i]);
    }
    assert(a =~= b);
    assert((a + x).len() == a.len() + x.len());
    assert((b + y).len() == b.len() + y.len());
    assert(x.len() == y.len());
    assert forall|i: int| 0 <= i < x.len() implies x[i] == y[i] by {
        assert((a + x)[a.len() + i] == x[i]);
        assert((b + y)[b.len() + i] == y[i]);
    }
    assert(x =~= y);
}

/// Equal length-prefixed encodings followed by equal-shaped tails carry
/// equal strings and equal tails.
pub proof fn lemma_enc_bytes_parts(p: Seq<u8>, x: Seq<u8>, q: Seq<u8>, y: Seq<u8>)
    requires
        p.len() <= u64::MAX,
        q.len() <= u64::MAX,
        enc_bytes(p) + x == enc_bytes(q) + y,
    ensures
        p == q,
        x == y,
{
    lemma_enc_u64_len(p.len() as u64);
    lemma_enc_u64_len(q.len() as u64);
    assert(enc_bytes(p) + x =~= enc_u64(p.len() as u64) + (p + x));
    assert(enc_bytes(q) + y =~= enc_u64(q.len() as u64) + (q + y));
    lemma_concat_parts(enc_u64(p.len() as u64), p + x, enc_u64(q.len() as u64), q + y);
    lemma_enc_u64_injective(p.len() as u64, q.len() as u64);
    lemma_concat_parts(p, x, q, y);
}

/// Appends the canonical u64 encoding.
pub fn put_u64(out: &mut Vec<u8>, x: u64)
    ensures
        final(out)@ == old(out)@ + enc_u64(x),
{
    let bytes = u64_to_le_bytes(x);
    put_raw(out, &bytes);
}

/// Appends raw bytes unchanged.
pub fn put_raw(out: &mut Vec<u8>, b: &Vec<u8>)
    ensures
        final(out)@ == old(out)@ + b@,
{
    let mut i: usize = 0;
    while i < b.len()
        invariant
            i <= b@.len(),
            out@ == old(out)@ + b@.subrange(0, i as int),
        decreases b@.len() - i,
    {
        out.push(b[i]);
        proof {
            assert(old(out)@ + b@.subrange(0, i as int) + seq![b@[i as int]] =~= old(out)@
                + b@.subrange(0, i as int + 1));
        }
        i = i + 1;
    }
    proof {
        assert(b@.subrange(0, b@.len() as int) =~= b@);
    }
}

/// Appends the canonical length-prefixed encoding of a byte string.
pub fn put_bytes(out: &mut Vec<u8>, b: &Vec<u8>)
    ensures
        final(out)@ == old(out)@ + enc_bytes(b@),
{
    put_u64(out, b.len() as u64);
    put_raw(out, b);
    proof {
        assert(old(out)@ + enc_u64(b@.len() as u64) + b@ =~= old(out)@ + enc_bytes(b@));
    }
}

/// Byte length of an encoded block header.
pub const HEADER_BYTES: usize = 80;

/// Canonical encoding of a block header: number, timestamp, parent hash,
/// state root.
pub open spec fn enc_header(h: BlockHeaderV) -> Seq<u8>
    recommends
        h.wf(),
{
    enc_u64(h.number) + enc_u64(h.timestamp) + h.parent_hash + h.state_root
}

/// Decodes a block header from its canonical 80-byte encoding.
pub open spec fn dec_header(b: Seq<u8>) -> Option<BlockHeaderV> {
    if b.len() == HEADER_BYTES {
        Some(
            BlockHeaderV {
                number: spec_u64_from_le_bytes(b.subrange(0, 8)),
                timestamp: spec_u64_from_le_bytes(b.subrange(8, 16)),
                parent_hash: b.subrange(16, 48),
                state_root: b.subrange(48, 80),
            },
        )
    } else {
        None
    }
}

pub proof fn lemma_header_round_trip(h: BlockHeaderV)
    requires
        h.wf(),
    ensures
        enc_header(h).len() == HEADER_BYTES,
        dec_header(enc_header(h)) == Some(h),
{
    lemma_auto_spec_u64_to_from_le_bytes();
    let e = enc_header(h);
    assert(e.len() == HEADER_BYTES);
    assert(e.subrange(0, 8) =~= enc_u64(h.number));
    assert(e.subrange(8, 16) =~= enc_u64(h.timestamp));
    assert(e.subrange(16, 48) =~= h.parent_hash);
    assert(e.subrange(48, 80) =~= h.state_root);
    assert(dec_header(e) == Some(h));
}

/// Encodes a block header canonically.
pub fn encode_header(h: &BlockHeader) -> (r: Vec<u8>)
    requires
        h@.wf(),
    ensures
        r@ == enc_header(h@),
{
    let mut out: Vec<u8> = Vec::new();
    put_u64(&mut out, h.number);
    put_u64(&mut out, h.timestamp);
    put_raw(&mut out, &h.parent_hash);
    put_raw(&mut out, &h.state_root);
    proof {
        assert(out@ =~= enc_header(h@));
    }
    out
}

/// Decodes a block header from its canonical encoding; answers exactly
/// as the specification decoder does.
pub fn decode_header(b: &Vec<u8>) -> (r: Option<BlockHeader>)
    ensures
        match r {
            Some(h) => dec_header(b@) == Some(h@) && h@.wf(),
            None => dec_header(b@) is None,
        },
{
    if b.len() != HEADER_BYTES {
        return None;
    }
    let number = u64_from_le_bytes(slice_subrange(b.as_slice(), 0, 8));
    let timestamp = u64_from_le_bytes(slice_subrange(b.as_slice(), 8, 16));
    let parent_hash = slice_to_vec(slice_subrange(b.as_slice(), 16, 48));
    let state_root = slice_to_vec(slice_subrange(b.as_slice(), 48, 80));
    let h = BlockHeader { number, timestamp, parent_hash, state_root };
    proof {
        assert(h@.parent_hash =~= b@.subrange(16, 48));
        assert(h@.state_root =~= b@.subrange(48, 80));
    }
    Some(h)
}

} // verus!
