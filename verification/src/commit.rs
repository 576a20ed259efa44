use vstd::prelude::*;
use crate::types::{CallRecord, CallRecordV, WORD_BYTES};
use crate::encode::{enc_bytes, enc_u64, lemma_concat_parts, lemma_enc_bytes_parts, lemma_enc_u64_injective, lemma_enc_u64_len, put_bytes, put_raw, put_u64};

verus! {

/// Canonical encoding of one (call, result) pair: target and caller
/// addresses, then length-prefixed call data and return data. Every
/// pair is fully qualified, so outputs cannot be reordered or
/// substituted without changing the bytes.
pub open spec fn enc_record(r: CallRecordV) -> Seq<u8> {
    r.input.target + r.input.caller + enc_bytes(r.input.data) + enc_bytes(r.output)
}

pub open spec fn enc_records(rs: Seq<CallRecordV>) -> Seq<u8>
    decreases rs.len(),
{
    if rs.len() == 0 {
        Seq::empty()
    } else {
        enc_record(rs[0]) + enc_records(rs.drop_first())
    }
}

/// The public commitment: the block hash first, then the count of
/// pairs, then the pairs in issuance order.
pub open spec fn spec_commitment(block_hash: Seq<u8>, rs: Seq<CallRecordV>) -> Seq<u8> {
    block_hash + enc_u64(rs.len() as u64) + enc_records(rs)
}

pub proof fn lemma_enc_records_push(rs: Seq<CallRecordV>, r: CallRecordV)
    ensures
        enc_records(rs.push(r)) == enc_records(rs) + enc_record(r),
    decreases rs.len(),
{
    if rs.len() == 0 {
        assert(rs.push(r).drop_first() =~= Seq::<CallRecordV>::empty());
        assert(rs.push(r)[0] == r);
        assert(enc_records(Seq::<CallRecordV>::empty()) =~= Seq::<u8>::empty());
        assert(enc_records(rs.push(r)) =~= enc_record(r) + Seq::<u8>::empty());
        assert(enc_record(r) + Seq::<u8>::empty() =~= enc_record(r));
        assert(enc_records(rs) + enc_record(r) =~= enc_record(r));
    } else {
        assert(rs.push(r).drop_first() =~= rs.drop_first().push(r));
        assert(rs.push(r)[0] == rs[0]);
        lemma_enc_records_push(rs.drop_first(), r);
        assert(enc_record(rs[0]) + (enc_records(rs.drop_first()) + enc_record(r)) =~= (enc_record(
            rs[0],
        ) + enc_records(rs.drop_first())) + enc_record(r));
    }
}

proof fn lemma_enc_records_injective(rs1: Seq<CallRecordV>, rs2: Seq<CallRecordV>)
    requires
        rs1.len() == rs2.len(),
        forall|i: int| 0 <= i < rs1.len() ==> (#[trigger] rs1[i]).wf(),
        forall|i: int| 0 <= i < rs2.len() ==> (#[trigger] rs2[i]).wf(),
        enc_records(rs1) == enc_records(rs2),
    ensures
        rs1 == rs2,
    decreases rs1.len(),
{
    if rs1.len() == 0 {
        assert(rs1 =~= rs2);
    } else {
        let a = rs1[0];
        let b = rs2[0];
        let t1 = rs1.drop_first();
        let t2 = rs2.drop_first();
        let resta = a.input.caller + enc_bytes(a.input.data) + enc_bytes(a.output) + enc_records(t1);
        let restb = b.input.caller + enc_bytes(b.input.data) + enc_bytes(b.output) + enc_records(t2);
        assert(enc_records(rs1) =~= a.input.target + resta);
        assert(enc_records(rs2) =~= b.input.target + restb);
        lemma_concat_parts(a.input.target, resta, b.input.target, restb);
        let resta2 = enc_bytes(a.input.data) + (enc_bytes(a.output) + enc_records(t1));
        let restb2 = enc_bytes(b.input.data) + (enc_bytes(b.output) + enc_records(t2));
        assert(resta =~= a.input.caller + resta2);
        assert(restb =~= b.input.caller + restb2);
        lemma_concat_parts(a.input.caller, resta2, b.input.caller, restb2);
        lemma_enc_bytes_parts(
            a.input.data,
            enc_bytes(a.output) + enc_records(t1),
            b.input.data,
            enc_bytes(b.output) + enc_records(t2),
        );
        lemma_enc_bytes_parts(a.output, enc_records(t1), b.output, enc_records(t2));
        lemma_enc_records_injective(t1, t2);
        assert(a.input =~= b.input);
        assert(a =~= b);
        assert forall|i: int| 0 <= i < rs1.len() implies rs1[i] == rs2[i] by {
            if i > 0 {
                assert(rs1[i] == t1[i - 1]);
                assert(rs2[i] == t2[i - 1]);
            }
        }
        assert(rs1 =~= rs2);
    }
}

/// No two distinct execution histories commit to the same bytes: equal
/// commitments carry the same block hash and the same ordered pairs of
/// calls and results.
pub proof fn lemma_commitment_injective(
    b1: Seq<u8>,
    rs1: Seq<CallRecordV>,
    b2: Seq<u8>,
    rs2: Seq<CallRecordV>,
)
    requires
        b1.len() == WORD_BYTES,
        b2.len() == WORD_BYTES,
        rs1.len() <= u64::MAX,
        rs2.len() <= u64::MAX,
        forall|i: int| 0 <= i < rs1.len() ==> (#[trigger] rs1[i]).wf(),
        forall|i: int| 0 <= i < rs2.len() ==> (#[trigger] rs2[i]).wf(),
        spec_commitment(b1, rs1) == spec_commitment(b2, rs2),
    ensures
        b1 == b2,
        rs1 == rs2,
{
    let n1 = rs1.len() as u64;
    let n2 = rs2.len() as u64;
    lemma_enc_u64_len(n1);
    lemma_enc_u64_len(n2);
    assert(spec_commitment(b1, rs1) =~= b1 + (enc_u64(n1) + enc_records(rs1)));
    assert(spec_commitment(b2, rs2) =~= b2 + (enc_u64(n2) + enc_records(rs2)));
    lemma_concat_parts(b1, enc_u64(n1) + enc_records(rs1), b2, enc_u64(n2) + enc_records(rs2));
    lemma_concat_parts(enc_u64(n1), enc_records(rs1), enc_u64(n2), enc_records(rs2));
    lemma_enc_u64_injective(n1, n2);
    assert(rs1.len() == rs2.len());
    lemma_enc_records_injective(rs1, rs2);
}

/// Encodes the public commitment for a block hash and the recorded
/// (call, result) pairs.
pub fn encode_commitment(block_hash: &Vec<u8>, records: &Vec<CallRecord>) -> (out: Vec<u8>)
    ensures
        out@ == spec_commitment(block_hash@, records.deep_view()),
{
    let ghost dv = records.deep_view();
    let mut out: Vec<u8> = Vec::new();
    put_raw(&mut out, block_hash);
    let n = records.len();
    put_u64(&mut out, n as u64);
    proof {
        assert(dv.len() == n);
        assert(dv.subrange(0, 0) =~= Seq::<CallRecordV>::empty());
    }
    let mut i: usize = 0;
    while i < n
        invariant
            i <= n,
            n == records@.len(),
            dv == records.deep_view(),
            dv.len() == n,
            out@ == block_hash@ + enc_u64(n as u64) + enc_records(dv.subrange(0, i as int)),
        decreases n - i,
    {
        let r = &records[i];
        put_raw(&mut out, &r.input.target);
        put_raw(&mut out, &r.input.caller);
        put_bytes(&mut out, &r.input.data);
        put_bytes(&mut out, &r.output);
        proof {
            assert(records@[i as int]@ == dv[i as int]);
            assert(dv.subrange(0, i as int + 1) =~= dv.subrange(0, i as int).push(dv[i as int]));
            lemma_enc_records_push(dv.subrange(0, i as int), dv[i as int]);
            assert(out@ =~= block_hash@ + enc_u64(n as u64) + enc_records(
                dv.subrange(0, i as int + 1),
            ));
        }
        i = i + 1;
    }
    proof {
        assert(dv.subrange(0, n as int) =~= dv);
    }
    out
}

} // verus!
