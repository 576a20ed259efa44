use vstd::prelude::*;
use vstd::bytes::{spec_u32_from_le_bytes, spec_u64_from_le_bytes, u32_from_le_bytes, u64_from_le_bytes};
use vstd::slice::{slice_subrange, slice_to_vec};
use crate::types::{CallInput, CallInputV, FactKey, FactKeyV, FactValue, FactValueV, zero_word, zero_word_spec, WORD_BYTES};
use crate::state::StateModel;
use crate::encode::{enc_u64, put_raw, put_u64};

verus! {

/// Selector of the call that reads an account's fields.
pub const SEL_ACCOUNT: u32 = 1;

/// Selector of the call that reads one storage slot.
pub const SEL_STORAGE: u32 = 2;

/// Selector of the call that reads an ancestor block hash.
pub const SEL_ANCESTOR: u32 = 3;

/// Revert reason byte: the call data names no known selector.
pub const REASON_UNKNOWN_SELECTOR: u8 = 1;

/// Revert reason byte: the call data has the wrong argument shape.
pub const REASON_BAD_ARGUMENTS: u8 = 2;

/// What the call data of one call asks for.
pub enum ParseOutcome {
    /// A well-formed call wanting one state fact.
    Wanted { key: FactKeyV },
    /// A malformed call; it reverts with this reason.
    Malformed { reason: Seq<u8> },
}

/// Parses call data against a target address: the first four bytes name
/// a selector, the rest are its arguments.
pub open spec fn spec_parse(target: Seq<u8>, data: Seq<u8>) -> ParseOutcome {
    if data.len() < 4 {
        ParseOutcome::Malformed { reason: seq![REASON_UNKNOWN_SELECTOR] }
    } else {
        let sel = spec_u32_from_le_bytes(data.subrange(0, 4));
        if sel == SEL_ACCOUNT {
            if data.len() == 4 {
                ParseOutcome::Wanted { key: FactKeyV::Account { addr: target } }
            } else {
                ParseOutcome::Malformed { reason: seq![REASON_BAD_ARGUMENTS] }
            }
        } else if sel == SEL_STORAGE {
            if data.len() == 36 {
                ParseOutcome::Wanted {
                    key: FactKeyV::Storage { addr: target, slot: data.subrange(4, 36) },
                }
            } else {
                ParseOutcome::Malformed { reason: seq![REASON_BAD_ARGUMENTS] }
            }
        } else if sel == SEL_ANCESTOR {
            if data.len() == 12 {
                ParseOutcome::Wanted {
                    key: FactKeyV::Ancestor { number: spec_u64_from_le_bytes(data.subrange(4, 12)) },
                }
            } else {
                ParseOutcome::Malformed { reason: seq![REASON_BAD_ARGUMENTS] }
            }
        } else {
            ParseOutcome::Malformed { reason: seq![REASON_UNKNOWN_SELECTOR] }
        }
    }
}

/// The return bytes produced for one fetched fact. An account proven
/// absent answers as the all-zero account.
pub open spec fn spec_output(v: FactValueV) -> Seq<u8> {
    match v {
        FactValueV::Account { existing } => match existing {
            Some(a) => a.balance + enc_u64(a.nonce) + a.code_hash + a.storage_root,
            None => zero_word_spec() + enc_u64(0) + zero_word_spec() + zero_word_spec(),
        },
        FactValueV::Storage { value } => value,
        FactValueV::Ancestor { hash } => hash,
    }
}

/// The outcome of one call against one state view.
pub enum RunOutcome {
    /// The call succeeded with these return bytes.
    Output { bytes: Seq<u8> },
    /// The call reverted with this reason.
    Revert { reason: Seq<u8> },
    /// The view holds no fact for a read the call makes.
    Unknown,
}

/// One call's semantics over a state model: the same function governs
/// the host backend and the client backend, so the two cannot diverge
/// in anything but the facts their views hold.
pub open spec fn spec_run(m: StateModel, c: CallInputV) -> RunOutcome {
    match spec_parse(c.target, c.data) {
        ParseOutcome::Malformed { reason } => RunOutcome::Revert { reason },
        ParseOutcome::Wanted { key } => if m.has_fact(key) {
            RunOutcome::Output { bytes: spec_output(m.fact_at(key)) }
        } else {
            RunOutcome::Unknown
        },
    }
}

/// Two state views that agree on the fact a call reads give the call
/// the same outcome: backend divergence is impossible beyond the facts
/// themselves.
pub proof fn lemma_backend_agreement(m1: StateModel, m2: StateModel, c: CallInputV)
    requires
        match spec_parse(c.target, c.data) {
            ParseOutcome::Wanted { key } => m1.has_fact(key) && m2.has_fact(key) && m1.fact_at(key)
                == m2.fact_at(key),
            ParseOutcome::Malformed { .. } => true,
        },
    ensures
        spec_run(m1, c) == spec_run(m2, c),
{
}

/// Forgetting the one fact a call reads turns its outcome into
/// `Unknown`, never into a different output: a replay against a sketch
/// stripped of a required witness fails loudly.
pub proof fn lemma_missing_witness(m: StateModel, c: CallInputV, k: FactKeyV)
    requires
        spec_parse(c.target, c.data) == (ParseOutcome::Wanted { key: k }),
    ensures
        spec_run(m.remove_fact(k), c) == RunOutcome::Unknown,
{
}

/// Parses the call data of one call; answers exactly as the
/// specification parser does.
pub fn parse_call(input: &CallInput) -> (r: Result<FactKey, Vec<u8>>)
    requires
        input@.wf(),
    ensures
        (r matches Ok(k) ==> spec_parse(input@.target, input@.data) == (ParseOutcome::Wanted {
            key: k@,
        }) && k@.wf()),
        (r matches Err(reason) ==> spec_parse(input@.target, input@.data)
            == (ParseOutcome::Malformed { reason: reason@ })),
{
    let data = &input.data;
    if data.len() < 4 {
        let reason = vec![REASON_UNKNOWN_SELECTOR];
        proof {
            assert(reason@ =~= seq![REASON_UNKNOWN_SELECTOR]);
        }
        return Err(reason);
    }
    let sel = u32_from_le_bytes(slice_subrange(data.as_slice(), 0, 4));
    proof {
        assert(data@.subrange(0, 4) == data@.subrange(0, 4));
    }
    if sel == SEL_ACCOUNT {
        if data.len() == 4 {
            let addr = slice_to_vec(input.target.as_slice());
            Ok(FactKey::Account { addr })
        } else {
            let reason = vec![REASON_BAD_ARGUMENTS];
            proof {
                assert(reason@ =~= seq![REASON_BAD_ARGUMENTS]);
            }
            Err(reason)
        }
    } else if sel == SEL_STORAGE {
        if data.len() == 36 {
            let addr = slice_to_vec(input.target.as_slice());
            let slot = slice_to_vec(slice_subrange(data.as_slice(), 4, 36));
            Ok(FactKey::Storage { addr, slot })
        } else {
            let reason = vec![REASON_BAD_ARGUMENTS];
            proof {
                assert(reason@ =~= seq![REASON_BAD_ARGUMENTS]);
            }
            Err(reason)
        }
    } else if sel == SEL_ANCESTOR {
        if data.len() == 12 {
            let number = u64_from_le_bytes(slice_subrange(data.as_slice(), 4, 12));
            Ok(FactKey::Ancestor { number })
        } else {
            let reason = vec![REASON_BAD_ARGUMENTS];
            proof {
                assert(reason@ =~= seq![REASON_BAD_ARGUMENTS]);
            }
            Err(reason)
        }
    } else {
        let reason = vec![REASON_UNKNOWN_SELECTOR];
        proof {
            assert(reason@ =~= seq![REASON_UNKNOWN_SELECTOR]);
        }
        Err(reason)
    }
}

/// Encodes the return bytes for one fetched fact.
pub fn produce_output(v: &FactValue) -> (out: Vec<u8>)
    ensures
        out@ == spec_output(v@),
{
    match v {
        FactValue::Account { existing } => match existing {
            Some(a) => {
                let mut out: Vec<u8> = Vec::new();
                put_raw(&mut out, &a.balance);
                put_u64(&mut out, a.nonce);
                put_raw(&mut out, &a.code_hash);
                put_raw(&mut out, &a.storage_root);
                proof {
                    assert(out@ =~= spec_output(v@));
                }
                out
            },
            None => {
                let z = zero_word();
                let mut out: Vec<u8> = Vec::new();
                put_raw(&mut out, &z);
                put_u64(&mut out, 0);
                put_raw(&mut out, &z);
                put_raw(&mut out, &z);
                proof {
                    assert(out@ =~= spec_output(v@));
                }
                out
            },
        },
        FactValue::Storage { value } => slice_to_vec(value.as_slice()),
        FactValue::Ancestor { hash } => slice_to_vec(hash.as_slice()),
    }
}

} // verus!
