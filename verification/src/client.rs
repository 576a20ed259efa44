use vstd::prelude::*;
use vstd::slice::slice_to_vec;
use crate::types::{CallInput, CallInputV, CallRecord, CallRecordV, ClientError, bytes_eq, ADDRESS_BYTES, WORD_BYTES};
use crate::hash::keccak;
use crate::sketch::{account_entry_ok, header_ok, sketch_model, sketch_valid, storage_entry_ok, witnesses_ok, make_account_leaf, make_storage_leaf, verify_ancestor, AccountEntry, StateSketch, StateSketchV, StorageEntry};
use crate::state::StateModel;
use crate::calls::{parse_call, produce_output, spec_run, RunOutcome};
use crate::accumulator::verify_inclusion;
use crate::commit::{encode_commitment, spec_commitment};
use crate::wire::{decode_sketch, parse_sketch};

verus! {

/// Copies one call input.
pub fn clone_input(c: &CallInput) -> (r: CallInput)
    ensures
        r@ == c@,
{
    CallInput {
        target: slice_to_vec(c.target.as_slice()),
        caller: slice_to_vec(c.caller.as_slice()),
        data: slice_to_vec(c.data.as_slice()),
    }
}

/// Checks one account witness against the state root; answers exactly
/// as the specification predicate does.
pub fn check_account_entry(root: &Vec<u8>, e: &AccountEntry) -> (r: bool)
    ensures
        r == account_entry_ok(root@, e@),
{
    if e.addr.len() != ADDRESS_BYTES {
        return false;
    }
    match &e.existing {
        Some(a) => {
            if a.balance.len() != WORD_BYTES || a.code_hash.len() != WORD_BYTES
                || a.storage_root.len() != WORD_BYTES {
                return false;
            }
        },
        None => {},
    }
    let leaf = make_account_leaf(&e.addr, &e.existing);
    verify_inclusion(root, &leaf, &e.proof)
}

/// Checks one storage witness against the state root; answers exactly
/// as the specification predicate does.
pub fn check_storage_entry(root: &Vec<u8>, e: &StorageEntry) -> (r: bool)
    ensures
        r == storage_entry_ok(root@, e@),
{
    if e.addr.len() != ADDRESS_BYTES || e.slot.len() != WORD_BYTES || e.value.len() != WORD_BYTES {
        return false;
    }
    let leaf = make_storage_leaf(&e.addr, &e.slot, &e.value);
    verify_inclusion(root, &leaf, &e.proof)
}

/// Replays calls against a verified sketch, with no further reads of
/// anything outside it. Verification happens once, eagerly, in `new`;
/// `commit` consumes the executor, so no call can follow the committed
/// output.
pub struct ClientExecutor {
    pub sketch: StateSketch,
    pub records: Vec<CallRecord>,
}

impl ClientExecutor {
    pub open spec fn wf(self) -> bool {
        sketch_valid(self.sketch@)
    }

    /// Verifies every witness of the sketch against its embedded state
    /// root and recomputes the header hash; succeeds exactly on valid
    /// sketches.
    pub fn new(sketch: StateSketch) -> (r: Result<ClientExecutor, ClientError>)
        ensures
            (r is Ok) == sketch_valid(sketch@),
            (r matches Ok(c) ==> c.sketch@ == sketch@ && c.records@.len() == 0 && c.wf()),
            (r matches Err(e) ==> ((e is HeaderIntegrityError) == !header_ok(sketch@)) && ((
            e is InvalidProof) == (header_ok(sketch@) && !witnesses_ok(sketch@)))),
    {
        let ghost sv = sketch@;
        if sketch.header.parent_hash.len() != WORD_BYTES || sketch.header.state_root.len()
            != WORD_BYTES {
            proof {
                assert(!header_ok(sv));
            }
            return Err(ClientError::HeaderIntegrityError);
        }
        let encoded = crate::encode::encode_header(&sketch.header);
        let digest = keccak(&encoded);
        if !bytes_eq(&sketch.block_hash, &digest) {
            proof {
                assert(!header_ok(sv));
            }
            return Err(ClientError::HeaderIntegrityError);
        }
        proof {
            assert(header_ok(sv));
        }
        let n1 = sketch.accounts.len();
        let mut i: usize = 0;
        while i < n1
            invariant
                i <= n1,
                n1 == sketch.accounts@.len(),
                sv == sketch@,
                header_ok(sv),
                forall|j: int| 0 <= j < i ==> account_entry_ok(
                    sv.header.state_root,
                    #[trigger] sv.accounts[j],
                ),
            decreases n1 - i,
        {
            proof {
                assert(sketch.accounts@[i as int]@ == sv.accounts[i as int]);
            }
            if !check_account_entry(&sketch.header.state_root, &sketch.accounts[i]) {
                proof {
                    assert(!account_entry_ok(sv.header.state_root, sv.accounts[i as int]));
                    assert(!witnesses_ok(sv));
                }
                return Err(ClientError::InvalidProof);
            }
            i = i + 1;
        }
        let n2 = sketch.storage.len();
        let mut i2: usize = 0;
        while i2 < n2
            invariant
                i2 <= n2,
                n2 == sketch.storage@.len(),
                sv == sketch@,
                header_ok(sv),
                forall|j: int| 0 <= j < sv.accounts.len() ==> account_entry_ok(
                    sv.header.state_root,
                    #[trigger] sv.accounts[j],
                ),
                forall|j: int| 0 <= j < i2 ==> storage_entry_ok(
                    sv.header.state_root,
                    #[trigger] sv.storage[j],
                ),
            decreases n2 - i2,
        {
            proof {
                assert(sketch.storage@[i2 as int]@ == sv.storage[i2 as int]);
            }
            if !check_storage_entry(&sketch.header.state_root, &sketch.storage[i2]) {
                proof {
                    assert(!storage_entry_ok(sv.header.state_root, sv.storage[i2 as int]));
                    assert(!witnesses_ok(sv));
                }
                return Err(ClientError::InvalidProof);
            }
            i2 = i2 + 1;
        }
        let n3 = sketch.ancestors.len();
        let mut i3: usize = 0;
        while i3 < n3
            invariant
                i3 <= n3,
                n3 == sketch.ancestors@.len(),
                sv == sketch@,
                header_ok(sv),
                forall|j: int| 0 <= j < sv.accounts.len() ==> account_entry_ok(
                    sv.header.state_root,
                    #[trigger] sv.accounts[j],
                ),
                forall|j: int| 0 <= j < sv.storage.len() ==> storage_entry_ok(
                    sv.header.state_root,
                    #[trigger] sv.storage[j],
                ),
                forall|j: int| 0 <= j < i3 ==> crate::sketch::ancestor_entry_ok(
                    sv.header,
                    #[trigger] sv.ancestors[j],
                ),
            decreases n3 - i3,
        {
            proof {
                assert(sketch.ancestors@[i3 as int]@ == sv.ancestors[i3 as int]);
            }
            if !verify_ancestor(&sketch.header, &sketch.ancestors[i3]) {
                proof {
                    assert(!crate::sketch::ancestor_entry_ok(sv.header, sv.ancestors[i3 as int]));
                    assert(!witnesses_ok(sv));
                }
                return Err(ClientError::InvalidProof);
            }
            i3 = i3 + 1;
        }
        proof {
            assert(witnesses_ok(sv));
        }
        Ok(ClientExecutor { sketch, records: Vec::new() })
    }

    /// Replays one call against the verified witnesses alone. A read of
    /// a fact absent from the sketch fails with `MissingWitness`; the
    /// outcome is exactly the shared call semantics over the sketch's
    /// state model.
    pub fn execute(&mut self, input: &CallInput) -> (r: Result<Vec<u8>, ClientError>)
        requires
            old(self).wf(),
            input@.wf(),
        ensures
            final(self).wf(),
            final(self).sketch == old(self).sketch,
            (r matches Ok(out) ==> spec_run(sketch_model(old(self).sketch@), input@)
                == (RunOutcome::Output { bytes: out@ }) && final(self).records.deep_view() == old(
                self,
            ).records.deep_view().push(CallRecordV { input: input@, output: out@ })),
            (r matches Err(e) ==> final(self).records == old(self).records && match e {
                ClientError::ExecutionReverted { reason } => spec_run(
                    sketch_model(old(self).sketch@),
                    input@,
                ) == (RunOutcome::Revert { reason: reason@ }),
                ClientError::MissingWitness => spec_run(sketch_model(old(self).sketch@), input@)
                    == RunOutcome::Unknown,
                _ => false,
            }),
    {
        let key = match parse_call(input) {
            Ok(k) => k,
            Err(reason) => {
                return Err(ClientError::ExecutionReverted { reason });
            },
        };
        let value = match self.sketch.lookup(&key) {
            Some(v) => v,
            None => {
                return Err(ClientError::MissingWitness);
            },
        };
        let out = produce_output(&value);
        let output = slice_to_vec(out.as_slice());
        let record = CallRecord { input: clone_input(input), output };
        let ghost old_dv = self.records.deep_view();
        self.records.push(record);
        proof {
            assert(self.records.deep_view() =~~= old_dv.push(
                CallRecordV { input: input@, output: out@ },
            ));
        }
        Ok(out)
    }

    /// Encodes the committed public values: the block hash and every
    /// (call, result) pair, in issuance order. Consuming the executor,
    /// this is the terminal step of a run.
    pub fn commit(self) -> (out: Vec<u8>)
        ensures
            out@ == spec_commitment(self.sketch@.block_hash, self.records.deep_view()),
    {
        encode_commitment(&self.sketch.block_hash, &self.records)
    }
}

/// How a whole client run ends, as a function of the sketch and the
/// call sequence alone.
pub enum SessionOutcome {
    /// The run completed and committed these bytes.
    Committed { bytes: Seq<u8> },
    /// The embedded header fails its hash check.
    RejectedHeader,
    /// Some witness fails cryptographic verification.
    RejectedProof,
    /// Some call reads a fact the sketch lacks.
    Incomplete,
}

/// The records a full replay produces: successful calls append their
/// pair, reverted calls pass, and a missing fact aborts the run.
pub open spec fn spec_replay(m: StateModel, calls: Seq<CallInputV>) -> Option<Seq<CallRecordV>>
    decreases calls.len(),
{
    if calls.len() == 0 {
        Some(Seq::empty())
    } else {
        match spec_run(m, calls[0]) {
            RunOutcome::Output { bytes } => match spec_replay(m, calls.drop_first()) {
                Some(rest) => Some(
                    seq![CallRecordV { input: calls[0], output: bytes }] + rest,
                ),
                None => None,
            },
            RunOutcome::Revert { .. } => spec_replay(m, calls.drop_first()),
            RunOutcome::Unknown => None,
        }
    }
}

/// The outcome of a whole client run over a sketch and call sequence.
pub open spec fn spec_session(s: StateSketchV, calls: Seq<CallInputV>) -> SessionOutcome {
    if !header_ok(s) {
        SessionOutcome::RejectedHeader
    } else if !witnesses_ok(s) {
        SessionOutcome::RejectedProof
    } else {
        match spec_replay(sketch_model(s), calls) {
            Some(rs) => SessionOutcome::Committed { bytes: spec_commitment(s.block_hash, rs) },
            None => SessionOutcome::Incomplete,
        }
    }
}

/// The statable core of tamper sensitivity: a sketch in which the
/// header or any one witness fails verification is refused — header
/// failures as a header-integrity error, witness failures as an
/// invalid proof — and no call sequence commits anything against it.
/// That one flipped proof byte actually makes a witness fail is
/// collision resistance of the digest, which no contract of this crate
/// states; the tests exercise it with the real digest.
pub proof fn lemma_invalid_sketch_never_commits(s: StateSketchV, calls: Seq<CallInputV>)
    requires
        !sketch_valid(s),
    ensures
        !(spec_session(s, calls) is Committed),
        !header_ok(s) ==> spec_session(s, calls) is RejectedHeader,
        header_ok(s) ==> spec_session(s, calls) is RejectedProof,
{
}

/// A record sequence in which every call's outcome over `m` is its own
/// recorded output replays to exactly itself.
pub proof fn lemma_replay_matches_records(m: StateModel, rs: Seq<CallRecordV>)
    requires
        forall|i: int| 0 <= i < rs.len() ==> spec_run(m, (#[trigger] rs[i]).input)
            == (RunOutcome::Output { bytes: rs[i].output }),
    ensures
        spec_replay(m, rs.map_values(|r: CallRecordV| r.input)) == Some(rs),
    decreases rs.len(),
{
    let inputs = rs.map_values(|r: CallRecordV| r.input);
    if rs.len() == 0 {
        assert(inputs.len() == 0);
        assert(spec_replay(m, inputs) == Some(Seq::<CallRecordV>::empty()));
        assert(Seq::<CallRecordV>::empty() =~= rs);
    } else {
        let tail = rs.drop_first();
        assert(forall|i: int| 0 <= i < tail.len() ==> tail[i] == rs[i + 1]);
        lemma_replay_matches_records(m, tail);
        assert(inputs[0] == rs[0].input);
        assert(inputs.drop_first() =~= tail.map_values(|r: CallRecordV| r.input));
        assert(spec_run(m, inputs[0]) == (RunOutcome::Output { bytes: rs[0].output }));
        assert(rs[0] =~= (CallRecordV { input: rs[0].input, output: rs[0].output }));
        assert(seq![CallRecordV { input: inputs[0], output: rs[0].output }] + tail =~= rs);
    }
}

/// One whole client run: verify the sketch, replay every call in
/// order, and commit. The result is a function of the sketch and the
/// call sequence alone, so any two replays of the same inputs agree
/// byte for byte.
pub fn replay_session(sketch: StateSketch, calls: &Vec<CallInput>) -> (r: Result<
    Vec<u8>,
    ClientError,
>)
    requires
        forall|i: int| 0 <= i < calls@.len() ==> (#[trigger] calls.deep_view()[i]).wf(),
    ensures
        (r is Ok) == (spec_session(sketch@, calls.deep_view()) is Committed),
        (r matches Ok(out) ==> spec_session(sketch@, calls.deep_view()) == (SessionOutcome::Committed {
            bytes: out@,
        })),
        (r matches Err(e) ==> match e {
            ClientError::HeaderIntegrityError => spec_session(sketch@, calls.deep_view())
                is RejectedHeader,
            ClientError::InvalidProof => spec_session(sketch@, calls.deep_view()) is RejectedProof,
            ClientError::MissingWitness => spec_session(sketch@, calls.deep_view()) is Incomplete,
            ClientError::ExecutionReverted { .. } => false,
        }),
{
    let ghost sv = sketch@;
    let ghost cdv = calls.deep_view();
    let mut ex = match ClientExecutor::new(sketch) {
        Ok(ex) => ex,
        Err(e) => {
            let out = match e {
                ClientError::HeaderIntegrityError => Err(ClientError::HeaderIntegrityError),
                ClientError::InvalidProof => Err(ClientError::InvalidProof),
                ClientError::MissingWitness => Err(ClientError::MissingWitness),
                ClientError::ExecutionReverted { reason } => Err(
                    ClientError::ExecutionReverted { reason },
                ),
            };
            return out;
        },
    };
    let ghost m = sketch_model(sv);
    let n = calls.len();
    let mut i: usize = 0;
    proof {
        assert(cdv.subrange(0, n as int) =~= cdv);
    }
    while i < n
        invariant
            i <= n,
            n == calls@.len(),
            sv == sketch@,
            cdv == calls.deep_view(),
            cdv.len() == n,
            forall|j: int| 0 <= j < n ==> (#[trigger] cdv[j]).wf(),
            ex.wf(),
            ex.sketch@ == sv,
            m == sketch_model(sv),
            header_ok(sv),
            witnesses_ok(sv),
            match spec_replay(m, cdv.subrange(i as int, n as int)) {
                Some(rest) => spec_replay(m, cdv) == Some(ex.records.deep_view() + rest),
                None => spec_replay(m, cdv) is None,
            },
        decreases n - i,
    {
        let ghost rest_calls = cdv.subrange(i as int, n as int);
        proof {
            assert(rest_calls[0] == cdv[i as int]);
            assert(rest_calls.drop_first() =~= cdv.subrange(i as int + 1, n as int));
            assert(calls@[i as int]@ == cdv[i as int]);
        }
        let ghost before = ex.records.deep_view();
        match ex.execute(&calls[i]) {
            Ok(out) => {
                proof {
                    let rec = CallRecordV { input: cdv[i as int], output: out@ };
                    assert(ex.records.deep_view() == before.push(rec));
                    if spec_replay(m, rest_calls.drop_first()) is Some {
                        let rest2 = crate::types::opt_get(
                            spec_replay(m, rest_calls.drop_first()),
                        );
                        assert(spec_replay(m, rest_calls) == Some(seq![rec] + rest2));
                        assert(before.push(rec) + rest2 =~= before + (seq![rec] + rest2));
                    }
                }
            },
            Err(ClientError::ExecutionReverted { .. }) => {
                proof {
                    assert(spec_replay(m, rest_calls) == spec_replay(m, rest_calls.drop_first()));
                }
            },
            Err(ClientError::MissingWitness) => {
                proof {
                    assert(spec_replay(m, rest_calls) is None);
                    assert(spec_replay(m, cdv) is None);
                    assert(spec_session(sv, cdv) is Incomplete);
                }
                return Err(ClientError::MissingWitness);
            },
            Err(_) => {
                proof {
                    assert(false);
                }
                return Err(ClientError::MissingWitness);
            },
        }
        i = i + 1;
    }
    proof {
        assert(cdv.subrange(n as int, n as int) =~= Seq::<CallInputV>::empty());
        assert(spec_replay(m, Seq::<CallInputV>::empty()) == Some(Seq::<CallRecordV>::empty()));
        assert(ex.records.deep_view() + Seq::<CallRecordV>::empty() =~= ex.records.deep_view());
    }
    let out = ex.commit();
    Ok(out)
}

/// A whole client run from the one serialized blob a host hands over:
/// decode, verify, replay, commit. A blob that does not decode is a
/// malformed sketch and is rejected as an invalid proof.
pub fn replay_blob(blob: &Vec<u8>, calls: &Vec<CallInput>) -> (r: Result<Vec<u8>, ClientError>)
    requires
        forall|i: int| 0 <= i < calls@.len() ==> (#[trigger] calls.deep_view()[i]).wf(),
    ensures
        (parse_sketch(blob@) is None ==> (r matches Err(e) && e is InvalidProof)),
        (parse_sketch(blob@) matches Some(sv) ==> {
            &&& (r is Ok) == (spec_session(sv, calls.deep_view()) is Committed)
            &&& (r matches Ok(out) ==> spec_session(sv, calls.deep_view())
                == (SessionOutcome::Committed { bytes: out@ }))
            &&& (r matches Err(e) ==> match e {
                ClientError::HeaderIntegrityError => spec_session(sv, calls.deep_view())
                    is RejectedHeader,
                ClientError::InvalidProof => spec_session(sv, calls.deep_view()) is RejectedProof,
                ClientError::MissingWitness => spec_session(sv, calls.deep_view()) is Incomplete,
                ClientError::ExecutionReverted { .. } => false,
            })
        }),
{
    match decode_sketch(blob) {
        Some(sketch) => replay_session(sketch, calls),
        None => Err(ClientError::InvalidProof),
    }
}

} // verus!
