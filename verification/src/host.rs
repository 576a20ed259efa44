use vstd::prelude::*;
use vstd::slice::slice_to_vec;
use crate::types::{BlockHeader, CallInput, CallRecord, CallRecordV, FactKey, FactKeyV, FactValue, FactValueV, HostError, AccountDataV, WORD_BYTES};
use crate::hash::{keccak, keccak_of};
use crate::encode::{enc_header, encode_header};
use crate::state::{StateProvider, WitnessProof};
use crate::calls::{parse_call, produce_output, spec_parse, spec_run, ParseOutcome, RunOutcome};
use crate::sketch::{account_entry_ok, ancestor_entry_ok, storage_entry_ok, clone_account, find_account, find_ancestor, find_storage, lemma_find_account_exists, lemma_find_account_push, lemma_find_ancestor_exists, lemma_find_ancestor_push, lemma_find_storage_exists, lemma_find_storage_push, sketch_model, sketch_valid, verify_ancestor, witnesses_ok, header_ok, AccountEntry, AccountEntryV, AncestorEntry, AncestorEntryV, StateSketch, StorageEntry, StorageEntryV};
use crate::client::{check_account_entry, check_storage_entry, clone_input};

verus! {

/// One recorded state access: the fact's key and the value the live
/// view answered.
pub struct AccessEntry {
    pub key: FactKey,
    pub value: FactValue,
}

#[verifier::ext_equal]
pub struct AccessEntryV {
    pub key: FactKeyV,
    pub value: FactValueV,
}

impl View for AccessEntry {
    type V = AccessEntryV;

    open spec fn view(&self) -> AccessEntryV {
        AccessEntryV { key: self.key@, value: self.value@ }
    }
}

impl DeepView for AccessEntry {
    type V = AccessEntryV;

    open spec fn deep_view(&self) -> AccessEntryV {
        self@
    }
}

/// Whether a key occurs among recorded accesses.
pub open spec fn has_key(s: Seq<AccessEntryV>, k: FactKeyV) -> bool {
    exists|i: int| 0 <= i < s.len() && (#[trigger] s[i]).key == k
}

/// The account part of a fact value.
pub open spec fn acct_of(v: FactValueV) -> Option<AccountDataV> {
    match v {
        FactValueV::Account { existing } => existing,
        _ => vstd::pervasive::arbitrary(),
    }
}

/// The storage part of a fact value.
pub open spec fn sto_of(v: FactValueV) -> Seq<u8> {
    match v {
        FactValueV::Storage { value } => value,
        _ => vstd::pervasive::arbitrary(),
    }
}

/// The ancestor-hash part of a fact value.
pub open spec fn anc_of(v: FactValueV) -> Seq<u8> {
    match v {
        FactValueV::Ancestor { hash } => hash,
        _ => vstd::pervasive::arbitrary(),
    }
}

/// One access entry is represented among the built witness entries.
pub open spec fn value_found(
    e: AccessEntryV,
    adv: Seq<AccountEntryV>,
    sdv: Seq<StorageEntryV>,
    ndv: Seq<AncestorEntryV>,
) -> bool {
    match e.key {
        FactKeyV::Account { addr } => find_account(adv, addr) == Some(acct_of(e.value)),
        FactKeyV::Storage { addr, slot } => find_storage(sdv, addr, slot) == Some(sto_of(e.value)),
        FactKeyV::Ancestor { number } => find_ancestor(ndv, number) == Some(anc_of(e.value)),
    }
}

/// A host-side session: drives read-only calls against a live state
/// view, records every fact read, and finalizes the recorded set into
/// a self-contained sketch.
pub struct HostSession<P: StateProvider> {
    pub provider: P,
    pub header: BlockHeader,
    pub block_hash: Vec<u8>,
    pub accessed: Vec<AccessEntry>,
    pub records: Vec<CallRecord>,
}

impl<P: StateProvider> HostSession<P> {
    pub open spec fn wf(self) -> bool {
        let av = self.accessed.deep_view();
        let rdv = self.records.deep_view();
        let m = self.provider.model();
        &&& self.provider.ready()
        &&& self.header@.wf()
        &&& self.block_hash@.len() == WORD_BYTES
        &&& self.block_hash@ == keccak_of(enc_header(self.header@))
        &&& forall|i: int| 0 <= i < av.len() ==> (#[trigger] av[i]).key.wf() && m.has_fact(
            av[i].key,
        ) && av[i].value == m.fact_at(av[i].key)
        &&& forall|i: int, j: int| 0 <= i < j < av.len() ==> (#[trigger] av[i]).key != (
        #[trigger] av[j]).key
        &&& forall|i: int| 0 <= i < rdv.len() ==> (#[trigger] rdv[i]).input.wf() && spec_run(
            m,
            rdv[i].input,
        ) == (RunOutcome::Output { bytes: rdv[i].output }) && match spec_parse(
            rdv[i].input.target,
            rdv[i].input.data,
        ) {
            ParseOutcome::Wanted { key } => has_key(av, key),
            ParseOutcome::Malformed { .. } => false,
        }
    }

    /// Opens a session pinned to one resolved block header. All calls
    /// of the session see the single state this header commits to.
    pub fn open(provider: P, header: BlockHeader) -> (s: Self)
        requires
            provider.ready(),
            header@.wf(),
        ensures
            s.wf(),
            s.provider == provider,
            s.header == header,
            s.block_hash@ == keccak_of(enc_header(header@)),
            s.accessed@.len() == 0,
            s.records@.len() == 0,
    {
        let encoded = encode_header(&header);
        let block_hash = keccak(&encoded);
        HostSession { provider, header, block_hash, accessed: Vec::new(), records: Vec::new() }
    }

    /// Runs one call against the live view, recording the fact it
    /// reads into the deduplicated accessed set.
    pub fn execute(&mut self, input: &CallInput) -> (r: Result<Vec<u8>, HostError>)
        requires
            old(self).wf(),
            input@.wf(),
        ensures
            final(self).wf(),
            final(self).provider == old(self).provider,
            final(self).header == old(self).header,
            final(self).block_hash == old(self).block_hash,
            (r matches Ok(out) ==> spec_run(old(self).provider.model(), input@)
                == (RunOutcome::Output { bytes: out@ }) && final(self).records.deep_view() == old(
                self,
            ).records.deep_view().push(CallRecordV { input: input@, output: out@ }) && match
                spec_parse(input@.target, input@.data) {
                ParseOutcome::Wanted { key } => final(self).accessed.deep_view() == if has_key(
                    old(self).accessed.deep_view(),
                    key,
                ) {
                    old(self).accessed.deep_view()
                } else {
                    old(self).accessed.deep_view().push(
                        AccessEntryV { key, value: old(self).provider.model().fact_at(key) },
                    )
                },
                ParseOutcome::Malformed { .. } => false,
            }),
            (r matches Err(e) ==> final(self).records == old(self).records && final(self).accessed
                == old(self).accessed && match e {
                HostError::ExecutionReverted { reason } => spec_run(
                    old(self).provider.model(),
                    input@,
                ) == (RunOutcome::Revert { reason: reason@ }),
                HostError::NetworkError => spec_parse(input@.target, input@.data) matches (
                ParseOutcome::Wanted { .. }),
                HostError::HeaderMismatch => false,
            }),
    {
        let ghost m = self.provider.model();
        let key = match parse_call(input) {
            Ok(k) => k,
            Err(reason) => {
                return Err(HostError::ExecutionReverted { reason });
            },
        };
        let fetched: FactValue = match &key {
            FactKey::Account { addr } => match self.provider.fetch_account(addr) {
                Ok(existing) => FactValue::Account { existing },
                Err(_) => {
                    return Err(HostError::NetworkError);
                },
            },
            FactKey::Storage { addr, slot } => match self.provider.fetch_storage(addr, slot) {
                Ok(value) => FactValue::Storage { value },
                Err(_) => {
                    return Err(HostError::NetworkError);
                },
            },
            FactKey::Ancestor { number } => match self.provider.fetch_ancestor_hash(*number) {
                Ok(hash) => FactValue::Ancestor { hash },
                Err(_) => {
                    return Err(HostError::NetworkError);
                },
            },
        };
        proof {
            assert(m.has_fact(key@));
            assert(fetched@ == m.fact_at(key@));
        }
        let out = produce_output(&fetched);
        let ghost old_av = self.accessed.deep_view();
        let ghost kv = key@;
        if !find_access(&self.accessed, &key) {
            self.accessed.push(AccessEntry { key, value: fetched });
            proof {
                assert(self.accessed.deep_view() =~~= old_av.push(
                    AccessEntryV { key: kv, value: m.fact_at(kv) },
                ));
                let av = self.accessed.deep_view();
                assert forall|i: int, j: int| 0 <= i < j < av.len() implies (
                #[trigger] av[i]).key != (#[trigger] av[j]).key by {
                    if j == av.len() - 1 {
                        assert(av[i] == old_av[i]);
                        assert(!has_key(old_av, kv));
                        assert(old_av[i].key != kv);
                    }
                }
            }
        }
        let ghost old_rdv = self.records.deep_view();
        let output = slice_to_vec(out.as_slice());
        let record = CallRecord { input: clone_input(input), output };
        self.records.push(record);
        proof {
            assert(self.records.deep_view() =~~= old_rdv.push(
                CallRecordV { input: input@, output: out@ },
            ));
            let av = self.accessed.deep_view();
            assert(has_key(av, kv)) by {
                if has_key(old_av, kv) {
                    let w = choose|l: int| 0 <= l < old_av.len() && (#[trigger] old_av[l]).key
                        == kv;
                    assert(av[w].key == kv);
                } else {
                    assert(av[av.len() - 1].key == kv);
                }
            }
            let rdv = self.records.deep_view();
            assert forall|i: int| 0 <= i < rdv.len() implies (#[trigger] rdv[i]).input.wf()
                && spec_run(m, rdv[i].input) == (RunOutcome::Output { bytes: rdv[i].output })
                && match spec_parse(rdv[i].input.target, rdv[i].input.data) {
                ParseOutcome::Wanted { key: k2 } => has_key(av, k2),
                ParseOutcome::Malformed { .. } => false,
            } by {
                if i < rdv.len() - 1 {
                    assert(rdv[i] == old_rdv[i]);
                    match spec_parse(rdv[i].input.target, rdv[i].input.data) {
                        ParseOutcome::Wanted { key: k2 } => {
                            assert(has_key(old_av, k2));
                            let w = choose|l: int| 0 <= l < old_av.len() && (
                            #[trigger] old_av[l]).key == k2;
                            assert(av[w].key == k2);
                        },
                        ParseOutcome::Malformed { .. } => {},
                    }
                }
            }
        }
        Ok(out)
    }

    /// Fetches one proof per unique recorded fact, verifies each
    /// against the pinned header, and freezes everything into a
    /// sketch. The sketch's witness set equals exactly the recorded
    /// accessed set: nothing missing, nothing extraneous.
    pub fn finalize(self) -> (r: Result<(StateSketch, Vec<CallRecord>), HostError>)
        requires
            self.wf(),
        ensures
            (r matches Ok(pair) ==> {
                let sk = pair.0@;
                let av = self.accessed.deep_view();
                &&& sketch_valid(sk)
                &&& sk.header == self.header@
                &&& sk.block_hash == self.block_hash@
                &&& pair.1 == self.records
                &&& sk.accounts.len() + sk.storage.len() + sk.ancestors.len() == av.len()
                &&& forall|k: FactKeyV| sketch_model(sk).has_fact(k) == has_key(av, k)
                &&& forall|k: FactKeyV| has_key(av, k) ==> sketch_model(sk).fact_at(k)
                    == self.provider.model().fact_at(k)
                &&& forall|i: int| 0 <= i < self.records.deep_view().len() ==> spec_run(
                    sketch_model(sk),
                    (#[trigger] self.records.deep_view()[i]).input,
                ) == (RunOutcome::Output { bytes: self.records.deep_view()[i].output })
            }),
            (r matches Err(e) ==> !(e matches HostError::ExecutionReverted { .. })),
            self.accessed@.len() == 0 ==> r is Ok,
    {
        let HostSession { provider, header, block_hash, accessed, records } = self;
        let ghost av = accessed.deep_view();
        let ghost m = provider.model();
        let mut accounts: Vec<AccountEntry> = Vec::new();
        let mut storage: Vec<StorageEntry> = Vec::new();
        let mut ancestors: Vec<AncestorEntry> = Vec::new();
        let n = accessed.len();
        let mut i: usize = 0;
        while i < n
            invariant
                i <= n,
                n == accessed@.len(),
                n == self.accessed@.len(),
                av == accessed.deep_view(),
                av.len() == n,
                provider.ready(),
                m == provider.model(),
                header@.wf(),
                forall|l: int| 0 <= l < av.len() ==> (#[trigger] av[l]).key.wf() && m.has_fact(
                    av[l].key,
                ) && av[l].value == m.fact_at(av[l].key),
                forall|l: int, j: int| 0 <= l < j < av.len() ==> (#[trigger] av[l]).key != (
                #[trigger] av[j]).key,
                forall|l: int| 0 <= l < accounts.deep_view().len() ==> account_entry_ok(
                    header@.state_root,
                    #[trigger] accounts.deep_view()[l],
                ),
                forall|l: int| 0 <= l < storage.deep_view().len() ==> storage_entry_ok(
                    header@.state_root,
                    #[trigger] storage.deep_view()[l],
                ),
                forall|l: int| 0 <= l < ancestors.deep_view().len() ==> ancestor_entry_ok(
                    header@,
                    #[trigger] ancestors.deep_view()[l],
                ),
                accounts.deep_view().len() + storage.deep_view().len()
                    + ancestors.deep_view().len() == i,
                forall|j: int| 0 <= j < i ==> value_found(
                    #[trigger] av[j],
                    accounts.deep_view(),
                    storage.deep_view(),
                    ancestors.deep_view(),
                ),
                forall|l: int| 0 <= l < accounts.deep_view().len() ==> has_key(
                    av.subrange(0, i as int),
                    FactKeyV::Account { addr: (#[trigger] accounts.deep_view()[l]).addr },
                ),
                forall|l: int| 0 <= l < storage.deep_view().len() ==> has_key(
                    av.subrange(0, i as int),
                    FactKeyV::Storage {
                        addr: (#[trigger] storage.deep_view()[l]).addr,
                        slot: storage.deep_view()[l].slot,
                    },
                ),
                forall|l: int| 0 <= l < ancestors.deep_view().len() ==> has_key(
                    av.subrange(0, i as int),
                    FactKeyV::Ancestor { number: (#[trigger] ancestors.deep_view()[l]).number },
                ),
            decreases n - i,
        {
            proof {
                assert(accessed@[i as int]@ == av[i as int]);
            }
            let wproof = match provider.fetch_proof(&accessed[i].key) {
                Ok(p) => p,
                Err(_) => {
                    return Err(HostError::NetworkError);
                },
            };
            let ghost old_adv = accounts.deep_view();
            let ghost old_sdv = storage.deep_view();
            let ghost old_ndv = ancestors.deep_view();
            match &accessed[i].key {
                FactKey::Account { addr } => {
                    let existing = match &accessed[i].value {
                        FactValue::Account { existing } => match existing {
                            Some(a) => Some(clone_account(a)),
                            None => None,
                        },
                        _ => {
                            proof {
                                assert(false);
                            }
                            None
                        },
                    };
                    let proof_part = match wproof {
                        WitnessProof::Inclusion { proof } => proof,
                        WitnessProof::Chain { .. } => {
                            return Err(HostError::HeaderMismatch);
                        },
                    };
                    let e = AccountEntry {
                        addr: slice_to_vec(addr.as_slice()),
                        existing,
                        proof: proof_part,
                    };
                    if !check_account_entry(&header.state_root, &e) {
                        return Err(HostError::HeaderMismatch);
                    }
                    let ghost ev = e@;
                    accounts.push(e);
                    proof {
                        assert(accounts.deep_view() =~~= old_adv.push(ev));
                        let addr_v = ev.addr;
                        assert(av[i as int].key == (FactKeyV::Account { addr: addr_v }));
                        assert(ev.existing == acct_of(av[i as int].value));
                        lemma_find_account_exists(old_adv, addr_v);
                        if find_account(old_adv, addr_v) is Some {
                            let l = choose|l: int|
                                0 <= l < old_adv.len() && (#[trigger] old_adv[l]).addr == addr_v;
                            let pre = av.subrange(0, i as int);
                            let w = choose|w: int|
                                0 <= w < pre.len() && (#[trigger] pre[w]).key == (
                                FactKeyV::Account { addr: addr_v });
                            assert(av[w].key == av[i as int].key);
                            assert(false);
                        }
                        lemma_find_account_push(old_adv, ev, addr_v);
                        assert forall|j: int| 0 <= j < i + 1 implies value_found(
                            #[trigger] av[j],
                            accounts.deep_view(),
                            storage.deep_view(),
                            ancestors.deep_view(),
                        ) by {
                            if j < i {
                                assert(value_found(av[j], old_adv, old_sdv, old_ndv));
                                match av[j].key {
                                    FactKeyV::Account { addr: a2 } => {
                                        lemma_find_account_push(old_adv, ev, a2);
                                    },
                                    _ => {},
                                }
                            }
                        }
                        lemma_extend_reverse(
                            av,
                            i as int,
                            accounts.deep_view(),
                            storage.deep_view(),
                            ancestors.deep_view(),
                            old_adv,
                            old_sdv,
                            old_ndv,
                        );
                    }
                },
                FactKey::Storage { addr, slot } => {
                    let value = match &accessed[i].value {
                        FactValue::Storage { value } => slice_to_vec(value.as_slice()),
                        _ => {
                            proof {
                                assert(false);
                            }
                            Vec::new()
                        },
                    };
                    let proof_part = match wproof {
                        WitnessProof::Inclusion { proof } => proof,
                        WitnessProof::Chain { .. } => {
                            return Err(HostError::HeaderMismatch);
                        },
                    };
                    let e = StorageEntry {
                        addr: slice_to_vec(addr.as_slice()),
                        slot: slice_to_vec(slot.as_slice()),
                        value,
                        proof: proof_part,
                    };
                    if !check_storage_entry(&header.state_root, &e) {
                        return Err(HostError::HeaderMismatch);
                    }
                    let ghost ev = e@;
                    storage.push(e);
                    proof {
                        assert(storage.deep_view() =~~= old_sdv.push(ev));
                        assert(av[i as int].key == (FactKeyV::Storage {
                            addr: ev.addr,
                            slot: ev.slot,
                        }));
                        assert(ev.value == sto_of(av[i as int].value));
                        lemma_find_storage_exists(old_sdv, ev.addr, ev.slot);
                        if find_storage(old_sdv, ev.addr, ev.slot) is Some {
                            let l = choose|l: int|
                                0 <= l < old_sdv.len() && (#[trigger] old_sdv[l]).addr == ev.addr
                                    && old_sdv[l].slot == ev.slot;
                            let pre = av.subrange(0, i as int);
                            let w = choose|w: int|
                                0 <= w < pre.len() && (#[trigger] pre[w]).key == (
                                FactKeyV::Storage { addr: ev.addr, slot: ev.slot });
                            assert(av[w].key == av[i as int].key);
                            assert(false);
                        }
                        lemma_find_storage_push(old_sdv, ev, ev.addr, ev.slot);
                        assert forall|j: int| 0 <= j < i + 1 implies value_found(
                            #[trigger] av[j],
                            accounts.deep_view(),
                            storage.deep_view(),
                            ancestors.deep_view(),
                        ) by {
                            if j < i {
                                assert(value_found(av[j], old_adv, old_sdv, old_ndv));
                                match av[j].key {
                                    FactKeyV::Storage { addr: a2, slot: s2 } => {
                                        lemma_find_storage_push(old_sdv, ev, a2, s2);
                                    },
                                    _ => {},
                                }
                            }
                        }
                        lemma_extend_reverse(
                            av,
                            i as int,
                            accounts.deep_view(),
                            storage.deep_view(),
                            ancestors.deep_view(),
                            old_adv,
                            old_sdv,
                            old_ndv,
                        );
                    }
                },
                FactKey::Ancestor { number } => {
                    let hash = match &accessed[i].value {
                        FactValue::Ancestor { hash } => slice_to_vec(hash.as_slice()),
                        _ => {
                            proof {
                                assert(false);
                            }
                            Vec::new()
                        },
                    };
                    let chain_part = match wproof {
                        WitnessProof::Chain { headers } => headers,
                        WitnessProof::Inclusion { .. } => {
                            return Err(HostError::HeaderMismatch);
                        },
                    };
                    let e = AncestorEntry { number: *number, hash, chain: chain_part };
                    if !verify_ancestor(&header, &e) {
                        return Err(HostError::HeaderMismatch);
                    }
                    let ghost ev = e@;
                    ancestors.push(e);
                    proof {
                        assert(ancestors.deep_view() =~~= old_ndv.push(ev));
                        assert(av[i as int].key == (FactKeyV::Ancestor { number: ev.number }));
                        assert(ev.hash == anc_of(av[i as int].value));
                        lemma_find_ancestor_exists(old_ndv, ev.number);
                        if find_ancestor(old_ndv, ev.number) is Some {
                            let l = choose|l: int|
                                0 <= l < old_ndv.len() && (#[trigger] old_ndv[l]).number
                                    == ev.number;
                            let pre = av.subrange(0, i as int);
                            let w = choose|w: int|
                                0 <= w < pre.len() && (#[trigger] pre[w]).key == (
                                FactKeyV::Ancestor { number: ev.number });
                            assert(av[w].key == av[i as int].key);
                            assert(false);
                        }
                        lemma_find_ancestor_push(old_ndv, ev, ev.number);
                        assert forall|j: int| 0 <= j < i + 1 implies value_found(
                            #[trigger] av[j],
                            accounts.deep_view(),
                            storage.deep_view(),
                            ancestors.deep_view(),
                        ) by {
                            if j < i {
                                assert(value_found(av[j], old_adv, old_sdv, old_ndv));
                                match av[j].key {
                                    FactKeyV::Ancestor { number: n2 } => {
                                        lemma_find_ancestor_push(old_ndv, ev, n2);
                                    },
                                    _ => {},
                                }
                            }
                        }
                        lemma_extend_reverse(
                            av,
                            i as int,
                            accounts.deep_view(),
                            storage.deep_view(),
                            ancestors.deep_view(),
                            old_adv,
                            old_sdv,
                            old_ndv,
                        );
                    }
                },
            }
            i = i + 1;
        }
        let sk = StateSketch { header, block_hash, accounts, storage, ancestors };
        proof {
            let skv = sk@;
            assert(av.subrange(0, n as int) =~= av);
            assert(header_ok(skv));
            assert(witnesses_ok(skv));
            assert forall|k: FactKeyV| sketch_model(skv).has_fact(k) == has_key(av, k) by {
                lemma_model_membership(skv, av, k);
            }
            assert forall|k: FactKeyV| has_key(av, k) implies sketch_model(skv).fact_at(k)
                == m.fact_at(k) by {
                let j = choose|j: int| 0 <= j < av.len() && (#[trigger] av[j]).key == k;
                assert(value_found(av[j], skv.accounts, skv.storage, skv.ancestors));
                assert(av[j].value == m.fact_at(k));
                match k {
                    FactKeyV::Account { addr } => {
                        assert(sketch_model(skv).accounts.contains_key(addr));
                        assert(sketch_model(skv).accounts[addr] == acct_of(m.fact_at(k)));
                    },
                    FactKeyV::Storage { addr, slot } => {
                        assert(sketch_model(skv).storage.contains_key((addr, slot)));
                        assert(sketch_model(skv).storage[(addr, slot)] == sto_of(m.fact_at(k)));
                    },
                    FactKeyV::Ancestor { number } => {
                        assert(sketch_model(skv).ancestors.contains_key(number));
                        assert(sketch_model(skv).ancestors[number] == anc_of(m.fact_at(k)));
                    },
                }
            }
            let rdv = records.deep_view();
            assert forall|i2: int| 0 <= i2 < rdv.len() implies spec_run(
                sketch_model(skv),
                (#[trigger] rdv[i2]).input,
            ) == (RunOutcome::Output { bytes: rdv[i2].output }) by {
                let inp = rdv[i2].input;
                match spec_parse(inp.target, inp.data) {
                    ParseOutcome::Wanted { key } => {
                        assert(has_key(av, key));
                        assert(sketch_model(skv).has_fact(key));
                        assert(sketch_model(skv).fact_at(key) == m.fact_at(key));
                        assert(m.has_fact(key));
                    },
                    ParseOutcome::Malformed { .. } => {
                        assert(false);
                    },
                }
            }
        }
        Ok((sk, records))
    }
}

/// Each built witness entry names an accessed key; pushing the entry
/// for access `i` keeps that true over the prefix one longer.
proof fn lemma_extend_reverse(
    av: Seq<AccessEntryV>,
    i: int,
    adv: Seq<AccountEntryV>,
    sdv: Seq<StorageEntryV>,
    ndv: Seq<AncestorEntryV>,
    old_adv: Seq<AccountEntryV>,
    old_sdv: Seq<StorageEntryV>,
    old_ndv: Seq<AncestorEntryV>,
)
    requires
        0 <= i < av.len(),
        forall|l: int| 0 <= l < adv.len() ==> (l < old_adv.len() && adv[l] == old_adv[l])
            || av[i].key == (FactKeyV::Account { addr: (#[trigger] adv[l]).addr }),
        forall|l: int| 0 <= l < sdv.len() ==> (l < old_sdv.len() && sdv[l] == old_sdv[l])
            || av[i].key == (FactKeyV::Storage {
            addr: (#[trigger] sdv[l]).addr,
            slot: sdv[l].slot,
        }),
        forall|l: int| 0 <= l < ndv.len() ==> (l < old_ndv.len() && ndv[l] == old_ndv[l])
            || av[i].key == (FactKeyV::Ancestor { number: (#[trigger] ndv[l]).number }),
        forall|l: int| 0 <= l < old_adv.len() ==> has_key(
            av.subrange(0, i),
            FactKeyV::Account { addr: (#[trigger] old_adv[l]).addr },
        ),
        forall|l: int| 0 <= l < old_sdv.len() ==> has_key(
            av.subrange(0, i),
            FactKeyV::Storage {
                addr: (#[trigger] old_sdv[l]).addr,
                slot: old_sdv[l].slot,
            },
        ),
        forall|l: int| 0 <= l < old_ndv.len() ==> has_key(
            av.subrange(0, i),
            FactKeyV::Ancestor { number: (#[trigger] old_ndv[l]).number },
        ),
        av[i].key.wf(),
    ensures
        forall|l: int| 0 <= l < adv.len() ==> has_key(
            av.subrange(0, i + 1),
            FactKeyV::Account { addr: (#[trigger] adv[l]).addr },
        ),
        forall|l: int| 0 <= l < sdv.len() ==> has_key(
            av.subrange(0, i + 1),
            FactKeyV::Storage {
                addr: (#[trigger] sdv[l]).addr,
                slot: sdv[l].slot,
            },
        ),
        forall|l: int| 0 <= l < ndv.len() ==> has_key(
            av.subrange(0, i + 1),
            FactKeyV::Ancestor { number: (#[trigger] ndv[l]).number },
        ),
{
    assert forall|l: int| 0 <= l < adv.len() implies has_key(
        av.subrange(0, i + 1),
        FactKeyV::Account { addr: (#[trigger] adv[l]).addr },
    ) by {
        if l < old_adv.len() && adv[l] == old_adv[l] {
            let k = FactKeyV::Account { addr: old_adv[l].addr };
            let pre = av.subrange(0, i);
            let w = choose|w: int| 0 <= w < pre.len() && (#[trigger] pre[w]).key == k;
            assert(av.subrange(0, i + 1)[w].key == k);
        } else {
            assert(av.subrange(0, i + 1)[i].key == (FactKeyV::Account { addr: adv[l].addr }));
        }
    }
    assert forall|l: int| 0 <= l < sdv.len() implies has_key(
        av.subrange(0, i + 1),
        FactKeyV::Storage { addr: (#[trigger] sdv[l]).addr, slot: sdv[l].slot },
    ) by {
        if l < old_sdv.len() && sdv[l] == old_sdv[l] {
            let k = FactKeyV::Storage { addr: old_sdv[l].addr, slot: old_sdv[l].slot };
            let pre = av.subrange(0, i);
            let w = choose|w: int| 0 <= w < pre.len() && (#[trigger] pre[w]).key == k;
            assert(av.subrange(0, i + 1)[w].key == k);
        } else {
            assert(av.subrange(0, i + 1)[i].key == (FactKeyV::Storage {
                addr: sdv[l].addr,
                slot: sdv[l].slot,
            }));
        }
    }
    assert forall|l: int| 0 <= l < ndv.len() implies has_key(
        av.subrange(0, i + 1),
        FactKeyV::Ancestor { number: (#[trigger] ndv[l]).number },
    ) by {
        if l < old_ndv.len() && ndv[l] == old_ndv[l] {
            let k = FactKeyV::Ancestor { number: old_ndv[l].number };
            let pre = av.subrange(0, i);
            let w = choose|w: int| 0 <= w < pre.len() && (#[trigger] pre[w]).key == k;
            assert(av.subrange(0, i + 1)[w].key == k);
        } else {
            assert(av.subrange(0, i + 1)[i].key == (FactKeyV::Ancestor { number: ndv[l].number }));
        }
    }
}

/// One key appears among the sketch's witnesses exactly when it was
/// accessed: membership in the sketch model coincides with the
/// recorded set.
proof fn lemma_model_membership(s: crate::sketch::StateSketchV, av: Seq<AccessEntryV>, k: FactKeyV)
    requires
        forall|j: int| 0 <= j < av.len() ==> value_found(
            #[trigger] av[j],
            s.accounts,
            s.storage,
            s.ancestors,
        ),
        forall|l: int| 0 <= l < s.accounts.len() ==> has_key(
            av,
            FactKeyV::Account { addr: (#[trigger] s.accounts[l]).addr },
        ),
        forall|l: int| 0 <= l < s.storage.len() ==> has_key(
            av,
            FactKeyV::Storage { addr: (#[trigger] s.storage[l]).addr, slot: s.storage[l].slot },
        ),
        forall|l: int| 0 <= l < s.ancestors.len() ==> has_key(
            av,
            FactKeyV::Ancestor { number: (#[trigger] s.ancestors[l]).number },
        ),
    ensures
        sketch_model(s).has_fact(k) == has_key(av, k),
{
    let adv = s.accounts;
    let sdv = s.storage;
    let ndv = s.ancestors;
    let model = sketch_model(s);
    match k {
        FactKeyV::Account { addr } => {
            lemma_find_account_exists(adv, addr);
            if has_key(av, k) {
                let j = choose|j: int| 0 <= j < av.len() && (#[trigger] av[j]).key == k;
                assert(value_found(av[j], adv, sdv, ndv));
                assert(model.accounts.contains_key(addr));
            } else if find_account(adv, addr) is Some {
                let l = choose|l: int| 0 <= l < adv.len() && (#[trigger] adv[l]).addr == addr;
                assert(has_key(av, FactKeyV::Account { addr: adv[l].addr }));
                assert(false);
            }
        },
        FactKeyV::Storage { addr, slot } => {
            lemma_find_storage_exists(sdv, addr, slot);
            if has_key(av, k) {
                let j = choose|j: int| 0 <= j < av.len() && (#[trigger] av[j]).key == k;
                assert(value_found(av[j], adv, sdv, ndv));
                assert(model.storage.contains_key((addr, slot)));
            } else if find_storage(sdv, addr, slot) is Some {
                let l = choose|l: int|
                    0 <= l < sdv.len() && (#[trigger] sdv[l]).addr == addr && sdv[l].slot == slot;
                assert(has_key(av, FactKeyV::Storage { addr: sdv[l].addr, slot: sdv[l].slot }));
                assert(false);
            }
        },
        FactKeyV::Ancestor { number } => {
            lemma_find_ancestor_exists(ndv, number);
            if has_key(av, k) {
                let j = choose|j: int| 0 <= j < av.len() && (#[trigger] av[j]).key == k;
                assert(value_found(av[j], adv, sdv, ndv));
                assert(model.ancestors.contains_key(number));
            } else if find_ancestor(ndv, number) is Some {
                let l = choose|l: int| 0 <= l < ndv.len() && (#[trigger] ndv[l]).number == number;
                assert(has_key(av, FactKeyV::Ancestor { number: ndv[l].number }));
                assert(false);
            }
        },
    }
}

/// End to end: a sketch finalized from a host session replays, on the
/// client side, to exactly the session's records, and commits to their
/// canonical encoding over the sketch's block hash.
pub proof fn lemma_host_client_end_to_end(s: crate::sketch::StateSketchV, records: Seq<CallRecordV>)
    requires
        sketch_valid(s),
        forall|i: int| 0 <= i < records.len() ==> spec_run(
            sketch_model(s),
            (#[trigger] records[i]).input,
        ) == (RunOutcome::Output { bytes: records[i].output }),
    ensures
        crate::client::spec_session(s, records.map_values(|r: CallRecordV| r.input))
            == (crate::client::SessionOutcome::Committed {
            bytes: crate::commit::spec_commitment(s.block_hash, records),
        }),
{
    crate::client::lemma_replay_matches_records(sketch_model(s), records);
}

/// Whether a key is already among the recorded accesses.
fn find_access(accessed: &Vec<AccessEntry>, key: &FactKey) -> (r: bool)
    ensures
        r == has_key(accessed.deep_view(), key@),
{
    let ghost av = accessed.deep_view();
    let n = accessed.len();
    let mut i: usize = 0;
    while i < n
        invariant
            i <= n,
            n == accessed@.len(),
            av == accessed.deep_view(),
            av.len() == n,
            forall|j: int| 0 <= j < i ==> (#[trigger] av[j]).key != key@,
        decreases n - i,
    {
        proof {
            assert(accessed@[i as int]@ == av[i as int]);
        }
        if accessed[i].key.key_eq(key) {
            proof {
                assert(av[i as int].key == key@);
            }
            return true;
        }
        i = i + 1;
    }
    proof {
        assert(!has_key(av, key@));
    }
    false
}

} // verus!
