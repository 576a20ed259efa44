use vstd::prelude::*;
use vstd::slice::slice_to_vec;
use crate::types::{AccountData, FactKey, FactKeyV, FactValue, bytes_eq};
use crate::state::{FetchError, StateModel, StateProvider, WitnessProof};
use crate::sketch::{find_account, find_ancestor, find_storage, lemma_find_account_exists, lemma_find_ancestor_exists, lemma_find_storage_exists, sketch_model, StateSketch};
use crate::accumulator::InclusionProof;

verus! {

/// A state view answered from a fact table held in memory, with proof
/// material beside each fact: a local backend standing where a live
/// chain provider would.
pub struct MemoryProvider {
    pub table: StateSketch,
}

fn clone_byte_vecs(v: &Vec<Vec<u8>>) -> (r: Vec<Vec<u8>>)
    ensures
        r.deep_view() == v.deep_view(),
{
    let mut out: Vec<Vec<u8>> = Vec::new();
    let n = v.len();
    let mut i: usize = 0;
    while i < n
        invariant
            i <= n,
            n == v@.len(),
            out@.len() == i,
            forall|j: int| 0 <= j < i ==> (#[trigger] out@[j])@ == v@[j]@,
        decreases n - i,
    {
        out.push(slice_to_vec(v[i].as_slice()));
        i = i + 1;
    }
    proof {
        assert(out.deep_view() =~~= v.deep_view());
    }
    out
}

fn clone_proof(p: &InclusionProof) -> (r: InclusionProof)
    ensures
        r@ == p@,
{
    let r = InclusionProof {
        prefix: slice_to_vec(p.prefix.as_slice()),
        suffix: clone_byte_vecs(&p.suffix),
    };
    proof {
        assert(r@ =~~= p@);
    }
    r
}

impl StateProvider for MemoryProvider {
    open spec fn model(&self) -> StateModel {
        sketch_model(self.table@)
    }

    open spec fn ready(&self) -> bool {
        true
    }

    fn fetch_account(&self, addr: &Vec<u8>) -> (r: Result<Option<AccountData>, FetchError>)
        ensures
            (r is Ok) == self.model().accounts.contains_key(addr@),
            (r matches Err(e) ==> e is MissingFact),
    {
        let key = FactKey::Account { addr: slice_to_vec(addr.as_slice()) };
        match self.table.lookup(&key) {
            Some(v) => match v {
                FactValue::Account { existing } => Ok(existing),
                _ => {
                    proof {
                        assert(false);
                    }
                    Err(FetchError::Network)
                },
            },
            None => Err(FetchError::MissingFact),
        }
    }

    fn fetch_storage(&self, addr: &Vec<u8>, slot: &Vec<u8>) -> (r: Result<Vec<u8>, FetchError>)
        ensures
            (r is Ok) == self.model().storage.contains_key((addr@, slot@)),
            (r matches Err(e) ==> e is MissingFact),
    {
        let key = FactKey::Storage {
            addr: slice_to_vec(addr.as_slice()),
            slot: slice_to_vec(slot.as_slice()),
        };
        match self.table.lookup(&key) {
            Some(v) => match v {
                FactValue::Storage { value } => Ok(value),
                _ => {
                    proof {
                        assert(false);
                    }
                    Err(FetchError::Network)
                },
            },
            None => Err(FetchError::MissingFact),
        }
    }

    fn fetch_ancestor_hash(&self, number: u64) -> (r: Result<Vec<u8>, FetchError>)
        ensures
            (r is Ok) == self.model().ancestors.contains_key(number),
            (r matches Err(e) ==> e is MissingFact),
    {
        let key = FactKey::Ancestor { number };
        match self.table.lookup(&key) {
            Some(v) => match v {
                FactValue::Ancestor { hash } => Ok(hash),
                _ => {
                    proof {
                        assert(false);
                    }
                    Err(FetchError::Network)
                },
            },
            None => Err(FetchError::MissingFact),
        }
    }

    fn fetch_proof(&self, key: &FactKey) -> (r: Result<WitnessProof, FetchError>)
        ensures
            (r is Ok) == self.model().has_fact(key@),
            (r matches Err(e) ==> e is MissingFact),
    {
        match key {
            FactKey::Account { addr } => {
                let ghost entries = self.table@.accounts;
                let n = self.table.accounts.len();
                let mut i: usize = 0;
                while i < n
                    invariant
                        i <= n,
                        n == self.table.accounts@.len(),
                        entries == self.table@.accounts,
                        entries.len() == n,
                        key@ == (FactKeyV::Account { addr: addr@ }),
                        forall|j: int| 0 <= j < i ==> (#[trigger] entries[j]).addr != addr@,
                    decreases n - i,
                {
                    proof {
                        assert(self.table.accounts@[i as int]@ == entries[i as int]);
                    }
                    if bytes_eq(&self.table.accounts[i].addr, addr) {
                        proof {
                            assert(entries[i as int].addr == addr@);
                            lemma_find_account_exists(entries, addr@);
                            assert(self.model().accounts.contains_key(addr@));
                        }
                        return Ok(
                            WitnessProof::Inclusion {
                                proof: clone_proof(&self.table.accounts[i].proof),
                            },
                        );
                    }
                    i = i + 1;
                }
                proof {
                    lemma_find_account_exists(entries, addr@);
                    assert(!self.model().accounts.contains_key(addr@));
                }
                Err(FetchError::MissingFact)
            },
            FactKey::Storage { addr, slot } => {
                let ghost entries = self.table@.storage;
                let n = self.table.storage.len();
                let mut i: usize = 0;
                while i < n
                    invariant
                        i <= n,
                        n == self.table.storage@.len(),
                        entries == self.table@.storage,
                        entries.len() == n,
                        key@ == (FactKeyV::Storage { addr: addr@, slot: slot@ }),
                        forall|j: int| 0 <= j < i ==> !((#[trigger] entries[j]).addr == addr@
                            && entries[j].slot == slot@),
                    decreases n - i,
                {
                    proof {
                        assert(self.table.storage@[i as int]@ == entries[i as int]);
                    }
                    if bytes_eq(&self.table.storage[i].addr, addr) && bytes_eq(
                        &self.table.storage[i].slot,
                        slot,
                    ) {
                        proof {
                            assert(entries[i as int].addr == addr@ && entries[i as int].slot
                                == slot@);
                            lemma_find_storage_exists(entries, addr@, slot@);
                            assert(self.model().storage.contains_key((addr@, slot@)));
                        }
                        return Ok(
                            WitnessProof::Inclusion {
                                proof: clone_proof(&self.table.storage[i].proof),
                            },
                        );
                    }
                    i = i + 1;
                }
                proof {
                    lemma_find_storage_exists(entries, addr@, slot@);
                    assert(!self.model().storage.contains_key((addr@, slot@)));
                }
                Err(FetchError::MissingFact)
            },
            FactKey::Ancestor { number } => {
                let ghost entries = self.table@.ancestors;
                let n = self.table.ancestors.len();
                let mut i: usize = 0;
                while i < n
                    invariant
                        i <= n,
                        n == self.table.ancestors@.len(),
                        entries == self.table@.ancestors,
                        entries.len() == n,
                        key@ == (FactKeyV::Ancestor { number: *number }),
                        forall|j: int| 0 <= j < i ==> (#[trigger] entries[j]).number != *number,
                    decreases n - i,
                {
                    proof {
                        assert(self.table.ancestors@[i as int]@ == entries[i as int]);
                    }
                    if self.table.ancestors[i].number == *number {
                        proof {
                            assert(entries[i as int].number == *number);
                            lemma_find_ancestor_exists(entries, *number);
                            assert(self.model().ancestors.contains_key(*number));
                        }
                        return Ok(
                            WitnessProof::Chain {
                                headers: clone_byte_vecs(&self.table.ancestors[i].chain),
                            },
                        );
                    }
                    i = i + 1;
                }
                proof {
                    lemma_find_ancestor_exists(entries, *number);
                    assert(!self.model().ancestors.contains_key(*number));
                }
                Err(FetchError::MissingFact)
            },
        }
    }
}

} // verus!
