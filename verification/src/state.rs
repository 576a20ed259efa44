use vstd::prelude::*;
use crate::types::{AccountData, AccountDataV, FactKey, FactKeyV, FactValueV, ADDRESS_BYTES, WORD_BYTES};
use crate::accumulator::InclusionProof;

verus! {

/// The view of an optional account value.
pub open spec fn opt_account_view(o: Option<AccountData>) -> Option<AccountDataV> {
    match o {
        Some(a) => Some(a@),
        None => None,
    }
}

/// The ghost model of a state view: the facts a backend can answer.
/// An address absent from `accounts` is a fact the backend does not
/// hold; an address mapped to `None` is an account proven absent.
#[verifier::ext_equal]
pub struct StateModel {
    pub accounts: Map<Seq<u8>, Option<AccountDataV>>,
    pub storage: Map<(Seq<u8>, Seq<u8>), Seq<u8>>,
    pub ancestors: Map<u64, Seq<u8>>,
}

impl StateModel {
    pub open spec fn has_fact(self, k: FactKeyV) -> bool {
        match k {
            FactKeyV::Account { addr } => self.accounts.contains_key(addr),
            FactKeyV::Storage { addr, slot } => self.storage.contains_key((addr, slot)),
            FactKeyV::Ancestor { number } => self.ancestors.contains_key(number),
        }
    }

    pub open spec fn fact_at(self, k: FactKeyV) -> FactValueV
        recommends
            self.has_fact(k),
    {
        match k {
            FactKeyV::Account { addr } => FactValueV::Account { existing: self.accounts[addr] },
            FactKeyV::Storage { addr, slot } => FactValueV::Storage {
                value: self.storage[(addr, slot)],
            },
            FactKeyV::Ancestor { number } => FactValueV::Ancestor {
                hash: self.ancestors[number],
            },
        }
    }

    /// The same state with one fact forgotten.
    pub open spec fn remove_fact(self, k: FactKeyV) -> StateModel {
        match k {
            FactKeyV::Account { addr } => StateModel {
                accounts: self.accounts.remove(addr),
                ..self
            },
            FactKeyV::Storage { addr, slot } => StateModel {
                storage: self.storage.remove((addr, slot)),
                ..self
            },
            FactKeyV::Ancestor { number } => StateModel {
                ancestors: self.ancestors.remove(number),
                ..self
            },
        }
    }
}

/// Why a state view could not answer a read.
pub enum FetchError {
    /// The backend holds no fact under this key.
    MissingFact,
    /// The backend could not be reached; transient, outside core.
    Network,
}

/// The proof material a provider hands out for one recorded fact.
pub enum WitnessProof {
    /// An accumulator inclusion proof, for account and storage facts.
    Inclusion { proof: InclusionProof },
    /// A chain of encoded headers walking back from the pinned block,
    /// for ancestor-hash facts.
    Chain { headers: Vec<Vec<u8>> },
}

/// A pluggable state view. One call-execution routine runs against any
/// implementation; the live network backend and the verified sketch
/// backend differ only in how they answer these reads.
pub trait StateProvider: Sized {
    /// The facts this view holds, as a ghost state model.
    spec fn model(&self) -> StateModel;

    /// Whether the view is in a state fit for answering reads.
    spec fn ready(&self) -> bool;

    /// Reads one account's fields, or its proven absence.
    fn fetch_account(&self, addr: &Vec<u8>) -> (r: Result<Option<AccountData>, FetchError>)
        requires
            self.ready(),
            addr@.len() == ADDRESS_BYTES,
        ensures
            (r matches Ok(a) ==> self.model().accounts.contains_key(addr@) && opt_account_view(a)
                == self.model().accounts[addr@]),
            (r matches Err(e) && e is MissingFact ==> !self.model().accounts.contains_key(addr@)),
    ;

    /// Reads one storage slot of one account.
    fn fetch_storage(&self, addr: &Vec<u8>, slot: &Vec<u8>) -> (r: Result<Vec<u8>, FetchError>)
        requires
            self.ready(),
            addr@.len() == ADDRESS_BYTES,
            slot@.len() == WORD_BYTES,
        ensures
            (r matches Ok(v) ==> self.model().storage.contains_key((addr@, slot@)) && v@
                == self.model().storage[(addr@, slot@)]),
            (r matches Err(e) && e is MissingFact ==> !self.model().storage.contains_key(
                (addr@, slot@),
            )),
    ;

    /// Reads the hash of an ancestor block by its number.
    fn fetch_ancestor_hash(&self, number: u64) -> (r: Result<Vec<u8>, FetchError>)
        requires
            self.ready(),
        ensures
            (r matches Ok(h) ==> self.model().ancestors.contains_key(number) && h@
                == self.model().ancestors[number]),
            (r matches Err(e) && e is MissingFact ==> !self.model().ancestors.contains_key(number)),
    ;

    /// Fetches the proof material for one recorded fact. The session
    /// verifies whatever comes back; nothing is promised of it here.
    fn fetch_proof(&self, key: &FactKey) -> (r: Result<WitnessProof, FetchError>)
        requires
            self.ready(),
            key@.wf(),
    ;
}

} // verus!
