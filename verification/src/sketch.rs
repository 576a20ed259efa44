use vstd::prelude::*;
use vstd::slice::slice_to_vec;
use crate::types::{AccountData, AccountDataV, BlockHeader, BlockHeaderV, FactKey, FactValue, FactKeyV, FactValueV, bytes_eq, ADDRESS_BYTES, WORD_BYTES};
use crate::hash::{keccak, keccak_of};
use crate::encode::{enc_header, enc_u64, dec_header, put_raw, put_u64};
use crate::accumulator::{InclusionProof, InclusionProofV, proof_checks, verify_inclusion};
use crate::state::{opt_account_view, StateModel};

verus! {

/// The witness for one account: its fields, or its proven absence,
/// with the inclusion proof tying the fact to the state root.
pub struct AccountEntry {
    pub addr: Vec<u8>,
    pub existing: Option<AccountData>,
    pub proof: InclusionProof,
}

#[verifier::ext_equal]
pub struct AccountEntryV {
    pub addr: Seq<u8>,
    pub existing: Option<AccountDataV>,
    pub proof: InclusionProofV,
}

impl View for AccountEntry {
    type V = AccountEntryV;

    open spec fn view(&self) -> AccountEntryV {
        AccountEntryV {
            addr: self.addr@,
            existing: opt_account_view(self.existing),
            proof: self.proof@,
        }
    }
}

impl DeepView for AccountEntry {
    type V = AccountEntryV;

    open spec fn deep_view(&self) -> AccountEntryV {
        self@
    }
}

/// The witness for one storage slot value.
pub struct StorageEntry {
    pub addr: Vec<u8>,
    pub slot: Vec<u8>,
    pub value: Vec<u8>,
    pub proof: InclusionProof,
}

#[verifier::ext_equal]
pub struct StorageEntryV {
    pub addr: Seq<u8>,
    pub slot: Seq<u8>,
    pub value: Seq<u8>,
    pub proof: InclusionProofV,
}

impl View for StorageEntry {
    type V = StorageEntryV;

    open spec fn view(&self) -> StorageEntryV {
        StorageEntryV {
            addr: self.addr@,
            slot: self.slot@,
            value: self.value@,
            proof: self.proof@,
        }
    }
}

impl DeepView for StorageEntry {
    type V = StorageEntryV;

    open spec fn deep_view(&self) -> StorageEntryV {
        self@
    }
}

/// The witness for one ancestor block hash: proved by a chain of
/// encoded headers walking back from the pinned block.
pub struct AncestorEntry {
    pub number: u64,
    pub hash: Vec<u8>,
    pub chain: Vec<Vec<u8>>,
}

#[verifier::ext_equal]
pub struct AncestorEntryV {
    pub number: u64,
    pub hash: Seq<u8>,
    pub chain: Seq<Seq<u8>>,
}

impl View for AncestorEntry {
    type V = AncestorEntryV;

    open spec fn view(&self) -> AncestorEntryV {
        AncestorEntryV { number: self.number, hash: self.hash@, chain: self.chain.deep_view() }
    }
}

impl DeepView for AncestorEntry {
    type V = AncestorEntryV;

    open spec fn deep_view(&self) -> AncestorEntryV {
        self@
    }
}

/// A self-contained snapshot of exactly the state facts a call
/// sequence reads, with one witness per fact. Frozen at finalize;
/// the client treats it as read-only input.
pub struct StateSketch {
    pub header: BlockHeader,
    pub block_hash: Vec<u8>,
    pub accounts: Vec<AccountEntry>,
    pub storage: Vec<StorageEntry>,
    pub ancestors: Vec<AncestorEntry>,
}

#[verifier::ext_equal]
pub struct StateSketchV {
    pub header: BlockHeaderV,
    pub block_hash: Seq<u8>,
    pub accounts: Seq<AccountEntryV>,
    pub storage: Seq<StorageEntryV>,
    pub ancestors: Seq<AncestorEntryV>,
}

impl View for StateSketch {
    type V = StateSketchV;

    open spec fn view(&self) -> StateSketchV {
        StateSketchV {
            header: self.header@,
            block_hash: self.block_hash@,
            accounts: self.accounts.deep_view(),
            storage: self.storage.deep_view(),
            ancestors: self.ancestors.deep_view(),
        }
    }
}

/// The accumulator leaf that encodes one account fact.
pub open spec fn account_leaf(addr: Seq<u8>, existing: Option<AccountDataV>) -> Seq<u8> {
    seq![1u8] + addr + match existing {
        Some(a) => seq![1u8] + a.balance + enc_u64(a.nonce) + a.code_hash + a.storage_root,
        None => seq![0u8],
    }
}

/// The accumulator leaf that encodes one storage fact.
pub open spec fn storage_leaf(addr: Seq<u8>, slot: Seq<u8>, value: Seq<u8>) -> Seq<u8> {
    seq![2u8] + addr + slot + value
}

/// Builds the accumulator leaf for one account fact.
pub fn make_account_leaf(addr: &Vec<u8>, existing: &Option<AccountData>) -> (out: Vec<u8>)
    ensures
        out@ == account_leaf(addr@, opt_account_view(*existing)),
{
    let mut out: Vec<u8> = Vec::new();
    out.push(1u8);
    put_raw(&mut out, addr);
    match existing {
        Some(a) => {
            out.push(1u8);
            put_raw(&mut out, &a.balance);
            put_u64(&mut out, a.nonce);
            put_raw(&mut out, &a.code_hash);
            put_raw(&mut out, &a.storage_root);
        },
        None => {
            out.push(0u8);
        },
    }
    proof {
        assert(out@ =~= account_leaf(addr@, opt_account_view(*existing)));
    }
    out
}

/// Builds the accumulator leaf for one storage fact.
pub fn make_storage_leaf(addr: &Vec<u8>, slot: &Vec<u8>, value: &Vec<u8>) -> (out: Vec<u8>)
    ensures
        out@ == storage_leaf(addr@, slot@, value@),
{
    let mut out: Vec<u8> = Vec::new();
    out.push(2u8);
    put_raw(&mut out, addr);
    put_raw(&mut out, slot);
    put_raw(&mut out, value);
    proof {
        assert(out@ =~= storage_leaf(addr@, slot@, value@));
    }
    out
}

/// The embedded header hashes to the claimed block hash.
pub open spec fn header_ok(s: StateSketchV) -> bool {
    &&& s.header.wf()
    &&& s.block_hash.len() == WORD_BYTES
    &&& s.block_hash == keccak_of(enc_header(s.header))
}

pub open spec fn account_entry_ok(root: Seq<u8>, e: AccountEntryV) -> bool {
    &&& e.addr.len() == ADDRESS_BYTES
    &&& (e.existing matches Some(a) ==> a.wf())
    &&& proof_checks(root, account_leaf(e.addr, e.existing), e.proof)
}

pub open spec fn storage_entry_ok(root: Seq<u8>, e: StorageEntryV) -> bool {
    &&& e.addr.len() == ADDRESS_BYTES
    &&& e.slot.len() == WORD_BYTES
    &&& e.value.len() == WORD_BYTES
    &&& proof_checks(root, storage_leaf(e.addr, e.slot, e.value), e.proof)
}

/// Walks a chain of encoded headers: `parent` is the hash of the block
/// before `number`; the chain must reach the target ancestor.
pub open spec fn chain_ok(
    parent: Seq<u8>,
    number: u64,
    target_number: u64,
    target_hash: Seq<u8>,
    chain: Seq<Seq<u8>>,
) -> bool
    decreases chain.len(),
{
    if chain.len() == 0 {
        number == target_number + 1 && parent == target_hash
    } else {
        match dec_header(chain[0]) {
            Some(h) => {
                &&& keccak_of(chain[0]) == parent
                &&& h.number + 1 == number
                &&& chain_ok(h.parent_hash, h.number, target_number, target_hash, chain.drop_first())
            },
            None => false,
        }
    }
}

pub open spec fn ancestor_entry_ok(pinned: BlockHeaderV, e: AncestorEntryV) -> bool {
    &&& e.hash.len() == WORD_BYTES
    &&& chain_ok(pinned.parent_hash, pinned.number, e.number, e.hash, e.chain)
}

/// Every witness of the sketch verifies against the root it claims.
pub open spec fn witnesses_ok(s: StateSketchV) -> bool {
    &&& forall|i: int| 0 <= i < s.accounts.len() ==> account_entry_ok(
        s.header.state_root,
        #[trigger] s.accounts[i],
    )
    &&& forall|i: int| 0 <= i < s.storage.len() ==> storage_entry_ok(
        s.header.state_root,
        #[trigger] s.storage[i],
    )
    &&& forall|i: int| 0 <= i < s.ancestors.len() ==> ancestor_entry_ok(
        s.header,
        #[trigger] s.ancestors[i],
    )
}

/// A sketch whose header and every witness check out.
pub open spec fn sketch_valid(s: StateSketchV) -> bool {
    header_ok(s) && witnesses_ok(s)
}

pub open spec fn find_account(s: Seq<AccountEntryV>, addr: Seq<u8>) -> Option<Option<AccountDataV>>
    decreases s.len(),
{
    if s.len() == 0 {
        None
    } else if s[0].addr == addr {
        Some(s[0].existing)
    } else {
        find_account(s.drop_first(), addr)
    }
}

pub open spec fn find_storage(s: Seq<StorageEntryV>, addr: Seq<u8>, slot: Seq<u8>) -> Option<
    Seq<u8>,
>
    decreases s.len(),
{
    if s.len() == 0 {
        None
    } else if s[0].addr == addr && s[0].slot == slot {
        Some(s[0].value)
    } else {
        find_storage(s.drop_first(), addr, slot)
    }
}

pub open spec fn find_ancestor(s: Seq<AncestorEntryV>, number: u64) -> Option<Seq<u8>>
    decreases s.len(),
{
    if s.len() == 0 {
        None
    } else if s[0].number == number {
        Some(s[0].hash)
    } else {
        find_ancestor(s.drop_first(), number)
    }
}

pub proof fn lemma_find_account_push(s: Seq<AccountEntryV>, e: AccountEntryV, a: Seq<u8>)
    ensures
        find_account(s.push(e), a) == if find_account(s, a) is Some {
            find_account(s, a)
        } else if e.addr == a {
            Some(e.existing)
        } else {
            None
        },
    decreases s.len(),
{
    if s.len() == 0 {
        assert(s.push(e)[0] == e);
        assert(s.push(e).drop_first() =~= Seq::<AccountEntryV>::empty());
        assert(find_account(Seq::<AccountEntryV>::empty(), a) is None);
    } else {
        assert(s.push(e)[0] == s[0]);
        assert(s.push(e).drop_first() =~= s.drop_first().push(e));
        lemma_find_account_push(s.drop_first(), e, a);
    }
}

pub proof fn lemma_find_storage_push(
    s: Seq<StorageEntryV>,
    e: StorageEntryV,
    a: Seq<u8>,
    sl: Seq<u8>,
)
    ensures
        find_storage(s.push(e), a, sl) == if find_storage(s, a, sl) is Some {
            find_storage(s, a, sl)
        } else if e.addr == a && e.slot == sl {
            Some(e.value)
        } else {
            None
        },
    decreases s.len(),
{
    if s.len() == 0 {
        assert(s.push(e)[0] == e);
        assert(s.push(e).drop_first() =~= Seq::<StorageEntryV>::empty());
        assert(find_storage(Seq::<StorageEntryV>::empty(), a, sl) is None);
    } else {
        assert(s.push(e)[0] == s[0]);
        assert(s.push(e).drop_first() =~= s.drop_first().push(e));
        lemma_find_storage_push(s.drop_first(), e, a, sl);
    }
}

pub proof fn lemma_find_ancestor_push(s: Seq<AncestorEntryV>, e: AncestorEntryV, n: u64)
    ensures
        find_ancestor(s.push(e), n) == if find_ancestor(s, n) is Some {
            find_ancestor(s, n)
        } else if e.number == n {
            Some(e.hash)
        } else {
            None
        },
    decreases s.len(),
{
    if s.len() == 0 {
        assert(s.push(e)[0] == e);
        assert(s.push(e).drop_first() =~= Seq::<AncestorEntryV>::empty());
        assert(find_ancestor(Seq::<AncestorEntryV>::empty(), n) is None);
    } else {
        assert(s.push(e)[0] == s[0]);
        assert(s.push(e).drop_first() =~= s.drop_first().push(e));
        lemma_find_ancestor_push(s.drop_first(), e, n);
    }
}

pub proof fn lemma_find_account_exists(s: Seq<AccountEntryV>, a: Seq<u8>)
    ensures
        (find_account(s, a) is Some) == (exists|i: int|
            0 <= i < s.len() && (#[trigger] s[i]).addr == a),
    decreases s.len(),
{
    if s.len() == 0 {
    } else if s[0].addr == a {
        assert(s[0].addr == a);
    } else {
        lemma_find_account_exists(s.drop_first(), a);
        if find_account(s, a) is Some {
            let w = choose|i: int| 0 <= i < s.drop_first().len() && (
            #[trigger] s.drop_first()[i]).addr == a;
            assert(s[w + 1].addr == a);
        } else {
            if exists|i: int| 0 <= i < s.len() && (#[trigger] s[i]).addr == a {
                let w = choose|i: int| 0 <= i < s.len() && (#[trigger] s[i]).addr == a;
                assert(s.drop_first()[w - 1].addr == a);
            }
        }
    }
}

pub proof fn lemma_find_storage_exists(s: Seq<StorageEntryV>, a: Seq<u8>, sl: Seq<u8>)
    ensures
        (find_storage(s, a, sl) is Some) == (exists|i: int|
            0 <= i < s.len() && (#[trigger] s[i]).addr == a && s[i].slot == sl),
    decreases s.len(),
{
    if s.len() == 0 {
    } else if s[0].addr == a && s[0].slot == sl {
        assert(s[0].addr == a && s[0].slot == sl);
    } else {
        lemma_find_storage_exists(s.drop_first(), a, sl);
        if find_storage(s, a, sl) is Some {
            let w = choose|i: int| 0 <= i < s.drop_first().len() && (
            #[trigger] s.drop_first()[i]).addr == a && s.drop_first()[i].slot == sl;
            assert(s[w + 1].addr == a && s[w + 1].slot == sl);
        } else {
            if exists|i: int| 0 <= i < s.len() && (#[trigger] s[i]).addr == a && s[i].slot == sl {
                let w = choose|i: int| 0 <= i < s.len() && (#[trigger] s[i]).addr == a && s[i].slot
                    == sl;
                assert(s.drop_first()[w - 1].addr == a && s.drop_first()[w - 1].slot == sl);
            }
        }
    }
}

pub proof fn lemma_find_ancestor_exists(s: Seq<AncestorEntryV>, n: u64)
    ensures
        (find_ancestor(s, n) is Some) == (exists|i: int|
            0 <= i < s.len() && (#[trigger] s[i]).number == n),
    decreases s.len(),
{
    if s.len() == 0 {
    } else if s[0].number == n {
        assert(s[0].number == n);
    } else {
        lemma_find_ancestor_exists(s.drop_first(), n);
        if find_ancestor(s, n) is Some {
            let w = choose|i: int| 0 <= i < s.drop_first().len() && (
            #[trigger] s.drop_first()[i]).number == n;
            assert(s[w + 1].number == n);
        } else {
            if exists|i: int| 0 <= i < s.len() && (#[trigger] s[i]).number == n {
                let w = choose|i: int| 0 <= i < s.len() && (#[trigger] s[i]).number == n;
                assert(s.drop_first()[w - 1].number == n);
            }
        }
    }
}

/// The state view a sketch backs: exactly the facts its witnesses hold.
pub open spec fn sketch_model(s: StateSketchV) -> StateModel {
    StateModel {
        accounts: Map::new(
            |addr: Seq<u8>| find_account(s.accounts, addr) is Some,
            |addr: Seq<u8>| crate::types::opt_get(find_account(s.accounts, addr)),
        ),
        storage: Map::new(
            |k: (Seq<u8>, Seq<u8>)| find_storage(s.storage, k.0, k.1) is Some,
            |k: (Seq<u8>, Seq<u8>)| crate::types::opt_get(find_storage(s.storage, k.0, k.1)),
        ),
        ancestors: Map::new(
            |n: u64| find_ancestor(s.ancestors, n) is Some,
            |n: u64| crate::types::opt_get(find_ancestor(s.ancestors, n)),
        ),
    }
}

/// Copies one account's fields.
pub fn clone_account(a: &AccountData) -> (r: AccountData)
    ensures
        r@ == a@,
{
    AccountData {
        balance: slice_to_vec(a.balance.as_slice()),
        nonce: a.nonce,
        code_hash: slice_to_vec(a.code_hash.as_slice()),
        storage_root: slice_to_vec(a.storage_root.as_slice()),
    }
}

impl StateSketch {
    /// Looks one fact up among the verified witnesses; answers exactly
    /// as the sketch's state model does.
    pub fn lookup(&self, key: &FactKey) -> (r: Option<FactValue>)
        ensures
            (r matches Some(v) ==> sketch_model(self@).has_fact(key@) && v@ == sketch_model(
                self@,
            ).fact_at(key@)),
            (r is None ==> !sketch_model(self@).has_fact(key@)),
    {
        match key {
            FactKey::Account { addr } => {
                let ghost entries = self@.accounts;
                let mut i: usize = 0;
                let n = self.accounts.len();
                proof {
                    assert(entries.subrange(0, n as int) =~= entries);
                }
                while i < n
                    invariant
                        i <= n,
                        n == self.accounts@.len(),
                        entries == self@.accounts,
                        entries.len() == n,
                        key@ == (FactKeyV::Account { addr: addr@ }),
                        find_account(entries, addr@) == find_account(
                            entries.subrange(i as int, n as int),
                            addr@,
                        ),
                    decreases n - i,
                {
                    let ghost rest = entries.subrange(i as int, n as int);
                    proof {
                        assert(rest[0] == entries[i as int]);
                        assert(rest.drop_first() =~= entries.subrange(i as int + 1, n as int));
                        assert(self.accounts@[i as int]@ == entries[i as int]);
                    }
                    if bytes_eq(&self.accounts[i].addr, addr) {
                        proof {
                            assert(find_account(rest, addr@) == Some(rest[0].existing));
                            assert(find_account(entries, addr@) == Some(entries[i as int].existing));
                            assert(sketch_model(self@).accounts.contains_key(addr@));
                            assert(sketch_model(self@).accounts[addr@] == entries[i as int].existing);
                        }
                        let existing = match &self.accounts[i].existing {
                            Some(a) => Some(clone_account(a)),
                            None => None,
                        };
                        proof {
                            assert(key@ == (FactKeyV::Account { addr: addr@ }));
                            assert(opt_account_view(existing) == entries[i as int].existing);
                        }
                        return Some(FactValue::Account { existing });
                    }
                    i = i + 1;
                }
                proof {
                    assert(entries.subrange(n as int, n as int) =~= Seq::<AccountEntryV>::empty());
                }
                None
            },
            FactKey::Storage { addr, slot } => {
                let ghost entries = self@.storage;
                let mut i: usize = 0;
                let n = self.storage.len();
                proof {
                    assert(entries.subrange(0, n as int) =~= entries);
                }
                while i < n
                    invariant
                        i <= n,
                        n == self.storage@.len(),
                        entries == self@.storage,
                        entries.len() == n,
                        key@ == (FactKeyV::Storage { addr: addr@, slot: slot@ }),
                        find_storage(entries, addr@, slot@) == find_storage(
                            entries.subrange(i as int, n as int),
                            addr@,
                            slot@,
                        ),
                    decreases n - i,
                {
                    let ghost rest = entries.subrange(i as int, n as int);
                    proof {
                        assert(rest[0] == entries[i as int]);
                        assert(rest.drop_first() =~= entries.subrange(i as int + 1, n as int));
                        assert(self.storage@[i as int]@ == entries[i as int]);
                    }
                    if bytes_eq(&self.storage[i].addr, addr) && bytes_eq(&self.storage[i].slot, slot) {
                        proof {
                            assert(find_storage(rest, addr@, slot@) == Some(rest[0].value));
                            assert(find_storage(entries, addr@, slot@) == Some(entries[i as int].value));
                            assert(sketch_model(self@).storage.contains_key((addr@, slot@)));
                            assert(sketch_model(self@).storage[(addr@, slot@)] == entries[i as int].value);
                        }
                        let value = slice_to_vec(self.storage[i].value.as_slice());
                        proof {
                            assert(key@ == (FactKeyV::Storage { addr: addr@, slot: slot@ }));
                            assert(value@ == entries[i as int].value);
                        }
                        return Some(FactValue::Storage { value });
                    }
                    i = i + 1;
                }
                proof {
                    assert(entries.subrange(n as int, n as int) =~= Seq::<StorageEntryV>::empty());
                }
                None
            },
            FactKey::Ancestor { number } => {
                let ghost entries = self@.ancestors;
                let mut i: usize = 0;
                let n = self.ancestors.len();
                proof {
                    assert(entries.subrange(0, n as int) =~= entries);
                }
                while i < n
                    invariant
                        i <= n,
                        n == self.ancestors@.len(),
                        entries == self@.ancestors,
                        entries.len() == n,
                        key@ == (FactKeyV::Ancestor { number: *number }),
                        find_ancestor(entries, *number) == find_ancestor(
                            entries.subrange(i as int, n as int),
                            *number,
                        ),
                    decreases n - i,
                {
                    let ghost rest = entries.subrange(i as int, n as int);
                    proof {
                        assert(rest[0] == entries[i as int]);
                        assert(rest.drop_first() =~= entries.subrange(i as int + 1, n as int));
                        assert(self.ancestors@[i as int]@ == entries[i as int]);
                    }
                    if self.ancestors[i].number == *number {
                        proof {
                            assert(find_ancestor(rest, *number) == Some(rest[0].hash));
                            assert(find_ancestor(entries, *number) == Some(entries[i as int].hash));
                            assert(sketch_model(self@).ancestors.contains_key(*number));
                            assert(sketch_model(self@).ancestors[*number] == entries[i as int].hash);
                        }
                        let hash = slice_to_vec(self.ancestors[i].hash.as_slice());
                        proof {
                            assert(key@ == (FactKeyV::Ancestor { number: *number }));
                            assert(hash@ == entries[i as int].hash);
                        }
                        return Some(FactValue::Ancestor { hash });
                    }
                    i = i + 1;
                }
                proof {
                    assert(entries.subrange(n as int, n as int) =~= Seq::<AncestorEntryV>::empty());
                }
                None
            },
        }
    }
}

/// Checks one ancestor witness against the pinned header; answers
/// exactly as the specification predicate does.
pub fn verify_ancestor(pinned: &BlockHeader, e: &AncestorEntry) -> (r: bool)
    ensures
        r == ancestor_entry_ok(pinned@, e@),
{
    if e.hash.len() != WORD_BYTES {
        return false;
    }
    let ghost chain = e@.chain;
    let mut parent: Vec<u8> = slice_to_vec(pinned.parent_hash.as_slice());
    let mut number: u64 = pinned.number;
    let n = e.chain.len();
    let mut i: usize = 0;
    proof {
        assert(chain.subrange(0, n as int) =~= chain);
    }
    while i < n
        invariant
            i <= n,
            n == e.chain@.len(),
            chain == e@.chain,
            chain.len() == n,
            ancestor_entry_ok(pinned@, e@) == chain_ok(
                parent@,
                number,
                e@.number,
                e@.hash,
                chain.subrange(i as int, n as int),
            ),
        decreases n - i,
    {
        let ghost rest = chain.subrange(i as int, n as int);
        proof {
            assert(rest[0] == chain[i as int]);
            assert(rest.drop_first() =~= chain.subrange(i as int + 1, n as int));
            assert(e.chain@[i as int]@ == chain[i as int]);
        }
        let decoded = crate::encode::decode_header(&e.chain[i]);
        match decoded {
            None => {
                return false;
            },
            Some(h) => {
                let digest = keccak(&e.chain[i]);
                if !bytes_eq(&digest, &parent) {
                    return false;
                }
                if !(number > 0 && h.number == number - 1) {
                    return false;
                }
                parent = h.parent_hash;
                number = h.number;
            },
        }
        i = i + 1;
    }
    proof {
        assert(chain.subrange(n as int, n as int) =~= Seq::<Seq<u8>>::empty());
    }
    if !(number > 0 && e.number == number - 1) {
        return false;
    }
    bytes_eq(&parent, &e.hash)
}

} // verus!
