use vstd::prelude::*;

verus! {

/// Number of bytes in a hash, a storage slot, or a balance word.
pub const WORD_BYTES: usize = 32;

/// Number of bytes in a contract address.
pub const ADDRESS_BYTES: usize = 20;

/// Fields of one account, as proven against the state root.
#[derive(Clone)]
pub struct AccountData {
    pub balance: Vec<u8>,
    pub nonce: u64,
    pub code_hash: Vec<u8>,
    pub storage_root: Vec<u8>,
}

#[verifier::ext_equal]
pub struct AccountDataV {
    pub balance: Seq<u8>,
    pub nonce: u64,
    pub code_hash: Seq<u8>,
    pub storage_root: Seq<u8>,
}

impl View for AccountData {
    type V = AccountDataV;

    open spec fn view(&self) -> AccountDataV {
        AccountDataV {
            balance: self.balance@,
            nonce: self.nonce,
            code_hash: self.code_hash@,
            storage_root: self.storage_root@,
        }
    }
}

impl AccountDataV {
    pub open spec fn wf(self) -> bool {
        &&& self.balance.len() == WORD_BYTES
        &&& self.code_hash.len() == WORD_BYTES
        &&& self.storage_root.len() == WORD_BYTES
    }
}

/// The header of the pinned block: every call of a session is evaluated
/// against the state this header commits to.
pub struct BlockHeader {
    pub number: u64,
    pub timestamp: u64,
    pub parent_hash: Vec<u8>,
    pub state_root: Vec<u8>,
}

#[verifier::ext_equal]
pub struct BlockHeaderV {
    pub number: u64,
    pub timestamp: u64,
    pub parent_hash: Seq<u8>,
    pub state_root: Seq<u8>,
}

impl View for BlockHeader {
    type V = BlockHeaderV;

    open spec fn view(&self) -> BlockHeaderV {
        BlockHeaderV {
            number: self.number,
            timestamp: self.timestamp,
            parent_hash: self.parent_hash@,
            state_root: self.state_root@,
        }
    }
}

impl BlockHeaderV {
    pub open spec fn wf(self) -> bool {
        &&& self.parent_hash.len() == WORD_BYTES
        &&& self.state_root.len() == WORD_BYTES
    }
}

/// One read-only contract call: target address, caller address, and the
/// encoded call data naming a selector and its arguments.
pub struct CallInput {
    pub target: Vec<u8>,
    pub caller: Vec<u8>,
    pub data: Vec<u8>,
}

#[verifier::ext_equal]
pub struct CallInputV {
    pub target: Seq<u8>,
    pub caller: Seq<u8>,
    pub data: Seq<u8>,
}

impl View for CallInput {
    type V = CallInputV;

    open spec fn view(&self) -> CallInputV {
        CallInputV { target: self.target@, caller: self.caller@, data: self.data@ }
    }
}

impl DeepView for CallInput {
    type V = CallInputV;

    open spec fn deep_view(&self) -> CallInputV {
        self@
    }
}

impl CallInputV {
    pub open spec fn wf(self) -> bool {
        &&& self.target.len() == ADDRESS_BYTES
        &&& self.caller.len() == ADDRESS_BYTES
    }
}

impl CallInput {
    /// An unauthenticated view call: the caller defaults to the zero address.
    pub fn view_call(target: Vec<u8>, data: Vec<u8>) -> (r: CallInput)
        requires
            target@.len() == ADDRESS_BYTES,
        ensures
            r@.wf(),
            r@.target == target@,
            r@.caller == Seq::<u8>::new(ADDRESS_BYTES as nat, |i: int| 0u8),
            r@.data == data@,
    {
        let mut caller: Vec<u8> = Vec::new();
        let mut i: usize = 0;
        while i < ADDRESS_BYTES
            invariant
                i <= ADDRESS_BYTES,
                caller@.len() == i,
                forall|j: int| 0 <= j < i ==> caller@[j] == 0u8,
            decreases ADDRESS_BYTES - i,
        {
            caller.push(0u8);
            i = i + 1;
        }
        proof {
            assert(caller@ =~= Seq::<u8>::new(ADDRESS_BYTES as nat, |i: int| 0u8));
        }
        CallInput { target, caller, data }
    }
}

/// One executed call together with the raw bytes it returned.
pub struct CallRecord {
    pub input: CallInput,
    pub output: Vec<u8>,
}

#[verifier::ext_equal]
pub struct CallRecordV {
    pub input: CallInputV,
    pub output: Seq<u8>,
}

impl View for CallRecord {
    type V = CallRecordV;

    open spec fn view(&self) -> CallRecordV {
        CallRecordV { input: self.input@, output: self.output@ }
    }
}

impl DeepView for CallRecord {
    type V = CallRecordV;

    open spec fn deep_view(&self) -> CallRecordV {
        self@
    }
}

impl CallRecordV {
    pub open spec fn wf(self) -> bool {
        &&& self.input.wf()
        &&& self.input.data.len() <= u64::MAX
        &&& self.output.len() <= u64::MAX
    }
}

/// The key of one state fact an execution can read.
pub enum FactKey {
    Account { addr: Vec<u8> },
    Storage { addr: Vec<u8>, slot: Vec<u8> },
    Ancestor { number: u64 },
}

#[verifier::ext_equal]
pub enum FactKeyV {
    Account { addr: Seq<u8> },
    Storage { addr: Seq<u8>, slot: Seq<u8> },
    Ancestor { number: u64 },
}

impl View for FactKey {
    type V = FactKeyV;

    open spec fn view(&self) -> FactKeyV {
        match self {
            FactKey::Account { addr } => FactKeyV::Account { addr: addr@ },
            FactKey::Storage { addr, slot } => FactKeyV::Storage { addr: addr@, slot: slot@ },
            FactKey::Ancestor { number } => FactKeyV::Ancestor { number: *number },
        }
    }
}

impl FactKeyV {
    pub open spec fn wf(self) -> bool {
        match self {
            FactKeyV::Account { addr } => addr.len() == ADDRESS_BYTES,
            FactKeyV::Storage { addr, slot } => addr.len() == ADDRESS_BYTES && slot.len()
                == WORD_BYTES,
            FactKeyV::Ancestor { number } => true,
        }
    }
}

impl FactKey {
    /// Equality on fact keys, usable from executable code.
    pub fn key_eq(&self, other: &FactKey) -> (r: bool)
        ensures
            r == (self@ == other@),
    {
        match (self, other) {
            (FactKey::Account { addr: a }, FactKey::Account { addr: b }) => bytes_eq(a, b),
            (
                FactKey::Storage { addr: a, slot: s },
                FactKey::Storage { addr: b, slot: t },
            ) => bytes_eq(a, b) && bytes_eq(s, t),
            (FactKey::Ancestor { number: m }, FactKey::Ancestor { number: n }) => m == n,
            _ => {
                proof {
                    assert(self@ != other@);
                }
                false
            },
        }
    }
}

/// The proven value of one state fact. A `None` account is an account
/// proven absent on chain: a valid witness value, not a missing one.
pub enum FactValue {
    Account { existing: Option<AccountData> },
    Storage { value: Vec<u8> },
    Ancestor { hash: Vec<u8> },
}

#[verifier::ext_equal]
pub enum FactValueV {
    Account { existing: Option<AccountDataV> },
    Storage { value: Seq<u8> },
    Ancestor { hash: Seq<u8> },
}

impl View for FactValue {
    type V = FactValueV;

    open spec fn view(&self) -> FactValueV {
        match self {
            FactValue::Account { existing } => FactValueV::Account {
                existing: match existing {
                    Some(a) => Some(a@),
                    None => None,
                },
            },
            FactValue::Storage { value } => FactValueV::Storage { value: value@ },
            FactValue::Ancestor { hash } => FactValueV::Ancestor { hash: hash@ },
        }
    }
}

impl FactValueV {
    pub open spec fn wf(self) -> bool {
        match self {
            FactValueV::Account { existing } => match existing {
                Some(a) => a.wf(),
                None => true,
            },
            FactValueV::Storage { value } => value.len() == WORD_BYTES,
            FactValueV::Ancestor { hash } => hash.len() == WORD_BYTES,
        }
    }
}

/// Errors surfaced on the host side of a session.
#[derive(Debug)]
pub enum HostError {
    /// The live data provider could not answer; transient, outside core.
    NetworkError,
    /// A fetched proof is inconsistent with the pinned header.
    HeaderMismatch,
    /// The target call reverted; a normal outcome carrying the reason.
    ExecutionReverted { reason: Vec<u8> },
}

/// Errors surfaced on the client side of a replay; all but a revert are
/// fatal to the whole run.
#[derive(Debug)]
pub enum ClientError {
    /// A witness failed cryptographic verification against the state root.
    InvalidProof,
    /// The embedded header does not hash to the claimed block hash.
    HeaderIntegrityError,
    /// The sketch lacks a witness for a fact the replay reads.
    MissingWitness,
    /// The target call reverted; a normal outcome carrying the reason.
    ExecutionReverted { reason: Vec<u8> },
}

/// Byte-string equality, usable from executable code.
pub fn bytes_eq(a: &Vec<u8>, b: &Vec<u8>) -> (r: bool)
    ensures
        r == (a@ == b@),
{
    if a.len() != b.len() {
        proof {
            assert(a@ != b@);
        }
        return false;
    }
    let mut i: usize = 0;
    while i < a.len()
        invariant
            i <= a@.len(),
            a@.len() == b@.len(),
            forall|j: int| 0 <= j < i ==> a@[j] == b@[j],
        decreases a@.len() - i,
    {
        if a[i] != b[i] {
            proof {
                assert(a@ != b@);
            }
            return false;
        }
        i = i + 1;
    }
    proof {
        assert(a@ =~= b@);
    }
    true
}

/// A 32-byte vector of zeroes: the all-zero word.
pub fn zero_word() -> (r: Vec<u8>)
    ensures
        r@ == zero_word_spec(),
{
    let mut v: Vec<u8> = Vec::new();
    let mut i: usize = 0;
    while i < WORD_BYTES
        invariant
            i <= WORD_BYTES,
            v@.len() == i,
            forall|j: int| 0 <= j < i ==> v@[j] == 0u8,
        decreases WORD_BYTES - i,
    {
        v.push(0u8);
        i = i + 1;
    }
    proof {
        assert(v@ =~= zero_word_spec());
    }
    v
}

pub open spec fn zero_word_spec() -> Seq<u8> {
    Seq::<u8>::new(WORD_BYTES as nat, |i: int| 0u8)
}

/// The value under a `Some`; unconstrained on `None`.
pub open spec fn opt_get<T>(o: Option<T>) -> T
    recommends
        o is Some,
{
    match o {
        Some(v) => v,
        None => vstd::pervasive::arbitrary(),
    }
}

} // verus!
