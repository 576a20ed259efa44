use state_sketch::client::{replay_session, ClientExecutor};
use state_sketch::host::HostSession;
use state_sketch::memory::MemoryProvider;
use state_sketch::sketch::{make_account_leaf, make_storage_leaf, AccountEntry, AncestorEntry, StateSketch, StorageEntry};
use state_sketch::accumulator::{commit_leaves, prove_leaf};
use state_sketch::types::{AccountData, BlockHeader, CallInput, CallRecord, ClientError, HostError};
use state_sketch::encode::encode_header;

fn addr_a() -> Vec<u8> {
    vec![0xAA; 20]
}

fn addr_b() -> Vec<u8> {
    vec![0xBB; 20]
}

fn account_a() -> AccountData {
    AccountData {
        balance: vec![0x05; 32],
        nonce: 7,
        code_hash: vec![0x11; 32],
        storage_root: vec![0x22; 32],
    }
}

fn slot_bytes() -> Vec<u8> {
    vec![0x01; 32]
}

fn slot_value() -> Vec<u8> {
    vec![0x5A; 32]
}

fn call_account(target: Vec<u8>) -> CallInput {
    CallInput::view_call(target, vec![1, 0, 0, 0])
}

fn call_storage(target: Vec<u8>) -> CallInput {
    let mut data = vec![2, 0, 0, 0];
    data.extend_from_slice(&slot_bytes());
    CallInput::view_call(target, data)
}

fn call_ancestor(number: u64) -> CallInput {
    let mut data = vec![3, 0, 0, 0];
    data.extend_from_slice(&number.to_le_bytes());
    CallInput::view_call(addr_a(), data)
}

/// The fact table a live chain would answer from, with proofs against
/// a root computed over all of its facts.
fn build_table() -> (StateSketch, BlockHeader) {
    let leaves = vec![
        make_account_leaf(&addr_a(), &Some(account_a())),
        make_account_leaf(&addr_b(), &None),
        make_storage_leaf(&addr_a(), &slot_bytes(), &slot_value()),
    ];
    let root = commit_leaves(&leaves);
    let header = BlockHeader {
        number: 100,
        timestamp: 999,
        parent_hash: vec![0xCC; 32],
        state_root: root.clone(),
    };
    let table = StateSketch {
        header: BlockHeader {
            number: 100,
            timestamp: 999,
            parent_hash: vec![0xCC; 32],
            state_root: root,
        },
        block_hash: Vec::new(),
        accounts: vec![
            AccountEntry { addr: addr_a(), existing: Some(account_a()), proof: prove_leaf(&leaves, 0) },
            AccountEntry { addr: addr_b(), existing: None, proof: prove_leaf(&leaves, 1) },
        ],
        storage: vec![StorageEntry {
            addr: addr_a(),
            slot: slot_bytes(),
            value: slot_value(),
            proof: prove_leaf(&leaves, 2),
        }],
        ancestors: vec![AncestorEntry { number: 99, hash: vec![0xCC; 32], chain: Vec::new() }],
    };
    (table, header)
}

/// Runs the full host side: executes the standard call set and
/// finalizes into a sketch.
fn host_run() -> (StateSketch, Vec<CallRecord>, Vec<Vec<u8>>) {
    let (table, header) = build_table();
    let provider = MemoryProvider { table };
    let mut session = HostSession::open(provider, header);
    let mut outputs = Vec::new();
    outputs.push(session.execute(&call_account(addr_a())).unwrap());
    outputs.push(session.execute(&call_storage(addr_a())).unwrap());
    // the same fact read twice is recorded once
    outputs.push(session.execute(&call_account(addr_a())).unwrap());
    outputs.push(session.execute(&call_account(addr_b())).unwrap());
    outputs.push(session.execute(&call_ancestor(99)).unwrap());
    let (sketch, records) = session.finalize().unwrap();
    (sketch, records, outputs)
}

fn standard_calls() -> Vec<CallInput> {
    vec![
        call_account(addr_a()),
        call_storage(addr_a()),
        call_account(addr_a()),
        call_account(addr_b()),
        call_ancestor(99),
    ]
}

fn manual_commitment(block_hash: &[u8], records: &[CallRecord]) -> Vec<u8> {
    let mut out = Vec::new();
    out.extend_from_slice(block_hash);
    out.extend_from_slice(&(records.len() as u64).to_le_bytes());
    for r in records {
        out.extend_from_slice(&r.input.target);
        out.extend_from_slice(&r.input.caller);
        out.extend_from_slice(&(r.input.data.len() as u64).to_le_bytes());
        out.extend_from_slice(&r.input.data);
        out.extend_from_slice(&(r.output.len() as u64).to_le_bytes());
        out.extend_from_slice(&r.output);
    }
    out
}

#[test]
fn account_call_returns_fields() {
    let (_, _, outputs) = host_run();
    let mut expected = vec![0x05; 32];
    expected.extend_from_slice(&7u64.to_le_bytes());
    expected.extend_from_slice(&[0x11; 32]);
    expected.extend_from_slice(&[0x22; 32]);
    assert_eq!(outputs[0], expected);
}

#[test]
fn storage_call_returns_value() {
    let (_, _, outputs) = host_run();
    assert_eq!(outputs[1], slot_value());
}

#[test]
fn absent_account_reads_as_zero() {
    let (_, _, outputs) = host_run();
    assert_eq!(outputs[3], vec![0u8; 104]);
}

#[test]
fn ancestor_call_returns_hash() {
    let (_, _, outputs) = host_run();
    assert_eq!(outputs[4], vec![0xCC; 32]);
}

#[test]
fn minimal_witness_set() {
    let (sketch, records, _) = host_run();
    // five calls touched four distinct facts; each appears exactly once
    assert_eq!(sketch.accounts.len(), 2);
    assert_eq!(sketch.storage.len(), 1);
    assert_eq!(sketch.ancestors.len(), 1);
    assert_eq!(records.len(), 5);
}

#[test]
fn client_replay_reproduces_host_outputs() {
    let (sketch, records, outputs) = host_run();
    let mut ex = ClientExecutor::new(sketch).unwrap();
    for (i, c) in standard_calls().iter().enumerate() {
        let out = ex.execute(c).unwrap();
        assert_eq!(out, outputs[i]);
    }
    let expected_hash = {
        let (sketch2, _, _) = host_run();
        sketch2.block_hash
    };
    let committed = ex.commit();
    assert_eq!(committed, manual_commitment(&expected_hash, &records));
}

#[test]
fn replay_is_deterministic() {
    let (sketch1, _, _) = host_run();
    let (sketch2, _, _) = host_run();
    let a = replay_session(sketch1, &standard_calls()).unwrap();
    let b = replay_session(sketch2, &standard_calls()).unwrap();
    assert_eq!(a, b);
}

#[test]
fn tampered_witness_proof_is_rejected() {
    for byte in 0..32 {
        let (mut sketch, _, _) = host_run();
        sketch.accounts[0].proof.prefix[byte] ^= 0x01;
        match ClientExecutor::new(sketch) {
            Err(ClientError::InvalidProof) => {},
            _ => panic!("a flipped proof byte must be rejected"),
        }
    }
}

#[test]
fn tampered_witness_value_is_rejected() {
    let (mut sketch, _, _) = host_run();
    sketch.accounts[0].existing.as_mut().unwrap().balance[0] ^= 0x01;
    match ClientExecutor::new(sketch) {
        Err(ClientError::InvalidProof) => {},
        _ => panic!("a changed witness value must be rejected"),
    }
}

#[test]
fn tampered_header_is_rejected() {
    let (mut sketch, _, _) = host_run();
    sketch.header.timestamp += 1;
    match ClientExecutor::new(sketch) {
        Err(ClientError::HeaderIntegrityError) => {},
        _ => panic!("a changed header must be rejected"),
    }
}

#[test]
fn deleted_witness_fails_loudly() {
    let (mut sketch, _, _) = host_run();
    sketch.storage.remove(0);
    let mut ex = ClientExecutor::new(sketch).unwrap();
    assert!(ex.execute(&call_account(addr_a())).is_ok());
    match ex.execute(&call_storage(addr_a())) {
        Err(ClientError::MissingWitness) => {},
        _ => panic!("a deleted witness must fail as missing"),
    }
}

#[test]
fn commitments_differ_on_different_calls() {
    let (sketch1, _, _) = host_run();
    let (sketch2, _, _) = host_run();
    let a = replay_session(sketch1, &vec![call_account(addr_a())]).unwrap();
    let b = replay_session(sketch2, &vec![call_account(addr_b())]).unwrap();
    assert_ne!(a, b);
}

#[test]
fn commitments_differ_on_call_order() {
    let (sketch1, _, _) = host_run();
    let (sketch2, _, _) = host_run();
    let a = replay_session(sketch1, &vec![call_account(addr_a()), call_storage(addr_a())]).unwrap();
    let b = replay_session(sketch2, &vec![call_storage(addr_a()), call_account(addr_a())]).unwrap();
    assert_ne!(a, b);
}

#[test]
fn unknown_selector_reverts() {
    let (table, header) = build_table();
    let provider = MemoryProvider { table };
    let mut session = HostSession::open(provider, header);
    match session.execute(&CallInput::view_call(addr_a(), vec![9, 0, 0, 0])) {
        Err(HostError::ExecutionReverted { reason }) => assert_eq!(reason, vec![1]),
        _ => panic!("an unknown selector must revert"),
    }
    match session.execute(&CallInput::view_call(addr_a(), vec![1, 0])) {
        Err(HostError::ExecutionReverted { reason }) => assert_eq!(reason, vec![1]),
        _ => panic!("short call data must revert"),
    }
    match session.execute(&CallInput::view_call(addr_a(), vec![1, 0, 0, 0, 9])) {
        Err(HostError::ExecutionReverted { reason }) => assert_eq!(reason, vec![2]),
        _ => panic!("misshapen arguments must revert"),
    }
}

#[test]
fn client_revert_matches_host() {
    let (sketch, _, _) = host_run();
    let mut ex = ClientExecutor::new(sketch).unwrap();
    match ex.execute(&CallInput::view_call(addr_a(), vec![9, 0, 0, 0])) {
        Err(ClientError::ExecutionReverted { reason }) => assert_eq!(reason, vec![1]),
        _ => panic!("an unknown selector must revert on the client too"),
    }
}

#[test]
fn unknown_fact_is_a_host_error() {
    let (table, header) = build_table();
    let provider = MemoryProvider { table };
    let mut session = HostSession::open(provider, header);
    match session.execute(&call_account(vec![0xEE; 20])) {
        Err(HostError::NetworkError) => {},
        _ => panic!("a fact the provider lacks is a provider failure"),
    }
}

#[test]
fn inconsistent_proofs_fail_finalize() {
    let (mut table, _) = build_table();
    // re-pin the session to a header whose state root matches nothing
    table.header.state_root = vec![0xFF; 32];
    let header = BlockHeader {
        number: 100,
        timestamp: 999,
        parent_hash: vec![0xCC; 32],
        state_root: vec![0xFF; 32],
    };
    let provider = MemoryProvider { table };
    let mut session = HostSession::open(provider, header);
    session.execute(&call_account(addr_a())).unwrap();
    match session.finalize() {
        Err(HostError::HeaderMismatch) => {},
        _ => panic!("proofs that do not match the pinned root must fail finalize"),
    }
}

#[test]
fn block_hash_matches_direct_keccak() {
    let (sketch, _, _) = host_run();
    let encoded = encode_header(&sketch.header);
    let direct = alloy_primitives::keccak256(&encoded);
    assert_eq!(sketch.block_hash, direct.0.to_vec());
}

#[test]
fn deep_ancestor_verifies_through_header_chain() {
    // a grandparent hash proved by one intermediate header
    let parent = BlockHeader {
        number: 99,
        timestamp: 900,
        parent_hash: vec![0xDD; 32],
        state_root: vec![0x33; 32],
    };
    let parent_bytes = encode_header(&parent);
    let parent_hash = alloy_primitives::keccak256(&parent_bytes).0.to_vec();
    let header = BlockHeader {
        number: 100,
        timestamp: 999,
        parent_hash: parent_hash.clone(),
        state_root: commit_leaves(&Vec::new()),
    };
    let table = StateSketch {
        header: BlockHeader {
            number: 100,
            timestamp: 999,
            parent_hash,
            state_root: commit_leaves(&Vec::new()),
        },
        block_hash: Vec::new(),
        accounts: Vec::new(),
        storage: Vec::new(),
        ancestors: vec![AncestorEntry {
            number: 98,
            hash: vec![0xDD; 32],
            chain: vec![parent_bytes],
        }],
    };
    let provider = MemoryProvider { table };
    let mut session = HostSession::open(provider, header);
    let out = session.execute(&call_ancestor(98)).unwrap();
    assert_eq!(out, vec![0xDD; 32]);
    let (sketch, records) = session.finalize().unwrap();
    let mut ex = ClientExecutor::new(sketch).unwrap();
    let replayed = ex.execute(&call_ancestor(98)).unwrap();
    assert_eq!(replayed, records[0].output);
}

#[test]
fn tampered_ancestor_chain_is_rejected() {
    let (mut sketch, _, _) = host_run();
    sketch.ancestors[0].hash[0] ^= 0x01;
    match ClientExecutor::new(sketch) {
        Err(ClientError::InvalidProof) => {},
        _ => panic!("a changed ancestor hash must be rejected"),
    }
}
