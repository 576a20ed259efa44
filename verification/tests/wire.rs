use state_sketch::client::{replay_blob, replay_session};
use state_sketch::host::HostSession;
use state_sketch::memory::MemoryProvider;
use state_sketch::sketch::{make_account_leaf, AccountEntry, AncestorEntry, StateSketch};
use state_sketch::accumulator::{commit_leaves, prove_leaf};
use state_sketch::types::{AccountData, BlockHeader, CallInput, ClientError};
use state_sketch::wire::{decode_sketch, encode_sketch};

fn pool_addr() -> Vec<u8> {
    vec![0xA7; 20]
}

fn pool_account() -> AccountData {
    AccountData {
        balance: vec![0x09; 32],
        nonce: 3,
        code_hash: vec![0x44; 32],
        storage_root: vec![0x55; 32],
    }
}

fn finalized_sketch() -> (StateSketch, Vec<u8>) {
    let leaves = vec![make_account_leaf(&pool_addr(), &Some(pool_account()))];
    let root = commit_leaves(&leaves);
    let mk_header = |state_root: Vec<u8>| BlockHeader {
        number: 7,
        timestamp: 1,
        parent_hash: vec![0xEE; 32],
        state_root,
    };
    let table = StateSketch {
        header: mk_header(root.clone()),
        block_hash: Vec::new(),
        accounts: vec![AccountEntry {
            addr: pool_addr(),
            existing: Some(pool_account()),
            proof: prove_leaf(&leaves, 0),
        }],
        storage: Vec::new(),
        ancestors: vec![AncestorEntry { number: 6, hash: vec![0xEE; 32], chain: Vec::new() }],
    };
    let provider = MemoryProvider { table };
    let mut session = HostSession::open(provider, mk_header(root));
    let output = session
        .execute(&CallInput::view_call(pool_addr(), vec![1, 0, 0, 0]))
        .unwrap();
    let mut anc_data = vec![3, 0, 0, 0];
    anc_data.extend_from_slice(&6u64.to_le_bytes());
    session
        .execute(&CallInput::view_call(pool_addr(), anc_data))
        .unwrap();
    let (sketch, _) = session.finalize().unwrap();
    (sketch, output)
}

#[test]
fn sketch_blob_round_trip() {
    let (sketch, _) = finalized_sketch();
    let blob = encode_sketch(&sketch);
    let back = decode_sketch(&blob).unwrap();
    assert_eq!(back.header.number, sketch.header.number);
    assert_eq!(back.header.state_root, sketch.header.state_root);
    assert_eq!(back.block_hash, sketch.block_hash);
    assert_eq!(back.accounts.len(), 1);
    assert_eq!(back.accounts[0].addr, pool_addr());
    assert_eq!(back.ancestors.len(), 1);
    assert_eq!(back.ancestors[0].hash, vec![0xEE; 32]);
}

#[test]
fn truncated_blob_is_rejected() {
    let (sketch, _) = finalized_sketch();
    let mut blob = encode_sketch(&sketch);
    blob.pop();
    assert!(decode_sketch(&blob).is_none());
    blob.truncate(40);
    assert!(decode_sketch(&blob).is_none());
}

#[test]
fn blob_replay_matches_value_replay() {
    let (sketch, host_output) = finalized_sketch();
    let calls = vec![CallInput::view_call(pool_addr(), vec![1, 0, 0, 0])];
    let blob = encode_sketch(&sketch);
    let from_blob = replay_blob(&blob, &calls).unwrap();
    let from_value = replay_session(sketch, &calls).unwrap();
    assert_eq!(from_blob, from_value);
    // the committed bytes carry the host's observed output verbatim
    let tail_len = host_output.len();
    assert_eq!(&from_blob[from_blob.len() - tail_len..], &host_output[..]);
}

#[test]
fn tampered_blob_is_rejected() {
    let (sketch, _) = finalized_sketch();
    let calls = vec![CallInput::view_call(pool_addr(), vec![1, 0, 0, 0])];
    let blob = encode_sketch(&sketch);
    assert!(replay_blob(&blob, &calls).is_ok());
    for at in [0usize, 20, 81, 130, blob.len() - 2] {
        let mut bad = blob.clone();
        bad[at] ^= 0x01;
        match replay_blob(&bad, &calls) {
            Err(ClientError::InvalidProof) | Err(ClientError::HeaderIntegrityError) => {}
            Err(_) => {}
            Ok(_) => panic!("a flipped blob byte must not commit"),
        }
    }
}
