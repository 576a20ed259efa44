use vstd::prelude::*;
use vstd::bytes::{spec_u64_from_le_bytes, u64_from_le_bytes};
use vstd::slice::{slice_subrange, slice_to_vec};
use crate::types::{AccountData, AccountDataV};
use crate::encode::{dec_header, enc_bytes, enc_header, enc_u64, encode_header, lemma_enc_u64_len, lemma_header_round_trip, put_bytes, put_u64, HEADER_BYTES};
use crate::accumulator::{InclusionProof, InclusionProofV};
use crate::sketch::{AccountEntry, AccountEntryV, AncestorEntry, AncestorEntryV, StateSketch, StateSketchV, StorageEntry, StorageEntryV};
use crate::state::opt_account_view;

verus! {

// ---- canonical encoding of a sketch as one byte string ----

pub open spec fn enc_seq_bytes(s: Seq<Seq<u8>>) -> Seq<u8>
    decreases s.len(),
{
    if s.len() == 0 {
        Seq::empty()
    } else {
        enc_bytes(s[0]) + enc_seq_bytes(s.drop_first())
    }
}

pub open spec fn enc_proof(p: InclusionProofV) -> Seq<u8> {
    enc_bytes(p.prefix) + enc_u64(p.suffix.len() as u64) + enc_seq_bytes(p.suffix)
}

pub open spec fn enc_opt_account(o: Option<AccountDataV>) -> Seq<u8> {
    match o {
        None => seq![0u8],
        Some(a) => seq![1u8] + enc_bytes(a.balance) + enc_u64(a.nonce) + enc_bytes(a.code_hash)
            + enc_bytes(a.storage_root),
    }
}

pub open spec fn enc_account_entry(e: AccountEntryV) -> Seq<u8> {
    enc_bytes(e.addr) + enc_opt_account(e.existing) + enc_proof(e.proof)
}

pub open spec fn enc_account_entries(s: Seq<AccountEntryV>) -> Seq<u8>
    decreases s.len(),
{
    if s.len() == 0 {
        Seq::empty()
    } else {
        enc_account_entry(s[0]) + enc_account_entries(s.drop_first())
    }
}

pub open spec fn enc_storage_entry(e: StorageEntryV) -> Seq<u8> {
    enc_bytes(e.addr) + enc_bytes(e.slot) + enc_bytes(e.value) + enc_proof(e.proof)
}

pub open spec fn enc_storage_entries(s: Seq<StorageEntryV>) -> Seq<u8>
    decreases s.len(),
{
    if s.len() == 0 {
        Seq::empty()
    } else {
        enc_storage_entry(s[0]) + enc_storage_entries(s.drop_first())
    }
}

pub open spec fn enc_ancestor_entry(e: AncestorEntryV) -> Seq<u8> {
    enc_u64(e.number) + enc_bytes(e.hash) + enc_u64(e.chain.len() as u64) + enc_seq_bytes(e.chain)
}

pub open spec fn enc_ancestor_entries(s: Seq<AncestorEntryV>) -> Seq<u8>
    decreases s.len(),
{
    if s.len() == 0 {
        Seq::empty()
    } else {
        enc_ancestor_entry(s[0]) + enc_ancestor_entries(s.drop_first())
    }
}

/// The one serialized blob that carries a sketch: header, claimed
/// block hash, then the three witness lists, each with its count.
pub open spec fn enc_sketch(s: StateSketchV) -> Seq<u8> {
    enc_header(s.header) + enc_bytes(s.block_hash) + enc_u64(s.accounts.len() as u64)
        + enc_account_entries(s.accounts) + enc_u64(s.storage.len() as u64) + enc_storage_entries(
        s.storage,
    ) + enc_u64(s.ancestors.len() as u64) + enc_ancestor_entries(s.ancestors)
}

// ---- the specification decoder ----

pub open spec fn dec_u64(b: Seq<u8>) -> Option<(u64, Seq<u8>)> {
    if b.len() >= 8 {
        Some((spec_u64_from_le_bytes(b.subrange(0, 8)), b.skip(8)))
    } else {
        None
    }
}

pub open spec fn dec_bytes(b: Seq<u8>) -> Option<(Seq<u8>, Seq<u8>)> {
    match dec_u64(b) {
        Some((n, rest)) => if rest.len() >= n {
            Some((rest.subrange(0, n as int), rest.skip(n as int)))
        } else {
            None
        },
        None => None,
    }
}

pub open spec fn dec_seq_bytes(b: Seq<u8>, count: nat) -> Option<(Seq<Seq<u8>>, Seq<u8>)>
    decreases count,
{
    if count == 0 {
        Some((Seq::empty(), b))
    } else {
        match dec_bytes(b) {
            Some((first, rest)) => match dec_seq_bytes(rest, (count - 1) as nat) {
                Some((more, tail)) => Some((seq![first] + more, tail)),
                None => None,
            },
            None => None,
        }
    }
}

pub open spec fn dec_proof(b: Seq<u8>) -> Option<(InclusionProofV, Seq<u8>)> {
    match dec_bytes(b) {
        Some((prefix, rest)) => match dec_u64(rest) {
            Some((count, rest2)) => match dec_seq_bytes(rest2, count as nat) {
                Some((suffix, tail)) => Some((InclusionProofV { prefix, suffix }, tail)),
                None => None,
            },
            None => None,
        },
        None => None,
    }
}

pub open spec fn dec_opt_account(b: Seq<u8>) -> Option<(Option<AccountDataV>, Seq<u8>)> {
    if b.len() < 1 {
        None
    } else if b[0] == 0u8 {
        Some((None, b.skip(1)))
    } else if b[0] == 1u8 {
        match dec_bytes(b.skip(1)) {
            Some((balance, r1)) => match dec_u64(r1) {
                Some((nonce, r2)) => match dec_bytes(r2) {
                    Some((code_hash, r3)) => match dec_bytes(r3) {
                        Some((storage_root, r4)) => Some(
                            (Some(AccountDataV { balance, nonce, code_hash, storage_root }), r4),
                        ),
                        None => None,
                    },
                    None => None,
                },
                None => None,
            },
            None => None,
        }
    } else {
        None
    }
}

pub open spec fn dec_account_entry(b: Seq<u8>) -> Option<(AccountEntryV, Seq<u8>)> {
    match dec_bytes(b) {
        Some((addr, r1)) => match dec_opt_account(r1) {
            Some((existing, r2)) => match dec_proof(r2) {
                Some((proof, r3)) => Some((AccountEntryV { addr, existing, proof }, r3)),
                None => None,
            },
            None => None,
        },
        None => None,
    }
}

pub open spec fn dec_account_entries(b: Seq<u8>, count: nat) -> Option<
    (Seq<AccountEntryV>, Seq<u8>),
>
    decreases count,
{
    if count == 0 {
        Some((Seq::empty(), b))
    } else {
        match dec_account_entry(b) {
            Some((first, rest)) => match dec_account_entries(rest, (count - 1) as nat) {
                Some((more, tail)) => Some((seq![first] + more, tail)),
                None => None,
            },
            None => None,
        }
    }
}

pub open spec fn dec_storage_entry(b: Seq<u8>) -> Option<(StorageEntryV, Seq<u8>)> {
    match dec_bytes(b) {
        Some((addr, r1)) => match dec_bytes(r1) {
            Some((slot, r2)) => match dec_bytes(r2) {
                Some((value, r3)) => match dec_proof(r3) {
                    Some((proof, r4)) => Some((StorageEntryV { addr, slot, value, proof }, r4)),
                    None => None,
                },
                None => None,
            },
            None => None,
        },
        None => None,
    }
}

pub open spec fn dec_storage_entries(b: Seq<u8>, count: nat) -> Option<
    (Seq<StorageEntryV>, Seq<u8>),
>
    decreases count,
{
    if count == 0 {
        Some((Seq::empty(), b))
    } else {
        match dec_storage_entry(b) {
            Some((first, rest)) => match dec_storage_entries(rest, (count - 1) as nat) {
                Some((more, tail)) => Some((seq![first] + more, tail)),
                None => None,
            },
            None => None,
        }
    }
}

pub open spec fn dec_ancestor_entry(b: Seq<u8>) -> Option<(AncestorEntryV, Seq<u8>)> {
    match dec_u64(b) {
        Some((number, r1)) => match dec_bytes(r1) {
            Some((hash, r2)) => match dec_u64(r2) {
                Some((count, r3)) => match dec_seq_bytes(r3, count as nat) {
                    Some((chain, r4)) => Some((AncestorEntryV { number, hash, chain }, r4)),
                    None => None,
                },
                None => None,
            },
            None => None,
        },
        None => None,
    }
}

pub open spec fn dec_ancestor_entries(b: Seq<u8>, count: nat) -> Option<
    (Seq<AncestorEntryV>, Seq<u8>),
>
    decreases count,
{
    if count == 0 {
        Some((Seq::empty(), b))
    } else {
        match dec_ancestor_entry(b) {
            Some((first, rest)) => match dec_ancestor_entries(rest, (count - 1) as nat) {
                Some((more, tail)) => Some((seq![first] + more, tail)),
                None => None,
            },
            None => None,
        }
    }
}

/// Decodes a whole blob; answers a sketch only when every byte is
/// consumed.
pub open spec fn parse_sketch(b: Seq<u8>) -> Option<StateSketchV> {
    if b.len() < HEADER_BYTES {
        None
    } else {
        match dec_header(b.subrange(0, HEADER_BYTES as int)) {
            Some(header) => match dec_bytes(b.skip(HEADER_BYTES as int)) {
                Some((block_hash, r1)) => match dec_u64(r1) {
                    Some((na, r2)) => match dec_account_entries(r2, na as nat) {
                        Some((accounts, r3)) => match dec_u64(r3) {
                            Some((ns, r4)) => match dec_storage_entries(r4, ns as nat) {
                                Some((storage, r5)) => match dec_u64(r5) {
                                    Some((nn, r6)) => match dec_ancestor_entries(r6, nn as nat) {
                                        Some((ancestors, r7)) => if r7.len() == 0 {
                                            Some(
                                                StateSketchV {
                                                    header,
                                                    block_hash,
                                                    accounts,
                                                    storage,
                                                    ancestors,
                                                },
                                            )
                                        } else {
                                            None
                                        },
                                        None => None,
                                    },
                                    None => None,
                                },
                                None => None,
                            },
                            None => None,
                        },
                        None => None,
                    },
                    None => None,
                },
                None => None,
            },
            None => None,
        }
    }
}

// ---- the encoding is lossless: decoding gives the sketch back ----

pub open spec fn fits_bytes(b: Seq<u8>) -> bool {
    b.len() <= u64::MAX
}

pub open spec fn fits_seq_bytes(s: Seq<Seq<u8>>) -> bool {
    &&& s.len() <= u64::MAX
    &&& forall|i: int| 0 <= i < s.len() ==> fits_bytes(#[trigger] s[i])
}

pub open spec fn fits_proof(p: InclusionProofV) -> bool {
    fits_bytes(p.prefix) && fits_seq_bytes(p.suffix)
}

pub open spec fn fits_opt_account(o: Option<AccountDataV>) -> bool {
    match o {
        None => true,
        Some(a) => fits_bytes(a.balance) && fits_bytes(a.code_hash) && fits_bytes(a.storage_root),
    }
}

pub open spec fn fits_account_entry(e: AccountEntryV) -> bool {
    fits_bytes(e.addr) && fits_opt_account(e.existing) && fits_proof(e.proof)
}

pub open spec fn fits_storage_entry(e: StorageEntryV) -> bool {
    fits_bytes(e.addr) && fits_bytes(e.slot) && fits_bytes(e.value) && fits_proof(e.proof)
}

pub open spec fn fits_ancestor_entry(e: AncestorEntryV) -> bool {
    fits_bytes(e.hash) && fits_seq_bytes(e.chain)
}

/// Every length in the sketch fits the wire format's length fields.
pub open spec fn sketch_fits(s: StateSketchV) -> bool {
    &&& s.header.wf()
    &&& fits_bytes(s.block_hash)
    &&& s.accounts.len() <= u64::MAX
    &&& s.storage.len() <= u64::MAX
    &&& s.ancestors.len() <= u64::MAX
    &&& forall|i: int| 0 <= i < s.accounts.len() ==> fits_account_entry(#[trigger] s.accounts[i])
    &&& forall|i: int| 0 <= i < s.storage.len() ==> fits_storage_entry(#[trigger] s.storage[i])
    &&& forall|i: int| 0 <= i < s.ancestors.len() ==> fits_ancestor_entry(#[trigger] s.ancestors[i])
}

proof fn lemma_dec_u64_enc(x: u64, rest: Seq<u8>)
    ensures
        dec_u64(enc_u64(x) + rest) == Some((x, rest)),
{
    vstd::bytes::lemma_auto_spec_u64_to_from_le_bytes();
    let b = enc_u64(x) + rest;
    assert(b.subrange(0, 8) =~= enc_u64(x));
    assert(b.skip(8) =~= rest);
}

proof fn lemma_dec_bytes_enc(p: Seq<u8>, rest: Seq<u8>)
    requires
        fits_bytes(p),
    ensures
        dec_bytes(enc_bytes(p) + rest) == Some((p, rest)),
{
    lemma_enc_u64_len(p.len() as u64);
    assert(enc_bytes(p) + rest =~= enc_u64(p.len() as u64) + (p + rest));
    lemma_dec_u64_enc(p.len() as u64, p + rest);
    assert((p + rest).subrange(0, p.len() as int) =~= p);
    assert((p + rest).skip(p.len() as int) =~= rest);
}

proof fn lemma_dec_seq_bytes_enc(s: Seq<Seq<u8>>, rest: Seq<u8>)
    requires
        fits_seq_bytes(s),
    ensures
        dec_seq_bytes(enc_seq_bytes(s) + rest, s.len()) == Some((s, rest)),
    decreases s.len(),
{
    if s.len() == 0 {
        assert(enc_seq_bytes(s) + rest =~= rest);
        assert(Seq::<Seq<u8>>::empty() =~= s);
    } else {
        let tail = s.drop_first();
        assert(enc_seq_bytes(s) + rest =~= enc_bytes(s[0]) + (enc_seq_bytes(tail) + rest));
        lemma_dec_bytes_enc(s[0], enc_seq_bytes(tail) + rest);
        assert(fits_seq_bytes(tail)) by {
            assert(forall|i: int| 0 <= i < tail.len() ==> tail[i] == s[i + 1]);
        }
        lemma_dec_seq_bytes_enc(tail, rest);
        assert(seq![s[0]] + tail =~= s);
    }
}

proof fn lemma_dec_proof_enc(p: InclusionProofV, rest: Seq<u8>)
    requires
        fits_proof(p),
    ensures
        dec_proof(enc_proof(p) + rest) == Some((p, rest)),
{
    let n = p.suffix.len() as u64;
    lemma_enc_u64_len(n);
    assert(enc_proof(p) + rest =~= enc_bytes(p.prefix) + (enc_u64(n) + (enc_seq_bytes(p.suffix)
        + rest)));
    lemma_dec_bytes_enc(p.prefix, enc_u64(n) + (enc_seq_bytes(p.suffix) + rest));
    lemma_dec_u64_enc(n, enc_seq_bytes(p.suffix) + rest);
    lemma_dec_seq_bytes_enc(p.suffix, rest);
    assert(p =~= (InclusionProofV { prefix: p.prefix, suffix: p.suffix }));
}

proof fn lemma_dec_opt_account_enc(o: Option<AccountDataV>, rest: Seq<u8>)
    requires
        fits_opt_account(o),
    ensures
        dec_opt_account(enc_opt_account(o) + rest) == Some((o, rest)),
{
    match o {
        None => {
            let b = enc_opt_account(o) + rest;
            assert(b[0] == 0u8);
            assert(b.skip(1) =~= rest);
        },
        Some(a) => {
            let b = enc_opt_account(o) + rest;
            assert(b[0] == 1u8);
            assert(b.skip(1) =~= enc_bytes(a.balance) + (enc_u64(a.nonce) + (enc_bytes(a.code_hash)
                + (enc_bytes(a.storage_root) + rest))));
            lemma_dec_bytes_enc(
                a.balance,
                enc_u64(a.nonce) + (enc_bytes(a.code_hash) + (enc_bytes(a.storage_root) + rest)),
            );
            lemma_dec_u64_enc(a.nonce, enc_bytes(a.code_hash) + (enc_bytes(a.storage_root) + rest));
            lemma_dec_bytes_enc(a.code_hash, enc_bytes(a.storage_root) + rest);
            lemma_dec_bytes_enc(a.storage_root, rest);
            assert(a =~= (AccountDataV {
                balance: a.balance,
                nonce: a.nonce,
                code_hash: a.code_hash,
                storage_root: a.storage_root,
            }));
        },
    }
}

proof fn lemma_dec_account_entry_enc(e: AccountEntryV, rest: Seq<u8>)
    requires
        fits_account_entry(e),
    ensures
        dec_account_entry(enc_account_entry(e) + rest) == Some((e, rest)),
{
    assert(enc_account_entry(e) + rest =~= enc_bytes(e.addr) + (enc_opt_account(e.existing) + (
    enc_proof(e.proof) + rest)));
    lemma_dec_bytes_enc(e.addr, enc_opt_account(e.existing) + (enc_proof(e.proof) + rest));
    lemma_dec_opt_account_enc(e.existing, enc_proof(e.proof) + rest);
    lemma_dec_proof_enc(e.proof, rest);
    assert(e =~= (AccountEntryV { addr: e.addr, existing: e.existing, proof: e.proof }));
}

proof fn lemma_dec_account_entries_enc(s: Seq<AccountEntryV>, rest: Seq<u8>)
    requires
        forall|i: int| 0 <= i < s.len() ==> fits_account_entry(#[trigger] s[i]),
    ensures
        dec_account_entries(enc_account_entries(s) + rest, s.len()) == Some((s, rest)),
    decreases s.len(),
{
    if s.len() == 0 {
        assert(enc_account_entries(s) + rest =~= rest);
        assert(Seq::<AccountEntryV>::empty() =~= s);
    } else {
        let tail = s.drop_first();
        assert(enc_account_entries(s) + rest =~= enc_account_entry(s[0]) + (enc_account_entries(
            tail,
        ) + rest));
        lemma_dec_account_entry_enc(s[0], enc_account_entries(tail) + rest);
        assert(forall|i: int| 0 <= i < tail.len() ==> tail[i] == s[i + 1]);
        lemma_dec_account_entries_enc(tail, rest);
        assert(seq![s[0]] + tail =~= s);
    }
}

proof fn lemma_dec_storage_entry_enc(e: StorageEntryV, rest: Seq<u8>)
    requires
        fits_storage_entry(e),
    ensures
        dec_storage_entry(enc_storage_entry(e) + rest) == Some((e, rest)),
{
    assert(enc_storage_entry(e) + rest =~= enc_bytes(e.addr) + (enc_bytes(e.slot) + (enc_bytes(
        e.value,
    ) + (enc_proof(e.proof) + rest))));
    lemma_dec_bytes_enc(e.addr, enc_bytes(e.slot) + (enc_bytes(e.value) + (enc_proof(e.proof)
        + rest)));
    lemma_dec_bytes_enc(e.slot, enc_bytes(e.value) + (enc_proof(e.proof) + rest));
    lemma_dec_bytes_enc(e.value, enc_proof(e.proof) + rest);
    lemma_dec_proof_enc(e.proof, rest);
    assert(e =~= (StorageEntryV { addr: e.addr, slot: e.slot, value: e.value, proof: e.proof }));
}

proof fn lemma_dec_storage_entries_enc(s: Seq<StorageEntryV>, rest: Seq<u8>)
    requires
        forall|i: int| 0 <= i < s.len() ==> fits_storage_entry(#[trigger] s[i]),
    ensures
        dec_storage_entries(enc_storage_entries(s) + rest, s.len()) == Some((s, rest)),
    decreases s.len(),
{
    if s.len() == 0 {
        assert(enc_storage_entries(s) + rest =~= rest);
        assert(Seq::<StorageEntryV>::empty() =~= s);
    } else {
        let tail = s.drop_first();
        assert(enc_storage_entries(s) + rest =~= enc_storage_entry(s[0]) + (enc_storage_entries(
            tail,
        ) + rest));
        lemma_dec_storage_entry_enc(s[0], enc_storage_entries(tail) + rest);
        assert(forall|i: int| 0 <= i < tail.len() ==> tail[i] == s[i + 1]);
        lemma_dec_storage_entries_enc(tail, rest);
        assert(seq![s[0]] + tail =~= s);
    }
}

proof fn lemma_dec_ancestor_entry_enc(e: AncestorEntryV, rest: Seq<u8>)
    requires
        fits_ancestor_entry(e),
    ensures
        dec_ancestor_entry(enc_ancestor_entry(e) + rest) == Some((e, rest)),
{
    let n = e.chain.len() as u64;
    lemma_enc_u64_len(e.number);
    lemma_enc_u64_len(n);
    assert(enc_ancestor_entry(e) + rest =~= enc_u64(e.number) + (enc_bytes(e.hash) + (enc_u64(n) + (
    enc_seq_bytes(e.chain) + rest))));
    lemma_dec_u64_enc(e.number, enc_bytes(e.hash) + (enc_u64(n) + (enc_seq_bytes(e.chain) + rest)));
    lemma_dec_bytes_enc(e.hash, enc_u64(n) + (enc_seq_bytes(e.chain) + rest));
    lemma_dec_u64_enc(n, enc_seq_bytes(e.chain) + rest);
    lemma_dec_seq_bytes_enc(e.chain, rest);
    assert(e =~= (AncestorEntryV { number: e.number, hash: e.hash, chain: e.chain }));
}

proof fn lemma_dec_ancestor_entries_enc(s: Seq<AncestorEntryV>, rest: Seq<u8>)
    requires
        forall|i: int| 0 <= i < s.len() ==> fits_ancestor_entry(#[trigger] s[i]),
    ensures
        dec_ancestor_entries(enc_ancestor_entries(s) + rest, s.len()) == Some((s, rest)),
    decreases s.len(),
{
    if s.len() == 0 {
        assert(enc_ancestor_entries(s) + rest =~= rest);
        assert(Seq::<AncestorEntryV>::empty() =~= s);
    } else {
        let tail = s.drop_first();
        assert(enc_ancestor_entries(s) + rest =~= enc_ancestor_entry(s[0]) + (enc_ancestor_entries(
            tail,
        ) + rest));
        lemma_dec_ancestor_entry_enc(s[0], enc_ancestor_entries(tail) + rest);
        assert(forall|i: int| 0 <= i < tail.len() ==> tail[i] == s[i + 1]);
        lemma_dec_ancestor_entries_enc(tail, rest);
        assert(seq![s[0]] + tail =~= s);
    }
}

/// Serialization loses nothing: decoding an encoded sketch gives the
/// sketch back, so the blob carries the client's whole input.
#[verifier::rlimit(80)]
#[verifier::spinoff_prover]
pub proof fn lemma_sketch_round_trip(s: StateSketchV)
    requires
        sketch_fits(s),
    ensures
        parse_sketch(enc_sketch(s)) == Some(s),
{
    let b = enc_sketch(s);
    lemma_header_round_trip(s.header);
    let na = s.accounts.len() as u64;
    let ns = s.storage.len() as u64;
    let nn = s.ancestors.len() as u64;
    lemma_enc_u64_len(na);
    lemma_enc_u64_len(ns);
    lemma_enc_u64_len(nn);
    let after_header = enc_bytes(s.block_hash) + (enc_u64(na) + (enc_account_entries(s.accounts) + (
    enc_u64(ns) + (enc_storage_entries(s.storage) + (enc_u64(nn) + (enc_ancestor_entries(
        s.ancestors,
    ) + Seq::<u8>::empty()))))));
    assert(b =~= enc_header(s.header) + after_header);
    assert(b.subrange(0, HEADER_BYTES as int) =~= enc_header(s.header));
    assert(b.skip(HEADER_BYTES as int) =~= after_header);
    lemma_dec_bytes_enc(
        s.block_hash,
        enc_u64(na) + (enc_account_entries(s.accounts) + (enc_u64(ns) + (enc_storage_entries(
            s.storage,
        ) + (enc_u64(nn) + (enc_ancestor_entries(s.ancestors) + Seq::<u8>::empty()))))),
    );
    lemma_dec_u64_enc(
        na,
        enc_account_entries(s.accounts) + (enc_u64(ns) + (enc_storage_entries(s.storage) + (
        enc_u64(nn) + (enc_ancestor_entries(s.ancestors) + Seq::<u8>::empty())))),
    );
    lemma_dec_account_entries_enc(
        s.accounts,
        enc_u64(ns) + (enc_storage_entries(s.storage) + (enc_u64(nn) + (enc_ancestor_entries(
            s.ancestors,
        ) + Seq::<u8>::empty()))),
    );
    lemma_dec_u64_enc(
        ns,
        enc_storage_entries(s.storage) + (enc_u64(nn) + (enc_ancestor_entries(s.ancestors) + Seq::<
            u8,
        >::empty())),
    );
    lemma_dec_storage_entries_enc(
        s.storage,
        enc_u64(nn) + (enc_ancestor_entries(s.ancestors) + Seq::<u8>::empty()),
    );
    lemma_dec_u64_enc(nn, enc_ancestor_entries(s.ancestors) + Seq::<u8>::empty());
    lemma_dec_ancestor_entries_enc(s.ancestors, Seq::<u8>::empty());
    assert(s =~= (StateSketchV {
        header: s.header,
        block_hash: s.block_hash,
        accounts: s.accounts,
        storage: s.storage,
        ancestors: s.ancestors,
    }));
}


// ---- executable encoder ----

proof fn lemma_enc_seq_bytes_push(s: Seq<Seq<u8>>, x: Seq<u8>)
    ensures
        enc_seq_bytes(s.push(x)) == enc_seq_bytes(s) + enc_bytes(x),
    decreases s.len(),
{
    if s.len() == 0 {
        assert(s.push(x)[0] == x);
        assert(s.push(x).drop_first() =~= Seq::<Seq<u8>>::empty());
        assert(enc_seq_bytes(Seq::<Seq<u8>>::empty()) =~= Seq::<u8>::empty());
        assert(enc_seq_bytes(s.push(x)) =~= enc_bytes(x) + Seq::<u8>::empty());
        assert(enc_bytes(x) + Seq::<u8>::empty() =~= enc_bytes(x));
        assert(enc_seq_bytes(s) + enc_bytes(x) =~= enc_bytes(x));
    } else {
        assert(s.push(x)[0] == s[0]);
        assert(s.push(x).drop_first() =~= s.drop_first().push(x));
        lemma_enc_seq_bytes_push(s.drop_first(), x);
        assert(enc_bytes(s[0]) + (enc_seq_bytes(s.drop_first()) + enc_bytes(x)) =~= (enc_bytes(s[0])
            + enc_seq_bytes(s.drop_first())) + enc_bytes(x));
    }
}

proof fn lemma_enc_account_entries_push(s: Seq<AccountEntryV>, e: AccountEntryV)
    ensures
        enc_account_entries(s.push(e)) == enc_account_entries(s) + enc_account_entry(e),
    decreases s.len(),
{
    if s.len() == 0 {
        assert(s.push(e)[0] == e);
        assert(s.push(e).drop_first() =~= Seq::<AccountEntryV>::empty());
        assert(enc_account_entries(Seq::<AccountEntryV>::empty()) =~= Seq::<u8>::empty());
        assert(enc_account_entries(s.push(e)) =~= enc_account_entry(e) + Seq::<u8>::empty());
        assert(enc_account_entry(e) + Seq::<u8>::empty() =~= enc_account_entry(e));
        assert(enc_account_entries(s) + enc_account_entry(e) =~= enc_account_entry(e));
    } else {
        assert(s.push(e)[0] == s[0]);
        assert(s.push(e).drop_first() =~= s.drop_first().push(e));
        lemma_enc_account_entries_push(s.drop_first(), e);
        assert(enc_account_entry(s[0]) + (enc_account_entries(s.drop_first()) + enc_account_entry(
            e,
        )) =~= (enc_account_entry(s[0]) + enc_account_entries(s.drop_first())) + enc_account_entry(
            e,
        ));
    }
}

proof fn lemma_enc_storage_entries_push(s: Seq<StorageEntryV>, e: StorageEntryV)
    ensures
        enc_storage_entries(s.push(e)) == enc_storage_entries(s) + enc_storage_entry(e),
    decreases s.len(),
{
    if s.len() == 0 {
        assert(s.push(e)[0] == e);
        assert(s.push(e).drop_first() =~= Seq::<StorageEntryV>::empty());
        assert(enc_storage_entries(Seq::<StorageEntryV>::empty()) =~= Seq::<u8>::empty());
        assert(enc_storage_entries(s.push(e)) =~= enc_storage_entry(e) + Seq::<u8>::empty());
        assert(enc_storage_entry(e) + Seq::<u8>::empty() =~= enc_storage_entry(e));
        assert(enc_storage_entries(s) + enc_storage_entry(e) =~= enc_storage_entry(e));
    } else {
        assert(s.push(e)[0] == s[0]);
        assert(s.push(e).drop_first() =~= s.drop_first().push(e));
        lemma_enc_storage_entries_push(s.drop_first(), e);
        assert(enc_storage_entry(s[0]) + (enc_storage_entries(s.drop_first()) + enc_storage_entry(
            e,
        )) =~= (enc_storage_entry(s[0]) + enc_storage_entries(s.drop_first())) + enc_storage_entry(
            e,
        ));
    }
}

proof fn lemma_enc_ancestor_entries_push(s: Seq<AncestorEntryV>, e: AncestorEntryV)
    ensures
        enc_ancestor_entries(s.push(e)) == enc_ancestor_entries(s) + enc_ancestor_entry(e),
    decreases s.len(),
{
    if s.len() == 0 {
        assert(s.push(e)[0] == e);
        assert(s.push(e).drop_first() =~= Seq::<AncestorEntryV>::empty());
        assert(enc_ancestor_entries(Seq::<AncestorEntryV>::empty()) =~= Seq::<u8>::empty());
        assert(enc_ancestor_entries(s.push(e)) =~= enc_ancestor_entry(e) + Seq::<u8>::empty());
        assert(enc_ancestor_entry(e) + Seq::<u8>::empty() =~= enc_ancestor_entry(e));
        assert(enc_ancestor_entries(s) + enc_ancestor_entry(e) =~= enc_ancestor_entry(e));
    } else {
        assert(s.push(e)[0] == s[0]);
        assert(s.push(e).drop_first() =~= s.drop_first().push(e));
        lemma_enc_ancestor_entries_push(s.drop_first(), e);
        assert(enc_ancestor_entry(s[0]) + (enc_ancestor_entries(s.drop_first())
            + enc_ancestor_entry(e)) =~= (enc_ancestor_entry(s[0]) + enc_ancestor_entries(
            s.drop_first(),
        )) + enc_ancestor_entry(e));
    }
}

fn put_seq_bytes(out: &mut Vec<u8>, items: &Vec<Vec<u8>>)
    ensures
        final(out)@ == old(out)@ + enc_u64(items@.len() as u64) + enc_seq_bytes(items.deep_view()),
{
    let ghost dv = items.deep_view();
    let n = items.len();
    put_u64(out, n as u64);
    proof {
        assert(dv.subrange(0, 0) =~= Seq::<Seq<u8>>::empty());
    }
    let mut i: usize = 0;
    while i < n
        invariant
            i <= n,
            n == items@.len(),
            dv == items.deep_view(),
            dv.len() == n,
            out@ == old(out)@ + enc_u64(n as u64) + enc_seq_bytes(dv.subrange(0, i as int)),
        decreases n - i,
    {
        put_bytes(out, &items[i]);
        proof {
            assert(items@[i as int]@ == dv[i as int]);
            assert(dv.subrange(0, i as int + 1) =~= dv.subrange(0, i as int).push(dv[i as int]));
            lemma_enc_seq_bytes_push(dv.subrange(0, i as int), dv[i as int]);
            assert(out@ =~= old(out)@ + enc_u64(n as u64) + enc_seq_bytes(
                dv.subrange(0, i as int + 1),
            ));
        }
        i = i + 1;
    }
    proof {
        assert(dv.subrange(0, n as int) =~= dv);
    }
}

fn put_proof(out: &mut Vec<u8>, p: &InclusionProof)
    ensures
        final(out)@ == old(out)@ + enc_proof(p@),
{
    put_bytes(out, &p.prefix);
    put_seq_bytes(out, &p.suffix);
    proof {
        assert(out@ =~= old(out)@ + enc_proof(p@));
    }
}

fn put_opt_account(out: &mut Vec<u8>, o: &Option<AccountData>)
    ensures
        final(out)@ == old(out)@ + enc_opt_account(opt_account_view(*o)),
{
    match o {
        None => {
            out.push(0u8);
            proof {
                assert(out@ =~= old(out)@ + enc_opt_account(opt_account_view(*o)));
            }
        },
        Some(a) => {
            out.push(1u8);
            put_bytes(out, &a.balance);
            put_u64(out, a.nonce);
            put_bytes(out, &a.code_hash);
            put_bytes(out, &a.storage_root);
            proof {
                assert(out@ =~= old(out)@ + enc_opt_account(opt_account_view(*o)));
            }
        },
    }
}

fn put_account_entry(out: &mut Vec<u8>, e: &AccountEntry)
    ensures
        final(out)@ == old(out)@ + enc_account_entry(e@),
{
    put_bytes(out, &e.addr);
    put_opt_account(out, &e.existing);
    put_proof(out, &e.proof);
    proof {
        assert(out@ =~= old(out)@ + enc_account_entry(e@));
    }
}

fn put_storage_entry(out: &mut Vec<u8>, e: &StorageEntry)
    ensures
        final(out)@ == old(out)@ + enc_storage_entry(e@),
{
    put_bytes(out, &e.addr);
    put_bytes(out, &e.slot);
    put_bytes(out, &e.value);
    put_proof(out, &e.proof);
    proof {
        assert(out@ =~= old(out)@ + enc_storage_entry(e@));
    }
}

fn put_ancestor_entry(out: &mut Vec<u8>, e: &AncestorEntry)
    ensures
        final(out)@ == old(out)@ + enc_ancestor_entry(e@),
{
    put_u64(out, e.number);
    put_bytes(out, &e.hash);
    put_seq_bytes(out, &e.chain);
    proof {
        assert(out@ =~= old(out)@ + enc_ancestor_entry(e@));
    }
}

/// Serializes a sketch into the one blob the client consumes.
pub fn encode_sketch(s: &StateSketch) -> (out: Vec<u8>)
    requires
        s@.header.wf(),
    ensures
        out@ == enc_sketch(s@),
{
    let mut out = encode_header(&s.header);
    put_bytes(&mut out, &s.block_hash);
    let ghost adv = s@.accounts;
    let na = s.accounts.len();
    put_u64(&mut out, na as u64);
    proof {
        assert(adv.subrange(0, 0) =~= Seq::<AccountEntryV>::empty());
    }
    let ghost base_a = out@;
    let mut i: usize = 0;
    while i < na
        invariant
            i <= na,
            na == s.accounts@.len(),
            adv == s@.accounts,
            adv.len() == na,
            out@ == base_a + enc_account_entries(adv.subrange(0, i as int)),
        decreases na - i,
    {
        put_account_entry(&mut out, &s.accounts[i]);
        proof {
            assert(s.accounts@[i as int]@ == adv[i as int]);
            assert(adv.subrange(0, i as int + 1) =~= adv.subrange(0, i as int).push(adv[i as int]));
            lemma_enc_account_entries_push(adv.subrange(0, i as int), adv[i as int]);
            assert(out@ =~= base_a + enc_account_entries(adv.subrange(0, i as int + 1)));
        }
        i = i + 1;
    }
    proof {
        assert(adv.subrange(0, na as int) =~= adv);
    }
    let ghost sdv = s@.storage;
    let ns = s.storage.len();
    put_u64(&mut out, ns as u64);
    proof {
        assert(sdv.subrange(0, 0) =~= Seq::<StorageEntryV>::empty());
    }
    let ghost base_s = out@;
    let mut j: usize = 0;
    while j < ns
        invariant
            j <= ns,
            ns == s.storage@.len(),
            sdv == s@.storage,
            sdv.len() == ns,
            out@ == base_s + enc_storage_entries(sdv.subrange(0, j as int)),
        decreases ns - j,
    {
        put_storage_entry(&mut out, &s.storage[j]);
        proof {
            assert(s.storage@[j as int]@ == sdv[j as int]);
            assert(sdv.subrange(0, j as int + 1) =~= sdv.subrange(0, j as int).push(sdv[j as int]));
            lemma_enc_storage_entries_push(sdv.subrange(0, j as int), sdv[j as int]);
            assert(out@ =~= base_s + enc_storage_entries(sdv.subrange(0, j as int + 1)));
        }
        j = j + 1;
    }
    proof {
        assert(sdv.subrange(0, ns as int) =~= sdv);
    }
    let ghost ndv = s@.ancestors;
    let nn = s.ancestors.len();
    put_u64(&mut out, nn as u64);
    proof {
        assert(ndv.subrange(0, 0) =~= Seq::<AncestorEntryV>::empty());
    }
    let ghost base_n = out@;
    let mut k: usize = 0;
    while k < nn
        invariant
            k <= nn,
            nn == s.ancestors@.len(),
            ndv == s@.ancestors,
            ndv.len() == nn,
            out@ == base_n + enc_ancestor_entries(ndv.subrange(0, k as int)),
        decreases nn - k,
    {
        put_ancestor_entry(&mut out, &s.ancestors[k]);
        proof {
            assert(s.ancestors@[k as int]@ == ndv[k as int]);
            assert(ndv.subrange(0, k as int + 1) =~= ndv.subrange(0, k as int).push(ndv[k as int]));
            lemma_enc_ancestor_entries_push(ndv.subrange(0, k as int), ndv[k as int]);
            assert(out@ =~= base_n + enc_ancestor_entries(ndv.subrange(0, k as int + 1)));
        }
        k = k + 1;
    }
    proof {
        assert(ndv.subrange(0, nn as int) =~= ndv);
        assert(out@ =~= enc_sketch(s@));
    }
    out
}


// ---- executable decoder ----

fn take_u64(b: &Vec<u8>, pos: usize) -> (r: Option<(u64, usize)>)
    requires
        pos <= b@.len(),
    ensures
        match r {
            Some(p) => pos <= p.1 <= b@.len() && dec_u64(b@.skip(pos as int)) == Some(
                (p.0, b@.skip(p.1 as int)),
            ),
            None => dec_u64(b@.skip(pos as int)) is None,
        },
{
    if b.len() - pos >= 8 {
        let x = u64_from_le_bytes(slice_subrange(b.as_slice(), pos, pos + 8));
        proof {
            assert(b@.skip(pos as int).subrange(0, 8) =~= b@.subrange(pos as int, pos as int + 8));
            assert(b@.skip(pos as int).skip(8) =~= b@.skip(pos as int + 8));
        }
        Some((x, pos + 8))
    } else {
        proof {
            assert(b@.skip(pos as int).len() < 8);
        }
        None
    }
}

fn take_bytes(b: &Vec<u8>, pos: usize) -> (r: Option<(Vec<u8>, usize)>)
    requires
        pos <= b@.len(),
    ensures
        match r {
            Some(p) => pos <= p.1 <= b@.len() && dec_bytes(b@.skip(pos as int)) == Some(
                (p.0@, b@.skip(p.1 as int)),
            ),
            None => dec_bytes(b@.skip(pos as int)) is None,
        },
{
    match take_u64(b, pos) {
        Some((n, p1)) => {
            if n <= (b.len() - p1) as u64 {
                let len = n as usize;
                let v = slice_to_vec(slice_subrange(b.as_slice(), p1, p1 + len));
                proof {
                    let rest = b@.skip(p1 as int);
                    assert(rest.len() == b@.len() - p1);
                    assert(rest.subrange(0, n as int) =~= b@.subrange(p1 as int, p1 as int
                        + len as int));
                    assert(rest.skip(n as int) =~= b@.skip(p1 as int + len as int));
                }
                Some((v, p1 + len))
            } else {
                proof {
                    let rest = b@.skip(p1 as int);
                    assert(rest.len() < n);
                }
                None
            }
        },
        None => None,
    }
}

fn take_seq_bytes(b: &Vec<u8>, pos: usize, count: u64) -> (r: Option<(Vec<Vec<u8>>, usize)>)
    requires
        pos <= b@.len(),
    ensures
        match r {
            Some(p) => pos <= p.1 <= b@.len() && dec_seq_bytes(b@.skip(pos as int), count as nat)
                == Some((p.0.deep_view(), b@.skip(p.1 as int))),
            None => dec_seq_bytes(b@.skip(pos as int), count as nat) is None,
        },
{
    let mut acc: Vec<Vec<u8>> = Vec::new();
    let mut cur: usize = pos;
    let mut i: u64 = 0;
    proof {
        assert(acc.deep_view() =~= Seq::<Seq<u8>>::empty());
    }
    while i < count
        invariant
            i <= count,
            pos <= cur <= b@.len(),
            match dec_seq_bytes(b@.skip(cur as int), (count - i) as nat) {
                Some(q) => dec_seq_bytes(b@.skip(pos as int), count as nat) == Some(
                    (acc.deep_view() + q.0, q.1),
                ),
                None => dec_seq_bytes(b@.skip(pos as int), count as nat) is None,
            },
        decreases count - i,
    {
        let ghost old_dv = acc.deep_view();
        match take_bytes(b, cur) {
            Some((v, p2)) => {
                acc.push(v);
                proof {
                    assert(acc.deep_view() =~~= old_dv.push(v@));
                    let here = b@.skip(cur as int);
                    match dec_seq_bytes(b@.skip(p2 as int), (count - i - 1) as nat) {
                        Some(q) => {
                            assert(dec_seq_bytes(here, (count - i) as nat) == Some(
                                (seq![v@] + q.0, q.1),
                            ));
                            assert(old_dv.push(v@) + q.0 =~= old_dv + (seq![v@] + q.0));
                        },
                        None => {
                            assert(dec_seq_bytes(here, (count - i) as nat) is None);
                        },
                    }
                }
                cur = p2;
            },
            None => {
                proof {
                    assert(dec_seq_bytes(b@.skip(cur as int), (count - i) as nat) is None);
                }
                return None;
            },
        }
        i = i + 1;
    }
    proof {
        assert(dec_seq_bytes(b@.skip(cur as int), 0) == Some(
            (Seq::<Seq<u8>>::empty(), b@.skip(cur as int)),
        ));
        assert(acc.deep_view() + Seq::<Seq<u8>>::empty() =~= acc.deep_view());
    }
    Some((acc, cur))
}

fn take_proof(b: &Vec<u8>, pos: usize) -> (r: Option<(InclusionProof, usize)>)
    requires
        pos <= b@.len(),
    ensures
        match r {
            Some(p) => pos <= p.1 <= b@.len() && dec_proof(b@.skip(pos as int)) == Some(
                (p.0@, b@.skip(p.1 as int)),
            ),
            None => dec_proof(b@.skip(pos as int)) is None,
        },
{
    match take_bytes(b, pos) {
        Some((prefix, p1)) => match take_u64(b, p1) {
            Some((count, p2)) => match take_seq_bytes(b, p2, count) {
                Some((suffix, p3)) => {
                    let p = InclusionProof { prefix, suffix };
                    proof {
                        assert(p@ =~= (InclusionProofV {
                            prefix: p.prefix@,
                            suffix: p.suffix.deep_view(),
                        }));
                    }
                    Some((p, p3))
                },
                None => None,
            },
            None => None,
        },
        None => None,
    }
}

fn take_opt_account(b: &Vec<u8>, pos: usize) -> (r: Option<(Option<AccountData>, usize)>)
    requires
        pos <= b@.len(),
    ensures
        match r {
            Some(p) => pos <= p.1 <= b@.len() && dec_opt_account(b@.skip(pos as int)) == Some(
                (opt_account_view(p.0), b@.skip(p.1 as int)),
            ),
            None => dec_opt_account(b@.skip(pos as int)) is None,
        },
{
    if b.len() - pos < 1 {
        proof {
            assert(b@.skip(pos as int).len() < 1);
        }
        return None;
    }
    let tag = b[pos];
    proof {
        assert(b@.skip(pos as int)[0] == b@[pos as int]);
        assert(b@.skip(pos as int).skip(1) =~= b@.skip(pos as int + 1));
    }
    if tag == 0u8 {
        Some((None, pos + 1))
    } else if tag == 1u8 {
        match take_bytes(b, pos + 1) {
            Some((balance, p1)) => match take_u64(b, p1) {
                Some((nonce, p2)) => match take_bytes(b, p2) {
                    Some((code_hash, p3)) => match take_bytes(b, p3) {
                        Some((storage_root, p4)) => {
                            let a = AccountData { balance, nonce, code_hash, storage_root };
                            proof {
                                assert(a@ =~= (AccountDataV {
                                    balance: a.balance@,
                                    nonce: a.nonce,
                                    code_hash: a.code_hash@,
                                    storage_root: a.storage_root@,
                                }));
                            }
                            Some((Some(a), p4))
                        },
                        None => None,
                    },
                    None => None,
                },
                None => None,
            },
            None => None,
        }
    } else {
        None
    }
}

fn take_account_entry(b: &Vec<u8>, pos: usize) -> (r: Option<(AccountEntry, usize)>)
    requires
        pos <= b@.len(),
    ensures
        match r {
            Some(p) => pos <= p.1 <= b@.len() && dec_account_entry(b@.skip(pos as int)) == Some(
                (p.0@, b@.skip(p.1 as int)),
            ),
            None => dec_account_entry(b@.skip(pos as int)) is None,
        },
{
    match take_bytes(b, pos) {
        Some((addr, p1)) => match take_opt_account(b, p1) {
            Some((existing, p2)) => match take_proof(b, p2) {
                Some((proof_part, p3)) => {
                    let e = AccountEntry { addr, existing, proof: proof_part };
                    proof {
                        assert(e@ =~= (AccountEntryV {
                            addr: e.addr@,
                            existing: opt_account_view(e.existing),
                            proof: e.proof@,
                        }));
                    }
                    Some((e, p3))
                },
                None => None,
            },
            None => None,
        },
        None => None,
    }
}

fn take_storage_entry(b: &Vec<u8>, pos: usize) -> (r: Option<(StorageEntry, usize)>)
    requires
        pos <= b@.len(),
    ensures
        match r {
            Some(p) => pos <= p.1 <= b@.len() && dec_storage_entry(b@.skip(pos as int)) == Some(
                (p.0@, b@.skip(p.1 as int)),
            ),
            None => dec_storage_entry(b@.skip(pos as int)) is None,
        },
{
    match take_bytes(b, pos) {
        Some((addr, p1)) => match take_bytes(b, p1) {
            Some((slot, p2)) => match take_bytes(b, p2) {
                Some((value, p3)) => match take_proof(b, p3) {
                    Some((proof_part, p4)) => {
                        let e = StorageEntry { addr, slot, value, proof: proof_part };
                        proof {
                            assert(e@ =~= (StorageEntryV {
                                addr: e.addr@,
                                slot: e.slot@,
                                value: e.value@,
                                proof: e.proof@,
                            }));
                        }
                        Some((e, p4))
                    },
                    None => None,
                },
                None => None,
            },
            None => None,
        },
        None => None,
    }
}

fn take_ancestor_entry(b: &Vec<u8>, pos: usize) -> (r: Option<(AncestorEntry, usize)>)
    requires
        pos <= b@.len(),
    ensures
        match r {
            Some(p) => pos <= p.1 <= b@.len() && dec_ancestor_entry(b@.skip(pos as int)) == Some(
                (p.0@, b@.skip(p.1 as int)),
            ),
            None => dec_ancestor_entry(b@.skip(pos as int)) is None,
        },
{
    match take_u64(b, pos) {
        Some((number, p1)) => match take_bytes(b, p1) {
            Some((hash, p2)) => match take_u64(b, p2) {
                Some((count, p3)) => match take_seq_bytes(b, p3, count) {
                    Some((chain, p4)) => {
                        let e = AncestorEntry { number, hash, chain };
                        proof {
                            assert(e@ =~= (AncestorEntryV {
                                number: e.number,
                                hash: e.hash@,
                                chain: e.chain.deep_view(),
                            }));
                        }
                        Some((e, p4))
                    },
                    None => None,
                },
                None => None,
            },
            None => None,
        },
        None => None,
    }
}


fn take_account_entries(b: &Vec<u8>, pos: usize, count: u64) -> (r: Option<
    (Vec<AccountEntry>, usize),
>)
    requires
        pos <= b@.len(),
    ensures
        match r {
            Some(p) => pos <= p.1 <= b@.len() && dec_account_entries(
                b@.skip(pos as int),
                count as nat,
            ) == Some((p.0.deep_view(), b@.skip(p.1 as int))),
            None => dec_account_entries(b@.skip(pos as int), count as nat) is None,
        },
{
    let mut acc: Vec<AccountEntry> = Vec::new();
    let mut cur: usize = pos;
    let mut i: u64 = 0;
    proof {
        assert(acc.deep_view() =~= Seq::<AccountEntryV>::empty());
    }
    while i < count
        invariant
            i <= count,
            pos <= cur <= b@.len(),
            match dec_account_entries(b@.skip(cur as int), (count - i) as nat) {
                Some(q) => dec_account_entries(b@.skip(pos as int), count as nat) == Some(
                    (acc.deep_view() + q.0, q.1),
                ),
                None => dec_account_entries(b@.skip(pos as int), count as nat) is None,
            },
        decreases count - i,
    {
        let ghost old_dv = acc.deep_view();
        match take_account_entry(b, cur) {
            Some((e, pn)) => {
                acc.push(e);
                proof {
                    assert(acc.deep_view() =~~= old_dv.push(e@));
                    match dec_account_entries(b@.skip(pn as int), (count - i - 1) as nat) {
                        Some(q) => {
                            assert(old_dv.push(e@) + q.0 =~= old_dv + (seq![e@] + q.0));
                        },
                        None => {},
                    }
                }
                cur = pn;
            },
            None => {
                return None;
            },
        }
        i = i + 1;
    }
    proof {
        assert(dec_account_entries(b@.skip(cur as int), 0) == Some(
            (Seq::<AccountEntryV>::empty(), b@.skip(cur as int)),
        ));
        assert(acc.deep_view() + Seq::<AccountEntryV>::empty() =~= acc.deep_view());
    }
    Some((acc, cur))
}

fn take_storage_entries(b: &Vec<u8>, pos: usize, count: u64) -> (r: Option<
    (Vec<StorageEntry>, usize),
>)
    requires
        pos <= b@.len(),
    ensures
        match r {
            Some(p) => pos <= p.1 <= b@.len() && dec_storage_entries(
                b@.skip(pos as int),
                count as nat,
            ) == Some((p.0.deep_view(), b@.skip(p.1 as int))),
            None => dec_storage_entries(b@.skip(pos as int), count as nat) is None,
        },
{
    let mut acc: Vec<StorageEntry> = Vec::new();
    let mut cur: usize = pos;
    let mut i: u64 = 0;
    proof {
        assert(acc.deep_view() =~= Seq::<StorageEntryV>::empty());
    }
    while i < count
        invariant
            i <= count,
            pos <= cur <= b@.len(),
            match dec_storage_entries(b@.skip(cur as int), (count - i) as nat) {
                Some(q) => dec_storage_entries(b@.skip(pos as int), count as nat) == Some(
                    (acc.deep_view() + q.0, q.1),
                ),
                None => dec_storage_entries(b@.skip(pos as int), count as nat) is None,
            },
        decreases count - i,
    {
        let ghost old_dv = acc.deep_view();
        match take_storage_entry(b, cur) {
            Some((e, pn)) => {
                acc.push(e);
                proof {
                    assert(acc.deep_view() =~~= old_dv.push(e@));
                    match dec_storage_entries(b@.skip(pn as int), (count - i - 1) as nat) {
                        Some(q) => {
                            assert(old_dv.push(e@) + q.0 =~= old_dv + (seq![e@] + q.0));
                        },
                        None => {},
                    }
                }
                cur = pn;
            },
            None => {
                return None;
            },
        }
        i = i + 1;
    }
    proof {
        assert(dec_storage_entries(b@.skip(cur as int), 0) == Some(
            (Seq::<StorageEntryV>::empty(), b@.skip(cur as int)),
        ));
        assert(acc.deep_view() + Seq::<StorageEntryV>::empty() =~= acc.deep_view());
    }
    Some((acc, cur))
}

fn take_ancestor_entries(b: &Vec<u8>, pos: usize, count: u64) -> (r: Option<
    (Vec<AncestorEntry>, usize),
>)
    requires
        pos <= b@.len(),
    ensures
        match r {
            Some(p) => pos <= p.1 <= b@.len() && dec_ancestor_entries(
                b@.skip(pos as int),
                count as nat,
            ) == Some((p.0.deep_view(), b@.skip(p.1 as int))),
            None => dec_ancestor_entries(b@.skip(pos as int), count as nat) is None,
        },
{
    let mut acc: Vec<AncestorEntry> = Vec::new();
    let mut cur: usize = pos;
    let mut i: u64 = 0;
    proof {
        assert(acc.deep_view() =~= Seq::<AncestorEntryV>::empty());
    }
    while i < count
        invariant
            i <= count,
            pos <= cur <= b@.len(),
            match dec_ancestor_entries(b@.skip(cur as int), (count - i) as nat) {
                Some(q) => dec_ancestor_entries(b@.skip(pos as int), count as nat) == Some(
                    (acc.deep_view() + q.0, q.1),
                ),
                None => dec_ancestor_entries(b@.skip(pos as int), count as nat) is None,
            },
        decreases count - i,
    {
        let ghost old_dv = acc.deep_view();
        match take_ancestor_entry(b, cur) {
            Some((e, pn)) => {
                acc.push(e);
                proof {
                    assert(acc.deep_view() =~~= old_dv.push(e@));
                    match dec_ancestor_entries(b@.skip(pn as int), (count - i - 1) as nat) {
                        Some(q) => {
                            assert(old_dv.push(e@) + q.0 =~= old_dv + (seq![e@] + q.0));
                        },
                        None => {},
                    }
                }
                cur = pn;
            },
            None => {
                return None;
            },
        }
        i = i + 1;
    }
    proof {
        assert(dec_ancestor_entries(b@.skip(cur as int), 0) == Some(
            (Seq::<AncestorEntryV>::empty(), b@.skip(cur as int)),
        ));
        assert(acc.deep_view() + Seq::<AncestorEntryV>::empty() =~= acc.deep_view());
    }
    Some((acc, cur))
}

/// Deserializes a sketch from one blob; succeeds exactly when the
/// specification decoder does, on the same bytes.
pub fn decode_sketch(b: &Vec<u8>) -> (r: Option<StateSketch>)
    ensures
        match r {
            Some(s) => parse_sketch(b@) == Some(s@),
            None => parse_sketch(b@) is None,
        },
{
    if b.len() < HEADER_BYTES {
        return None;
    }
    let head = slice_to_vec(slice_subrange(b.as_slice(), 0, HEADER_BYTES));
    proof {
        assert(head@ =~= b@.subrange(0, HEADER_BYTES as int));
    }
    let header = match crate::encode::decode_header(&head) {
        Some(h) => h,
        None => {
            return None;
        },
    };
    let (block_hash, p1) = match take_bytes(b, HEADER_BYTES) {
        Some(p) => p,
        None => {
            return None;
        },
    };
    let (na, p2) = match take_u64(b, p1) {
        Some(p) => p,
        None => {
            return None;
        },
    };
    let (accounts, p3) = match take_account_entries(b, p2, na) {
        Some(p) => p,
        None => {
            return None;
        },
    };
    let (ns, p4) = match take_u64(b, p3) {
        Some(p) => p,
        None => {
            return None;
        },
    };
    let (storage, p5) = match take_storage_entries(b, p4, ns) {
        Some(p) => p,
        None => {
            return None;
        },
    };
    let (nn, p6) = match take_u64(b, p5) {
        Some(p) => p,
        None => {
            return None;
        },
    };
    let (ancestors, p7) = match take_ancestor_entries(b, p6, nn) {
        Some(p) => p,
        None => {
            return None;
        },
    };
    if p7 != b.len() {
        proof {
            assert(b@.skip(p7 as int).len() != 0);
        }
        return None;
    }
    let s = StateSketch { header, block_hash, accounts, storage, ancestors };
    proof {
        assert(b@.skip(p7 as int).len() == 0);
        assert(s@ =~= (StateSketchV {
            header: s.header@,
            block_hash: s.block_hash@,
            accounts: s.accounts.deep_view(),
            storage: s.storage.deep_view(),
            ancestors: s.ancestors.deep_view(),
        }));
    }
    Some(s)
}

} // verus!
