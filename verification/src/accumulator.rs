use vstd::prelude::*;
use crate::hash::{keccak, keccak_of};
use crate::types::{bytes_eq, zero_word, zero_word_spec, WORD_BYTES};

verus! {

/// An inclusion proof for one leaf of the fact accumulator: the running
/// digest over everything before the leaf, and the digests of every leaf
/// after it. Recomputing the chain from these must land on the root.
pub struct InclusionProof {
    pub prefix: Vec<u8>,
    pub suffix: Vec<Vec<u8>>,
}

#[verifier::ext_equal]
pub struct InclusionProofV {
    pub prefix: Seq<u8>,
    pub suffix: Seq<Seq<u8>>,
}

impl View for InclusionProof {
    type V = InclusionProofV;

    open spec fn view(&self) -> InclusionProofV {
        InclusionProofV { prefix: self.prefix@, suffix: self.suffix.deep_view() }
    }
}

impl DeepView for InclusionProof {
    type V = InclusionProofV;

    open spec fn deep_view(&self) -> InclusionProofV {
        self@
    }
}

/// One chaining step: absorb a leaf digest into the running digest.
pub open spec fn chain_step(acc: Seq<u8>, digest: Seq<u8>) -> Seq<u8> {
    keccak_of(acc + digest)
}

/// Absorbs a sequence of leaf digests, left to right.
pub open spec fn chain_fold(acc: Seq<u8>, digests: Seq<Seq<u8>>) -> Seq<u8>
    decreases digests.len(),
{
    if digests.len() == 0 {
        acc
    } else {
        chain_fold(chain_step(acc, digests[0]), digests.drop_first())
    }
}

/// The root that commits to a sequence of leaves, each entering the
/// chain by its digest.
pub open spec fn root_of(leaves: Seq<Seq<u8>>) -> Seq<u8> {
    chain_fold(zero_word_spec(), leaves.map_values(|l: Seq<u8>| keccak_of(l)))
}

/// Whether an inclusion proof ties a leaf to a root.
pub open spec fn proof_checks(root: Seq<u8>, leaf: Seq<u8>, p: InclusionProofV) -> bool {
    chain_fold(chain_step(p.prefix, keccak_of(leaf)), p.suffix) == root
}

pub proof fn lemma_chain_fold_append(acc: Seq<u8>, s1: Seq<Seq<u8>>, s2: Seq<Seq<u8>>)
    ensures
        chain_fold(acc, s1 + s2) == chain_fold(chain_fold(acc, s1), s2),
    decreases s1.len(),
{
    if s1.len() == 0 {
        assert(s1 + s2 =~= s2);
    } else {
        assert((s1 + s2)[0] == s1[0]);
        assert((s1 + s2).drop_first() =~= s1.drop_first() + s2);
        lemma_chain_fold_append(chain_step(acc, s1[0]), s1.drop_first(), s2);
    }
}

/// Concatenates two byte vectors.
pub fn join(a: &Vec<u8>, b: &Vec<u8>) -> (r: Vec<u8>)
    ensures
        r@ == a@ + b@,
{
    let mut out: Vec<u8> = Vec::new();
    crate::encode::put_raw(&mut out, a);
    crate::encode::put_raw(&mut out, b);
    proof {
        assert(out@ =~= a@ + b@);
    }
    out
}

/// Checks an inclusion proof against a root; answers exactly as the
/// specification predicate does.
pub fn verify_inclusion(root: &Vec<u8>, leaf: &Vec<u8>, p: &InclusionProof) -> (r: bool)
    ensures
        r == proof_checks(root@, leaf@, p@),
{
    let ld = keccak(leaf);
    let start = keccak(&join(&p.prefix, &ld));
    let mut cur = start;
    let ghost suffix = p@.suffix;
    let mut i: usize = 0;
    proof {
        assert(suffix.subrange(0, suffix.len() as int) =~= suffix);
    }
    while i < p.suffix.len()
        invariant
            i <= suffix.len(),
            suffix == p@.suffix,
            p.suffix.deep_view() == suffix,
            chain_fold(cur@, suffix.subrange(i as int, suffix.len() as int)) == chain_fold(
                chain_step(p@.prefix, keccak_of(leaf@)),
                suffix,
            ),
        decreases suffix.len() - i,
    {
        let ghost rest = suffix.subrange(i as int, suffix.len() as int);
        let next = keccak(&join(&cur, &p.suffix[i]));
        proof {
            assert(p.suffix[i as int]@ == suffix[i as int]);
            assert(rest[0] == suffix[i as int]);
            assert(rest.drop_first() =~= suffix.subrange(i as int + 1, suffix.len() as int));
            assert(chain_fold(cur@, rest) == chain_fold(chain_step(cur@, rest[0]), rest.drop_first()));
        }
        cur = next;
        i = i + 1;
    }
    proof {
        assert(suffix.subrange(suffix.len() as int, suffix.len() as int) =~= Seq::<Seq<u8>>::empty());
    }
    bytes_eq(&cur, root)
}

/// Folds a full set of leaves into the root that commits to them.
pub fn commit_leaves(leaves: &Vec<Vec<u8>>) -> (root: Vec<u8>)
    ensures
        root@ == root_of(leaves.deep_view()),
{
    let ghost digests = leaves.deep_view().map_values(|l: Seq<u8>| keccak_of(l));
    let mut cur = zero_word();
    let mut i: usize = 0;
    proof {
        assert(digests.subrange(0, digests.len() as int) =~= digests);
    }
    while i < leaves.len()
        invariant
            i <= leaves@.len(),
            digests == leaves.deep_view().map_values(|l: Seq<u8>| keccak_of(l)),
            digests.len() == leaves@.len(),
            chain_fold(cur@, digests.subrange(i as int, digests.len() as int)) == root_of(
                leaves.deep_view(),
            ),
        decreases leaves@.len() - i,
    {
        let ghost rest = digests.subrange(i as int, digests.len() as int);
        let ld = keccak(&leaves[i]);
        let next = keccak(&join(&cur, &ld));
        proof {
            assert(leaves[i as int]@ == leaves.deep_view()[i as int]);
            assert(rest[0] == digests[i as int]);
            assert(digests[i as int] == keccak_of(leaves.deep_view()[i as int]));
            assert(rest.drop_first() =~= digests.subrange(i as int + 1, digests.len() as int));
        }
        cur = next;
        i = i + 1;
    }
    proof {
        assert(digests.subrange(digests.len() as int, digests.len() as int) =~= Seq::<
            Seq<u8>,
        >::empty());
    }
    cur
}

/// Builds the inclusion proof of one leaf; the proof it returns checks
/// against the root of the same leaf set.
pub fn prove_leaf(leaves: &Vec<Vec<u8>>, at: usize) -> (p: InclusionProof)
    requires
        at < leaves@.len(),
    ensures
        proof_checks(root_of(leaves.deep_view()), leaves.deep_view()[at as int], p@),
{
    let ghost digests = leaves.deep_view().map_values(|l: Seq<u8>| keccak_of(l));
    // running digest over the leaves before `at`
    let mut cur = zero_word();
    let mut i: usize = 0;
    while i < at
        invariant
            i <= at,
            at < leaves@.len(),
            digests == leaves.deep_view().map_values(|l: Seq<u8>| keccak_of(l)),
            digests.len() == leaves@.len(),
            cur@ == chain_fold(zero_word_spec(), digests.subrange(0, i as int)),
        decreases at - i,
    {
        let ld = keccak(&leaves[i]);
        let next = keccak(&join(&cur, &ld));
        proof {
            assert(leaves[i as int]@ == leaves.deep_view()[i as int]);
            let pre = digests.subrange(0, i as int);
            let one = seq![digests[i as int]];
            assert(digests.subrange(0, i as int + 1) =~= pre + one);
            lemma_chain_fold_append(zero_word_spec(), pre, one);
            assert(one.drop_first() =~= Seq::<Seq<u8>>::empty());
            assert(chain_fold(chain_step(cur@, one[0]), Seq::<Seq<u8>>::empty()) == chain_step(
                cur@,
                one[0],
            ));
            assert(chain_fold(cur@, one) == chain_step(cur@, digests[i as int]));
        }
        cur = next;
        i = i + 1;
    }
    // digests of the leaves after `at`
    let n = leaves.len();
    let mut suffix: Vec<Vec<u8>> = Vec::new();
    let mut j: usize = at + 1;
    while j < n
        invariant
            at < n,
            at + 1 <= j <= n,
            n == leaves@.len(),
            digests == leaves.deep_view().map_values(|l: Seq<u8>| keccak_of(l)),
            digests.len() == leaves@.len(),
            suffix.deep_view() == digests.subrange(at as int + 1, j as int),
        decreases n - j,
    {
        let ghost old_dv = suffix.deep_view();
        let ld = keccak(&leaves[j]);
        suffix.push(ld);
        proof {
            assert(leaves[j as int]@ == leaves.deep_view()[j as int]);
            assert(suffix.deep_view() =~~= old_dv.push(digests[j as int]));
            assert(old_dv.push(digests[j as int]) =~= digests.subrange(at as int + 1, j as int + 1));
        }
        j = j + 1;
    }
    let p = InclusionProof { prefix: cur, suffix };
    proof {
        let pre = digests.subrange(0, at as int);
        let one = seq![digests[at as int]];
        let post = digests.subrange(at as int + 1, digests.len() as int);
        assert(digests =~= pre + one + post);
        lemma_chain_fold_append(zero_word_spec(), pre + one, post);
        lemma_chain_fold_append(zero_word_spec(), pre, one);
        assert(one.drop_first() =~= Seq::<Seq<u8>>::empty());
        assert(chain_fold(chain_step(p@.prefix, one[0]), Seq::<Seq<u8>>::empty()) == chain_step(
            p@.prefix,
            one[0],
        ));
        assert(digests[at as int] == keccak_of(leaves.deep_view()[at as int]));
        assert(chain_fold(zero_word_spec(), pre + one) == chain_step(
            p@.prefix,
            keccak_of(leaves.deep_view()[at as int]),
        ));
    }
    p
}

} // verus!
