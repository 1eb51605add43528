//! The proof data model and the verification predicate: canonical leaf
//! values per transaction, the flattened leaf sequence of a proof, and the
//! two-level Merkle commitment a claimed block hash is checked against.

use vstd::prelude::*;
use vstd::string::StrSliceExecFns;
use vstd::utf8::encode_utf8;

use crate::digits::{
    dec_digits, dec_int, i32_to_dec, lemma_dec_digits_injective, lemma_dec_int_injective,
    u64_to_dec,
};
use crate::hashing::{merkle_root, merkle_root_of};

verus! {

/// A transaction named by a cross-chain transfer proof.
#[derive(Clone, Debug, PartialEq, Eq)]
pub enum Transaction {
    /// A transaction of which only the hash is known.
    Hash(String),
    /// A cross-chain transfer the verifier cares about.
    CrossChainTransfer { who: String, amount: i32, dest_chain_id: u8 },
}

/// A claimed commitment: the current block hash is asserted to commit to
/// the transactions on top of the previous block hash.
#[derive(Clone, Debug, PartialEq, Eq)]
pub struct Proof {
    pub prev_block_hash: Vec<u8>,
    pub block_hash: Vec<u8>,
    pub transactions: Vec<Transaction>,
}

/// The canonical leaf values of one transaction: the bare hash for a
/// hash-only transaction; the account, the canonical decimal amount and
/// the canonical decimal destination chain, in that order, for a transfer.
pub open spec fn tx_values(t: Transaction) -> Seq<Seq<char>> {
    match t {
        Transaction::Hash(h) => seq![h@],
        Transaction::CrossChainTransfer { who, amount, dest_chain_id } => seq![
            who@,
            dec_int(amount as int),
            dec_digits(dest_chain_id as nat),
        ],
    }
}

/// The flat leaf sequence of a transaction list: each transaction's
/// canonical values, concatenated in transaction order.
pub open spec fn leaves_of(txs: Seq<Transaction>) -> Seq<Seq<char>>
    decreases txs.len(),
{
    if txs.len() == 0 {
        Seq::empty()
    } else {
        leaves_of(txs.drop_last()) + tx_values(txs.last())
    }
}

/// The UTF-8 bytes of each leaf string, in order.
pub open spec fn utf8_leaves(ls: Seq<Seq<char>>) -> Seq<Seq<u8>> {
    ls.map_values(|l: Seq<char>| encode_utf8(l))
}

/// The block hash the commitment scheme assigns to a transaction list on
/// top of a previous block hash: the Merkle root over the previous hash
/// paired with the Merkle root of the canonical transaction leaves.
pub open spec fn expected_block_hash(prev: Seq<u8>, txs: Seq<Transaction>) -> Seq<u8> {
    merkle_root_of(seq![prev, merkle_root_of(utf8_leaves(leaves_of(txs)))])
}

/// A proof is valid exactly when its claimed block hash equals the hash
/// the commitment scheme computes from its own contents.
pub open spec fn spec_valid(p: Proof) -> bool {
    p.block_hash@ == expected_block_hash(p.prev_block_hash@, p.transactions@)
}

impl Transaction {
    /// The canonical string values of this transaction, in leaf order.
    pub fn values(&self) -> (r: Vec<String>)
        ensures
            r.deep_view() == tx_values(*self),
    {
        match self {
            Transaction::Hash(h) => {
                let mut r: Vec<String> = Vec::new();
                r.push(h.as_str().to_owned());
                proof {
                    assert(r.deep_view() =~= tx_values(*self));
                }
                r
            },
            Transaction::CrossChainTransfer { who, amount, dest_chain_id } => {
                let mut r: Vec<String> = Vec::new();
                r.push(who.as_str().to_owned());
                r.push(i32_to_dec(*amount));
                r.push(u64_to_dec(*dest_chain_id as u64));
                proof {
                    assert(r.deep_view() =~= tx_values(*self));
                }
                r
            },
        }
    }
}

/// Byte-for-byte equality of two byte vectors.
fn bytes_eq(a: &Vec<u8>, b: &Vec<u8>) -> (r: bool)
    ensures
        r == (a@ == b@),
{
    if a.len() != b.len() {
        return false;
    }
    let mut i: usize = 0;
    while i < a.len()
        invariant
            i <= a.len(),
            a.len() == b.len(),
            forall|k: int| 0 <= k < i ==> a@[k] == b@[k],
        decreases a.len() - i,
    {
        if a[i] != b[i] {
            return false;
        }
        i += 1;
    }
    proof {
        assert(a@ =~= b@);
    }
    true
}

impl Proof {
    /// The flat canonical leaf strings of this proof's transactions.
    fn transactions(&self) -> (r: Vec<String>)
        ensures
            r.deep_view() == leaves_of(self.transactions@),
    {
        let txs = &self.transactions;
        let mut r: Vec<String> = Vec::new();
        let mut i: usize = 0;
        while i < txs.len()
            invariant
                i <= txs.len(),
                r.deep_view() == leaves_of(txs@.take(i as int)),
            decreases txs.len() - i,
        {
            let mut vs = txs[i].values();
            let ghost prev = r.deep_view();
            let ghost vsd = vs.deep_view();
            r.append(&mut vs);
            proof {
                assert(r.deep_view() =~= prev + vsd);
                assert(txs@.take(i as int + 1).drop_last() =~= txs@.take(i as int));
                assert(txs@.take(i as int + 1).last() == txs@[i as int]);
            }
            i += 1;
        }
        proof {
            assert(txs@.take(txs@.len() as int) =~= txs@);
        }
        r
    }

    /// Checks whether this proof is valid: the claimed block hash must
    /// equal the root of the Merkle commitment built from the previous
    /// block hash and the canonical transaction leaves.
    pub fn is_valid(self) -> (r: bool)
        ensures
            r == spec_valid(self),
    {
        let strs = self.transactions();
        let mut leaves: Vec<Vec<u8>> = Vec::new();
        let mut i: usize = 0;
        while i < strs.len()
            invariant
                i <= strs.len(),
                leaves.deep_view() == utf8_leaves(strs.deep_view().take(i as int)),
            decreases strs.len() - i,
        {
            let ghost prevl = leaves.deep_view();
            let b = strs[i].as_str().as_bytes_vec();
            let ghost bd = b@;
            leaves.push(b);
            proof {
                let sd = strs.deep_view();
                assert(bd == encode_utf8(sd[i as int]));
                assert(leaves.deep_view() =~~= prevl.push(bd));
                assert(utf8_leaves(sd.take(i as int + 1)) =~~= utf8_leaves(
                    sd.take(i as int),
                ).push(encode_utf8(sd[i as int])));
            }
            i += 1;
        }
        proof {
            assert(strs.deep_view().take(strs@.len() as int) =~= strs.deep_view());
        }
        let tx_root = merkle_root(leaves);
        let mut meta: Vec<Vec<u8>> = Vec::new();
        let prev = self.prev_block_hash.clone();
        proof {
            assert(prev@ =~= self.prev_block_hash@);
        }
        meta.push(prev);
        meta.push(tx_root);
        proof {
            assert(meta.deep_view() =~~= seq![
                self.prev_block_hash@,
                merkle_root_of(utf8_leaves(leaves_of(self.transactions@))),
            ]);
        }
        let expected = merkle_root(meta);
        bytes_eq(&self.block_hash, &expected)
    }
}

/// A proof whose claimed block hash was computed by the commitment scheme
/// itself — the Merkle root over the previous block hash paired with the
/// root of the canonical transaction leaves — is always accepted.
pub proof fn lemma_computed_hash_accepted(p: Proof)
    requires
        p.block_hash@ == expected_block_hash(p.prev_block_hash@, p.transactions@),
    ensures
        spec_valid(p),
{
}

/// Validity is a pure function of the proof value: equal proofs validate
/// identically, so checking the same proof twice yields the same boolean.
pub proof fn lemma_is_valid_deterministic(p1: Proof, p2: Proof)
    requires
        p1 == p2,
    ensures
        spec_valid(p1) == spec_valid(p2),
{
}

/// A proof with no transactions is still decided: its expected hash is
/// the commitment over the previous hash and the root of zero leaves.
pub proof fn lemma_empty_transactions_defined(p: Proof)
    requires
        p.transactions@.len() == 0,
    ensures
        spec_valid(p) == (p.block_hash@ == merkle_root_of(
            seq![p.prev_block_hash@, merkle_root_of(Seq::empty())],
        )),
{
    assert(utf8_leaves(leaves_of(p.transactions@)) =~= Seq::empty());
}

/// Every field of a cross-chain transfer is committed in its leaves:
/// transfers that differ in the account, the amount or the destination
/// chain have different canonical value sequences.
pub proof fn lemma_transfer_fields_committed(
    who1: String,
    a1: i32,
    d1: u8,
    who2: String,
    a2: i32,
    d2: u8,
)
    requires
        who1@ != who2@ || a1 != a2 || d1 != d2,
    ensures
        tx_values(
            (Transaction::CrossChainTransfer { who: who1, amount: a1, dest_chain_id: d1 }),
        ) != tx_values(
            (Transaction::CrossChainTransfer { who: who2, amount: a2, dest_chain_id: d2 }),
        ),
{
    let v1 = tx_values(
        (Transaction::CrossChainTransfer { who: who1, amount: a1, dest_chain_id: d1 }),
    );
    let v2 = tx_values(
        (Transaction::CrossChainTransfer { who: who2, amount: a2, dest_chain_id: d2 }),
    );
    if v1 == v2 {
        assert(v1[0] == v2[0]);
        assert(v1[1] == v2[1]);
        assert(v1[2] == v2[2]);
        lemma_dec_int_injective(a1 as int, a2 as int);
        lemma_dec_digits_injective(d1 as nat, d2 as nat);
    }
}

/// The hash of a hash-only transaction is committed in its leaf.
pub proof fn lemma_hash_committed(h1: String, h2: String)
    requires
        h1@ != h2@,
    ensures
        tx_values(Transaction::Hash(h1)) != tx_values(Transaction::Hash(h2)),
{
    if tx_values(Transaction::Hash(h1)) == tx_values(Transaction::Hash(h2)) {
        assert(tx_values(Transaction::Hash(h1))[0] == tx_values(Transaction::Hash(h2))[0]);
    }
}

/// The transaction variant is committed: a hash-only transaction and a
/// cross-chain transfer never canonicalize to the same values.
pub proof fn lemma_variant_committed(h: String, who: String, amount: i32, dest_chain_id: u8)
    ensures
        tx_values(Transaction::Hash(h)) != tx_values(
            (Transaction::CrossChainTransfer { who, amount, dest_chain_id }),
        ),
{
    assert(tx_values(Transaction::Hash(h)).len() == 1);
    assert(tx_values((Transaction::CrossChainTransfer { who, amount, dest_chain_id })).len() == 3);
}

/// The flat leaf sequence of a proof is exactly the flattening of the
/// per-transaction canonical value groups, in transaction order.
pub proof fn lemma_leaves_of_is_flatten(txs: Seq<Transaction>)
    ensures
        leaves_of(txs) == txs.map_values(|t: Transaction| tx_values(t)).flatten(),
    decreases txs.len(),
{
    let m = txs.map_values(|t: Transaction| tx_values(t));
    m.lemma_flatten_and_flatten_alt_are_equivalent();
    if txs.len() == 0 {
        assert(m =~= Seq::<Seq<Seq<char>>>::empty());
    } else {
        lemma_leaves_of_is_flatten(txs.drop_last());
        assert(txs.drop_last().map_values(|t: Transaction| tx_values(t)) =~= m.drop_last());
        assert(m.last() == tx_values(txs.last()));
        assert(m.flatten_alt() == m.drop_last().flatten_alt() + m.last());
        m.drop_last().lemma_flatten_and_flatten_alt_are_equivalent();
    }
}

/// Every transaction is committed in the flat leaf sequence: perturbing
/// one transaction of the list, so that its canonical values change but
/// keep their count (as any change to a single field does), changes the
/// leaf sequence the Merkle commitment is built over.
pub proof fn lemma_perturbed_transaction_changes_leaves(
    txs1: Seq<Transaction>,
    txs2: Seq<Transaction>,
    i: int,
)
    requires
        txs1.len() == txs2.len(),
        0 <= i < txs1.len(),
        forall|k: int| 0 <= k < txs1.len() && k != i ==> txs1[k] == txs2[k],
        tx_values(txs1[i]) != tx_values(txs2[i]),
        tx_values(txs1[i]).len() == tx_values(txs2[i]).len(),
    ensures
        leaves_of(txs1) != leaves_of(txs2),
    decreases txs1.len(),
{
    let l1 = leaves_of(txs1);
    let l2 = leaves_of(txs2);
    if i == txs1.len() - 1 {
        assert(txs1.drop_last() =~= txs2.drop_last());
        let a = leaves_of(txs1.drop_last());
        let b = tx_values(txs1.last());
        let c = tx_values(txs2.last());
        if forall|j: int| 0 <= j < b.len() ==> b[j] == c[j] {
            assert(b =~= c);
        }
        let j = choose|j: int| 0 <= j < b.len() && b[j] != c[j];
        assert(l1[a.len() + j] == b[j]);
        assert(l2[a.len() + j] == c[j]);
    } else {
        lemma_perturbed_transaction_changes_leaves(txs1.drop_last(), txs2.drop_last(), i);
        let a1 = leaves_of(txs1.drop_last());
        let a2 = leaves_of(txs2.drop_last());
        let t = tx_values(txs1.last());
        assert(txs1.last() == txs2.last());
        assert(l1 == a1 + t);
        assert(l2 == a2 + t);
        if l1 == l2 {
            assert(a1.len() + t.len() == a2.len() + t.len());
            assert forall|k: int| 0 <= k < a1.len() implies a1[k] == a2[k] by {
                assert(l1[k] == a1[k]);
                assert(l2[k] == a2[k]);
            }
            assert(a1 =~= a2);
        }
    }
}

/// Perturbing the amount of one cross-chain transfer in a transaction
/// list, leaving everything else unchanged, changes the leaf sequence the
/// Merkle commitment is built over.
pub proof fn lemma_perturbed_amount_changes_leaves(
    txs1: Seq<Transaction>,
    txs2: Seq<Transaction>,
    i: int,
    who: String,
    a1: i32,
    a2: i32,
    d: u8,
)
    requires
        txs1.len() == txs2.len(),
        0 <= i < txs1.len(),
        forall|k: int| 0 <= k < txs1.len() && k != i ==> txs1[k] == txs2[k],
        txs1[i] == (Transaction::CrossChainTransfer { who, amount: a1, dest_chain_id: d }),
        txs2[i] == (Transaction::CrossChainTransfer { who, amount: a2, dest_chain_id: d }),
        a1 != a2,
    ensures
        leaves_of(txs1) != leaves_of(txs2),
{
    lemma_transfer_fields_committed(who, a1, d, who, a2, d);
    lemma_perturbed_transaction_changes_leaves(txs1, txs2, i);
}

/// Transaction lists whose canonical value groups have the same count at
/// every position produce equally many leaves.
proof fn lemma_leaves_len_eq(txs1: Seq<Transaction>, txs2: Seq<Transaction>)
    requires
        txs1.len() == txs2.len(),
        forall|k: int|
            0 <= k < txs1.len() ==> (#[trigger] tx_values(txs1[k])).len() == tx_values(
                txs2[k],
            ).len(),
    ensures
        leaves_of(txs1).len() == leaves_of(txs2).len(),
    decreases txs1.len(),
{
    if txs1.len() > 0 {
        assert forall|k: int|
            0 <= k < txs1.drop_last().len() implies (#[trigger] tx_values(
            txs1.drop_last()[k],
        )).len() == tx_values(txs2.drop_last()[k]).len() by {
            assert(txs1.drop_last()[k] == txs1[k]);
            assert(txs2.drop_last()[k] == txs2[k]);
        }
        lemma_leaves_len_eq(txs1.drop_last(), txs2.drop_last());
        assert(tx_values(txs1.last()).len() == tx_values(txs2.last()).len());
    }
}

/// Transaction order is committed in the leaves: swapping two
/// transactions whose canonical values differ but have the same count
/// (as any two distinct transactions of the same variant do) changes the
/// leaf sequence the Merkle commitment is built over.
pub proof fn lemma_swapped_transactions_change_leaves(txs: Seq<Transaction>, i: int, j: int)
    requires
        0 <= i < j < txs.len(),
        tx_values(txs[i]) != tx_values(txs[j]),
        tx_values(txs[i]).len() == tx_values(txs[j]).len(),
    ensures
        leaves_of(txs.update(i, txs[j]).update(j, txs[i])) != leaves_of(txs),
    decreases txs.len(),
{
    let swapped = txs.update(i, txs[j]).update(j, txs[i]);
    let l1 = leaves_of(txs);
    let l2 = leaves_of(swapped);
    if j == txs.len() - 1 {
        let p1 = txs.drop_last();
        let p2 = swapped.drop_last();
        assert(p2 =~= p1.update(i, txs[j]));
        lemma_perturbed_transaction_changes_leaves(p1, p2, i);
        let a1 = leaves_of(p1);
        let a2 = leaves_of(p2);
        assert forall|k: int|
            0 <= k < p1.len() implies (#[trigger] tx_values(p1[k])).len() == tx_values(
            p2[k],
        ).len() by {}
        lemma_leaves_len_eq(p1, p2);
        if forall|idx: int| 0 <= idx < a1.len() ==> a1[idx] == a2[idx] {
            assert(a1 =~= a2);
        }
        let idx = choose|idx: int| 0 <= idx < a1.len() && a1[idx] != a2[idx];
        assert(txs.last() == txs[j]);
        assert(swapped.last() == txs[i]);
        assert(l1[idx] == a1[idx]);
        assert(l2[idx] == a2[idx]);
    } else {
        assert(swapped.last() == txs.last());
        assert(swapped.drop_last() =~= txs.drop_last().update(i, txs[j]).update(j, txs[i]));
        lemma_swapped_transactions_change_leaves(txs.drop_last(), i, j);
        let a1 = leaves_of(txs.drop_last());
        let a2 = leaves_of(swapped.drop_last());
        let t = tx_values(txs.last());
        assert(l1 == a1 + t);
        assert(l2 == a2 + t);
        if l1 == l2 {
            assert(a1.len() + t.len() == a2.len() + t.len());
            assert forall|k: int| 0 <= k < a1.len() implies a1[k] == a2[k] by {
                assert(l1[k] == a1[k]);
                assert(l2[k] == a2[k]);
            }
            assert(a1 =~= a2);
        }
    }
}

/// Swapping two transactions with different canonical values changes the
/// sequence of per-transaction leaf groups, whatever their counts.
pub proof fn lemma_order_committed(txs: Seq<Transaction>, i: int, j: int)
    requires
        0 <= i < txs.len(),
        0 <= j < txs.len(),
        i != j,
        tx_values(txs[i]) != tx_values(txs[j]),
    ensures
        txs.update(i, txs[j]).update(j, txs[i]).map_values(|t: Transaction| tx_values(t))
            != txs.map_values(|t: Transaction| tx_values(t)),
{
    let swapped = txs.update(i, txs[j]).update(j, txs[i]);
    assert(swapped[i] == txs[j]);
    assert(swapped.map_values(|t: Transaction| tx_values(t))[i] == tx_values(txs[j]));
    assert(txs.map_values(|t: Transaction| tx_values(t))[i] == tx_values(txs[i]));
}

} // verus!
