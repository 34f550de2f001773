//! The mempool: an ordered queue of admitted pending transactions with a
//! duplicate-id filter.

use vstd::prelude::*;
use crate::blockchain::{Blockchain, first_input_err};
use crate::codec::{self, tx_ok, txs_ok, fits_u64};
use crate::error::LedgerResult;
use crate::transaction::{TX, TXV, tx_id_spec, view_txs};

verus! {

/// Whether some queued transaction already carries the given id.
pub open spec fn has_id(s: Seq<TXV>, id: Seq<char>) -> bool {
    exists|i: int| 0 <= i < s.len() && tx_id_spec(#[trigger] s[i]) == id
}

/// No two queued transactions share an id.
pub open spec fn no_dup_ids(s: Seq<TXV>) -> bool {
    forall|i: int, j: int|
        0 <= i < j < s.len() ==> tx_id_spec(#[trigger] s[i]) != tx_id_spec(#[trigger] s[j])
}

/// Every queued transaction is encodable.
pub open spec fn mempool_txs_ok(s: Seq<TXV>) -> bool {
    forall|i: int| 0 <= i < s.len() ==> tx_ok(#[trigger] s[i])
}

/// The canonical snapshot of a mempool: just the queue; the id filter is
/// derived data and is rebuilt on load.
pub open spec fn canon_mempool(s: Seq<TXV>) -> Seq<u8> {
    codec::canon_txs(s)
}

/// The parse of a mempool snapshot: the whole input must be one transaction
/// list with pairwise-distinct ids.
pub open spec fn parse_mempool(b: Seq<u8>) -> Option<Seq<TXV>> {
    match codec::dec_txs(b) {
        Some((txs, p)) => if p == b.len() && no_dup_ids(txs) {
            Some(txs)
        } else {
            None
        },
        None => None,
    }
}

/// The queue of pending transactions, oldest first, with the set of their
/// ids alongside.
#[derive(Debug)]
pub struct MemPool {
    txs: Vec<TX>,
    tx_ids: Vec<String>,
}

impl View for MemPool {
    type V = Seq<TXV>;

    closed spec fn view(&self) -> Seq<TXV> {
        view_txs(self.txs@)
    }
}

impl MemPool {
    /// The id list mirrors the queue; ids are pairwise distinct; every
    /// queued transaction is encodable.
    #[verifier::type_invariant]
    spec fn inv(self) -> bool {
        &&& self.tx_ids@.len() == self@.len()
        &&& forall|i: int|
            0 <= i < self@.len() ==> (#[trigger] self.tx_ids@[i])@ == tx_id_spec(self@[i])
        &&& no_dup_ids(self@)
        &&& mempool_txs_ok(self@)
        &&& fits_u64(self@.len())
    }

    /// An empty pool.
    pub fn new() -> (r: MemPool)
        ensures
            r@ == Seq::<TXV>::empty(),
    {
        let r = MemPool { txs: Vec::new(), tx_ids: Vec::new() };
        proof {
            assert(r@ =~= Seq::<TXV>::empty());
        }
        r
    }

    /// The queued transactions, oldest first.
    pub fn pending(&self) -> (r: &Vec<TX>)
        ensures
            view_txs(r@) == self@,
            no_dup_ids(self@),
            mempool_txs_ok(self@),
    {
        proof {
            use_type_invariant(&*self);
        }
        &self.txs
    }

    /// Admit a transaction: a standard transaction must verify against the
    /// chain; a transaction whose id is already queued is silently ignored;
    /// anything else is appended.
    #[verifier::loop_isolation(false)]
    pub fn push(&mut self, bc: &Blockchain, tx: TX) -> (r: LedgerResult<()>)
        requires
            tx_ok(tx@),
            old(self)@.len() < u64::MAX,
        ensures
            match r {
                Ok(()) => (tx@ matches TXV::Standard(st) ==> first_input_err(
                    bc@,
                    st.outputs,
                    st.inputs,
                ) is None) && final(self)@ == if has_id(old(self)@, tx_id_spec(tx@)) {
                    old(self)@
                } else {
                    old(self)@.push(tx@)
                },
                Err(e) => final(self)@ == old(self)@ && (tx@ matches TXV::Standard(st)
                    && first_input_err(bc@, st.outputs, st.inputs) == Some(e)),
            },
            no_dup_ids(final(self)@),
    {
        proof {
            use_type_invariant(&*self);
        }
        match &tx {
            TX::Coinbase(_) => {},
            TX::Standard(st) => {
                match bc.verify_standard(st) {
                    Ok(()) => {},
                    Err(e) => {
                        return Err(e);
                    },
                }
            },
        }
        let id = tx.id();
        let ghost oldv = self@;
        let n = self.tx_ids.len();
        let mut i: usize = 0;
        while i < n
            invariant
                i <= n,
                forall|j: int| 0 <= j < i ==> (#[trigger] self.tx_ids@[j])@ != id@,
            decreases n - i,
        {
            if self.tx_ids[i] == id {
                proof {
                    assert(tx_id_spec(self@[i as int]) == tx_id_spec(tx@));
                    assert(has_id(oldv, tx_id_spec(tx@)));
                }
                return Ok(());
            }
            i = i + 1;
        }
        proof {
            assert forall|j: int| 0 <= j < oldv.len() implies tx_id_spec(#[trigger] oldv[j])
                != tx_id_spec(tx@) by {
                assert(self.tx_ids@[j]@ == tx_id_spec(oldv[j]));
            }
            assert(!has_id(oldv, tx_id_spec(tx@)));
        }
        let mut tmp = MemPool { txs: Vec::new(), tx_ids: Vec::new() };
        proof {
            assert(tmp@ =~= Seq::<TXV>::empty());
        }
        core::mem::swap(self, &mut tmp);
        let MemPool { mut txs, mut tx_ids } = tmp;
        txs.push(tx);
        tx_ids.push(id);
        proof {
            let newv = view_txs(txs@);
            assert(newv =~= oldv.push(tx@));
            assert forall|a: int, b: int| 0 <= a < b < newv.len() implies tx_id_spec(
                #[trigger] newv[a],
            ) != tx_id_spec(#[trigger] newv[b]) by {
                if b < oldv.len() {
                    assert(newv[a] == oldv[a] && newv[b] == oldv[b]);
                } else {
                    assert(newv[a] == oldv[a] && newv[b] == tx@);
                }
            }
        }
        let newmp = MemPool { txs, tx_ids };
        proof {
            assert(newmp@ =~= oldv.push(tx@));
        }
        *self = newmp;
        Ok(())
    }

    /// Remove and return the oldest pending transaction, and retire its id.
    pub fn pop(&mut self) -> (r: Option<TX>)
        ensures
            match r {
                None => old(self)@.len() == 0 && final(self)@ == old(self)@,
                Some(t) => old(self)@.len() > 0 && t@ == old(self)@[0] && final(self)@ == old(
                    self,
                )@.drop_first() && tx_ok(t@),
            },
            no_dup_ids(final(self)@),
    {
        proof {
            use_type_invariant(&*self);
        }
        if self.txs.len() == 0 {
            proof {
                assert(self@ =~= Seq::<TXV>::empty());
            }
            return None;
        }
        let ghost oldv = self@;
        let mut tmp = MemPool { txs: Vec::new(), tx_ids: Vec::new() };
        proof {
            assert(tmp@ =~= Seq::<TXV>::empty());
        }
        core::mem::swap(self, &mut tmp);
        let MemPool { mut txs, mut tx_ids } = tmp;
        let t = txs.remove(0);
        let _ = tx_ids.remove(0);
        proof {
            let newv = view_txs(txs@);
            assert(newv =~= oldv.drop_first());
            assert forall|j: int| 0 <= j < newv.len() implies (#[trigger] tx_ids@[j])@
                == tx_id_spec(newv[j]) by {
                assert(newv[j] == oldv[j + 1]);
            }
            assert forall|a: int, b: int| 0 <= a < b < newv.len() implies tx_id_spec(
                #[trigger] newv[a],
            ) != tx_id_spec(#[trigger] newv[b]) by {
                assert(newv[a] == oldv[a + 1] && newv[b] == oldv[b + 1]);
            }
        }
        let newmp = MemPool { txs, tx_ids };
        proof {
            assert(newmp@ =~= oldv.drop_first());
        }
        *self = newmp;
        Some(t)
    }

    /// The canonical snapshot of the queue.
    pub fn to_bytes(&self) -> (r: Vec<u8>)
        ensures
            r@ == canon_mempool(self@),
    {
        proof {
            use_type_invariant(&*self);
        }
        let mut buf: Vec<u8> = Vec::new();
        codec::encode_txs(&mut buf, &self.txs);
        proof {
            assert(buf@ =~= canon_mempool(self@));
        }
        buf
    }

    /// Parse a mempool snapshot, rebuilding the id filter; a snapshot that
    /// does not parse, has trailing bytes, or repeats an id is rejected.
    #[verifier::loop_isolation(false)]
    #[verifier::rlimit(50)]
    pub fn from_bytes(bytes: &[u8]) -> (r: Option<MemPool>)
        ensures
            match r {
                Some(mp) => parse_mempool(bytes@) == Some(mp@),
                None => parse_mempool(bytes@) is None,
            },
    {
        proof {
            assert(bytes@.skip(0) =~= bytes@);
        }
        let (txs, p) = match codec::decode_txs(bytes, 0) {
            None => {
                return None;
            },
            Some(x) => x,
        };
        if p != bytes.len() {
            return None;
        }
        let ghost txsv = view_txs(txs@);
        let n = txs.len();
        let mut tx_ids: Vec<String> = Vec::new();
        let mut i: usize = 0;
        while i < n
            invariant
                i <= n,
                n == txsv.len(),
                txsv == view_txs(txs@),
                txs_ok(txsv),
                tx_ids@.len() == i,
                forall|j: int| 0 <= j < i ==> (#[trigger] tx_ids@[j])@ == tx_id_spec(txsv[j]),
                forall|a: int, b: int|
                    0 <= a < b < i ==> tx_id_spec(#[trigger] txsv[a]) != tx_id_spec(
                        #[trigger] txsv[b],
                    ),
            decreases n - i,
        {
            proof {
                assert(txsv[i as int] == txs@[i as int]@);
            }
            let id = txs[i].id();
            let mut k: usize = 0;
            while k < i
                invariant
                    k <= i <= n,
                    id@ == tx_id_spec(txsv[i as int]),
                    forall|j: int| 0 <= j < i ==> (#[trigger] tx_ids@[j])@ == tx_id_spec(txsv[j]),
                    forall|j: int| 0 <= j < k ==> (#[trigger] tx_ids@[j])@ != id@,
                decreases i - k,
            {
                if tx_ids[k] == id {
                    proof {
                        assert(tx_id_spec(txsv[k as int]) == tx_id_spec(txsv[i as int]));
                        assert(!no_dup_ids(txsv));
                    }
                    return None;
                }
                k = k + 1;
            }
            proof {
                assert forall|a: int| 0 <= a < i implies tx_id_spec(#[trigger] txsv[a])
                    != tx_id_spec(txsv[i as int]) by {
                    assert(tx_ids@[a]@ == tx_id_spec(txsv[a]));
                    assert(tx_ids@[a]@ != id@);
                }
            }
            tx_ids.push(id);
            i = i + 1;
        }
        let mp = MemPool { txs, tx_ids };
        proof {
            assert(mp@ == txsv);
            assert(no_dup_ids(txsv));
        }
        Some(mp)
    }
}

/// The mempool snapshot round-trips: parsing the canonical serialization of
/// a well-formed queue yields the queue itself.
pub proof fn lemma_mempool_round_trip(s: Seq<TXV>)
    requires
        txs_ok(s),
        no_dup_ids(s),
    ensures
        parse_mempool(canon_mempool(s)) == Some(s),
{
    codec::lemma_dec_txs(s, Seq::empty());
    assert(canon_mempool(s) =~= codec::canon_txs(s) + Seq::<u8>::empty());
}

} // verus!
