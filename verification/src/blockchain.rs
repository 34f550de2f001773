//! The chain: an append-only sequence of proof-of-work blocks linked by
//! predecessor hashes, validated on every append and on load.

use vstd::prelude::*;
use crate::block::{Block, BlockV, view_blocks, block_hash_str, meets_target};
use crate::codec::{self, block_ok, blocks_ok, str_ok, fits_u64};
use crate::error::{Error, LedgerResult, LoadError};
use crate::transaction::{TX, TXInput, TXV, TXOutputV, TXInputV, tx_id_spec, tx_outputs_spec,
    sign_msg, view_txs, txdata_digest};
use crate::primitives::{ecdsa_verifies, ecdsa_verify};

verus! {

/// First transaction with the given id in a block's transaction list.
pub open spec fn find_in_txs(txs: Seq<TXV>, id: Seq<char>) -> Option<TXV>
    decreases txs.len(),
{
    if txs.len() == 0 {
        None
    } else if tx_id_spec(txs.first()) == id {
        Some(txs.first())
    } else {
        find_in_txs(txs.drop_first(), id)
    }
}

/// Look a transaction up by id, scanning blocks from the tip to genesis and
/// transactions in block order.
pub open spec fn find_tx_spec(chain: Seq<BlockV>, id: Seq<char>) -> Option<TXV>
    decreases chain.len(),
{
    if chain.len() == 0 {
        None
    } else {
        match find_in_txs(chain.last().transactions, id) {
            Some(t) => Some(t),
            None => find_tx_spec(chain.drop_last(), id),
        }
    }
}

/// The verification outcome for one input of a standard transaction with
/// output list `outputs`, against the chain.
pub open spec fn input_err(chain: Seq<BlockV>, outputs: Seq<TXOutputV>, x: TXInputV) -> Option<
    Error,
> {
    match find_tx_spec(chain, x.txid) {
        None => Some(Error::TransactionMissing),
        Some(pt) => if x.vout >= tx_outputs_spec(pt).len() {
            Some(Error::NoTXOutput)
        } else if !ecdsa_verifies(
            sign_msg(tx_outputs_spec(pt)[x.vout as int].pubkey_hash, outputs),
            x.signature,
            x.pubkey,
        ) {
            Some(Error::PubkeySignatureMismatch)
        } else {
            None
        },
    }
}

/// The first failing input of a standard transaction, if any.
pub open spec fn first_input_err(
    chain: Seq<BlockV>,
    outputs: Seq<TXOutputV>,
    inputs: Seq<TXInputV>,
) -> Option<Error>
    decreases inputs.len(),
{
    if inputs.len() == 0 {
        None
    } else {
        match input_err(chain, outputs, inputs.first()) {
            Some(e) => Some(e),
            None => first_input_err(chain, outputs, inputs.drop_first()),
        }
    }
}

/// A standard transaction is valid when every input verifies.
pub open spec fn standard_tx_valid(chain: Seq<BlockV>, t: crate::transaction::StandardTXV) -> bool {
    first_input_err(chain, t.outputs, t.inputs) is None
}

/// Number of coinbase transactions in a list.
pub open spec fn coinbase_count(txs: Seq<TXV>) -> int
    decreases txs.len(),
{
    if txs.len() == 0 {
        0
    } else {
        (match txs.first() {
            TXV::Coinbase(_) => 1int,
            TXV::Standard(_) => 0int,
        }) + coinbase_count(txs.drop_first())
    }
}

/// The first failing standard transaction's error in a block, if any.
pub open spec fn first_tx_err(chain: Seq<BlockV>, txs: Seq<TXV>) -> Option<Error>
    decreases txs.len(),
{
    if txs.len() == 0 {
        None
    } else {
        match txs.first() {
            TXV::Coinbase(_) => first_tx_err(chain, txs.drop_first()),
            TXV::Standard(st) => match first_input_err(chain, st.outputs, st.inputs) {
                Some(e) => Some(e),
                None => first_tx_err(chain, txs.drop_first()),
            },
        }
    }
}

/// The validation outcome of a block against an expected predecessor hash
/// and the chain it would extend: predecessor pointer, proof of work, at
/// most one coinbase, then every standard transaction in order.
#[verifier::opaque]
pub open spec fn validate_block_err(chain: Seq<BlockV>, prev: Seq<char>, b: BlockV) -> Option<
    Error,
> {
    if b.prev_block_hash != prev {
        Some(Error::InvalidPreviousHash)
    } else if !meets_target(b) {
        Some(Error::InvalidNonce)
    } else if coinbase_count(b.transactions) > 1 {
        Some(Error::TooManyCoinbase)
    } else {
        first_tx_err(chain, b.transactions)
    }
}

/// Expected predecessor hash of the block at index `i`.
pub open spec fn prev_of(chain: Seq<BlockV>, i: int) -> Seq<char> {
    if i == 0 {
        Seq::empty()
    } else {
        block_hash_str(chain[i - 1])
    }
}

/// Chain validity: every block validates against its predecessor and the
/// prefix of the chain before it.
#[verifier::opaque]
pub open spec fn chain_wf(chain: Seq<BlockV>) -> bool {
    forall|i: int|
        0 <= i < chain.len() ==> validate_block_err(
            chain.take(i),
            prev_of(chain, i),
            #[trigger] chain[i],
        ) is None
}

/// Every block of the chain is encodable.
pub open spec fn chain_encodable(chain: Seq<BlockV>) -> bool {
    blocks_ok(chain)
}

/// The hash of the tip block, or the empty string for an empty chain.
pub open spec fn tip_hash(chain: Seq<BlockV>) -> Seq<char> {
    if chain.len() == 0 {
        Seq::empty()
    } else {
        block_hash_str(chain.last())
    }
}

/// The first validation error found when validating the chain from genesis
/// to tip, if any.
pub open spec fn chain_first_err(chain: Seq<BlockV>) -> Option<Error>
    decreases chain.len(),
{
    if chain.len() == 0 {
        None
    } else {
        match chain_first_err(chain.drop_last()) {
            Some(e) => Some(e),
            None => validate_block_err(
                chain.drop_last(),
                prev_of(chain, chain.len() - 1),
                chain.last(),
            ),
        }
    }
}

/// The canonical serialization of a whole chain: the blocks from genesis to
/// tip, then the tip hash.
pub open spec fn canon_chain(chain: Seq<BlockV>) -> Seq<u8> {
    codec::canon_blocks(chain) + codec::canon_str(tip_hash(chain))
}

/// The parse of a chain snapshot: the block list and the recorded tip hash,
/// which must consume the whole input and agree with the recomputed tip.
#[verifier::opaque]
pub open spec fn parse_chain(b: Seq<u8>) -> Option<Seq<BlockV>> {
    match codec::dec_blocks(b) {
        Some((blocks, p)) => match codec::dec_str(b.subrange(p, b.len() as int)) {
            Some((last, q)) => if p + q == b.len() && last == tip_hash(blocks) {
                Some(blocks)
            } else {
                None
            },
            None => None,
        },
        None => None,
    }
}

/// The chain: a content-addressed store of blocks, held in order from
/// genesis to tip, plus the hash of the tip.
#[derive(Debug)]
pub struct Blockchain {
    blocks: Vec<Block>,
    last_block_hash: String,
}

impl View for Blockchain {
    type V = Seq<BlockV>;

    closed spec fn view(&self) -> Seq<BlockV> {
        view_blocks(self.blocks@)
    }
}

impl Blockchain {
    /// Every reachable chain value is valid, encodable, and has a tip hash
    /// consistent with its blocks.
    #[verifier::type_invariant]
    spec fn inv(self) -> bool {
        chain_wf(self@) && chain_encodable(self@) && self.last_block_hash@ == tip_hash(self@)
            && fits_u64(self@.len()) && str_ok(self.last_block_hash@)
    }

    /// A chain consisting of a mined genesis block holding one coinbase to
    /// `genesis_address`. Fails only if the proof-of-work search fails.
    #[verifier::rlimit(50)]
    pub fn new(genesis_address: &str) -> (r: LedgerResult<Blockchain>)
        requires
            str_ok(genesis_address@),
        ensures
            r matches Ok(bc) ==> {
                &&& bc@.len() == 1
                &&& chain_wf(bc@)
                &&& bc@[0].prev_block_hash == Seq::<char>::empty()
                &&& meets_target(bc@[0])
                &&& exists|c: crate::transaction::CoinbaseTXV|
                    bc@[0].transactions == seq![TXV::Coinbase(c)] && c.outputs == seq![
                        TXOutputV {
                            value: crate::constants::REWARD,
                            pubkey_hash: genesis_address@,
                        },
                    ]
            },
            r is Err ==> r == Err::<Blockchain, Error>(Error::InvalidNonce)
                && exists|c: crate::transaction::CoinbaseTXV, ts: i64|
                    c.outputs == seq![
                        TXOutputV {
                            value: crate::constants::REWARD,
                            pubkey_hash: genesis_address@,
                        },
                    ] && #[trigger] crate::block::no_nonce_meets(
                        ts,
                        seq![TXV::Coinbase(c)],
                        Seq::empty(),
                    ),
    {
        let mut s = String::new();
        s.append(genesis_address);
        let cb = crate::transaction::CoinbaseTX::new(s);
        let ghost cbv = cb@;
        let mut txs: Vec<TX> = Vec::new();
        txs.push(TX::Coinbase(cb));
        proof {
            assert(view_txs(txs@) =~= seq![TXV::Coinbase(cbv)]);
        }
        match Block::mine(txs, String::new()) {
            None => Err(Error::InvalidNonce),
            Some(genesis) => {
                let hash = genesis.hash();
                let ghost gv = genesis@;
                let mut blocks: Vec<Block> = Vec::new();
                blocks.push(genesis);
                proof {
                    reveal(chain_wf);
                    reveal(validate_block_err);
                    let c = view_blocks(blocks@);
                    assert(c =~= seq![gv]);
                    assert(c.take(0) =~= Seq::<BlockV>::empty());
                    assert(gv.transactions == seq![TXV::Coinbase(cbv)]);
                    let e = seq![TXV::Coinbase(cbv)].drop_first();
                    assert(e =~= Seq::<TXV>::empty());
                    assert(coinbase_count(e) == 0);
                    assert(seq![TXV::Coinbase(cbv)].first() == TXV::Coinbase(cbv));
                    assert(coinbase_count(gv.transactions) == 1);
                    assert(first_tx_err(c.take(0), e) is None);
                    assert(first_tx_err(c.take(0), gv.transactions) is None);
                    assert(validate_block_err(c.take(0), prev_of(c, 0), gv) is None);
                    assert forall|i: int| 0 <= i < c.len() implies codec::block_ok(
                        #[trigger] c[i],
                    ) by {
                        assert(c[i] == gv);
                    }
                    assert forall|i: int| 0 <= i < c.len() implies validate_block_err(
                        c.take(i),
                        prev_of(c, i),
                        #[trigger] c[i],
                    ) is None by {
                        assert(i == 0);
                    }
                    assert(tip_hash(c) == block_hash_str(gv));
                }
                let bc = Blockchain { blocks, last_block_hash: hash };
                proof {
                    assert(bc@ == view_blocks(blocks@));
                }
                Ok(bc)
            },
        }
    }

    /// The block list, from genesis to tip.
    pub fn blocks(&self) -> (r: &Vec<Block>)
        ensures
            view_blocks(r@) == self@,
            chain_wf(self@),
            chain_encodable(self@),
            fits_u64(self@.len()),
    {
        proof {
            use_type_invariant(&*self);
        }
        &self.blocks
    }

    /// The hash of the tip block.
    pub fn last_hash(&self) -> (r: String)
        ensures
            r@ == tip_hash(self@),
            str_ok(r@),
    {
        proof {
            use_type_invariant(&*self);
        }
        self.last_block_hash.clone()
    }

    /// The block with the given hash, if it is in the store.
    #[verifier::loop_isolation(false)]
    #[verifier::rlimit(30)]
    pub fn get_block(&self, hash: &str) -> (r: Option<&Block>)
        ensures
            match r {
                Some(b) => exists|i: int|
                    0 <= i < self@.len() && #[trigger] self@[i] == b@ && block_hash_str(self@[i])
                        == hash@,
                None => forall|i: int|
                    0 <= i < self@.len() ==> block_hash_str(#[trigger] self@[i]) != hash@,
            },
    {
        proof {
            use_type_invariant(&*self);
        }
        let h = hash.to_owned();
        let n = self.blocks.len();
        let mut i: usize = 0;
        while i < n
            invariant
                i <= n,
                n == self@.len(),
                forall|j: int| 0 <= j < i ==> block_hash_str(#[trigger] self@[j]) != hash@,
                chain_encodable(self@),
            decreases n - i,
        {
            proof {
                assert(self@[i as int] == self.blocks@[i as int]@);
                assert(block_ok(self@[i as int]));
            }
            let bh = self.blocks[i].hash();
            if bh == h {
                proof {
                    assert(block_hash_str(self@[i as int]) == hash@);
                }
                return Some(&self.blocks[i]);
            }
            i = i + 1;
        }
        None
    }

    /// Look a transaction up by id across the whole chain, newest block
    /// first.
    #[verifier::loop_isolation(false)]
    #[verifier::rlimit(20)]
    pub fn find_transaction(&self, txid: &str) -> (r: Option<&TX>)
        ensures
            match r {
                Some(t) => find_tx_spec(self@, txid@) == Some(t@),
                None => find_tx_spec(self@, txid@) is None,
            },
    {
        proof {
            use_type_invariant(&*self);
        }
        let id = txid.to_owned();
        let n = self.blocks.len();
        let mut bi: usize = n;
        proof {
            assert(self@.take(n as int) =~= self@);
        }
        while bi > 0
            invariant
                bi <= n,
                n == self@.len(),
                chain_encodable(self@),
                find_tx_spec(self@, txid@) == find_tx_spec(self@.take(bi as int), txid@),
            decreases bi,
        {
            bi = bi - 1;
            let ghost prefix = self@.take(bi + 1);
            let txs = &self.blocks[bi].transactions;
            let ghost txsv = view_txs(txs@);
            proof {
                assert(prefix.last() == self@[bi as int]);
                assert(prefix.drop_last() =~= self@.take(bi as int));
            }
            let m = txs.len();
            let mut ti: usize = 0;
            proof {
                assert(txsv.skip(0) =~= txsv);
            }
            while ti < m
                invariant
                    ti <= m,
                    m == txsv.len(),
                    bi < n,
                    n == self@.len(),
                    chain_encodable(self@),
                    txsv == view_txs(self.blocks@[bi as int].transactions@),
                    txs == &self.blocks[bi as int].transactions,
                    find_in_txs(txsv, txid@) == find_in_txs(txsv.skip(ti as int), txid@),
                decreases m - ti,
            {
                proof {
                    assert(codec::block_ok(self@[bi as int]));
                    assert(txsv[ti as int] == self.blocks@[bi as int].transactions@[ti as int]@);
                    assert(codec::tx_ok(txsv[ti as int]));
                }
                let tid = self.blocks[bi].transactions[ti].id();
                proof {
                    assert(txsv.skip(ti as int).first() == txsv[ti as int]);
                    assert(txsv.skip(ti as int).drop_first() =~= txsv.skip(ti + 1));
                }
                if tid == id {
                    proof {
                        assert(find_in_txs(txsv.skip(ti as int), txid@) == Some(
                            txsv[ti as int],
                        ));
                        assert(find_tx_spec(self@.take(bi + 1), txid@) == Some(txsv[ti as int]));
                    }
                    return Some(&self.blocks[bi].transactions[ti]);
                }
                ti = ti + 1;
            }
            proof {
                assert(txsv.skip(m as int) =~= Seq::<TXV>::empty());
                assert(find_in_txs(txsv, txid@) is None);
            }
        }
        proof {
            assert(self@.take(0int) =~= Seq::<BlockV>::empty());
        }
        None
    }

    /// Validate a candidate block against an expected predecessor hash and
    /// this chain, reporting the first failure.
    #[verifier::loop_isolation(false)]
    #[verifier::rlimit(20)]
    fn validate_block(&self, prev: &String, block: &Block) -> (r: LedgerResult<()>)
        requires
            block_ok(block@),
        ensures
            match r {
                Ok(()) => validate_block_err(self@, prev@, block@) is None,
                Err(e) => validate_block_err(self@, prev@, block@) == Some(e),
            },
    {
        proof {
            use_type_invariant(&*self);
            reveal(validate_block_err);
        }
        if !(block.prev_block_hash == *prev) {
            return Err(Error::InvalidPreviousHash);
        }
        if !block.check_proof_of_work() {
            return Err(Error::InvalidNonce);
        }
        let ghost txsv = view_txs(block.transactions@);
        let n = block.transactions.len();
        let mut count: u64 = 0;
        let mut ti: usize = 0;
        proof {
            assert(txsv.skip(0) =~= txsv);
        }
        while ti < n
            invariant
                ti <= n,
                n == txsv.len(),
                txsv == view_txs(block.transactions@),
                count <= ti,
                coinbase_count(txsv) == count + coinbase_count(txsv.skip(ti as int)),
            decreases n - ti,
        {
            proof {
                assert(txsv.skip(ti as int).first() == txsv[ti as int]);
                assert(txsv.skip(ti as int).drop_first() =~= txsv.skip(ti + 1));
                assert(txsv[ti as int] == block.transactions@[ti as int]@);
            }
            match &block.transactions[ti] {
                TX::Coinbase(_) => { count = count + 1; },
                TX::Standard(_) => {},
            }
            ti = ti + 1;
        }
        proof {
            assert(txsv.skip(n as int) =~= Seq::<TXV>::empty());
        }
        if count > 1 {
            return Err(Error::TooManyCoinbase);
        }
        let mut ti: usize = 0;
        proof {
            assert(txsv.skip(0) =~= txsv);
        }
        while ti < n
            invariant
                ti <= n,
                n == txsv.len(),
                txsv == view_txs(block.transactions@),
                codec::txs_ok(txsv),
                first_tx_err(self@, txsv) == first_tx_err(self@, txsv.skip(ti as int)),
            decreases n - ti,
        {
            proof {
                assert(txsv.skip(ti as int).first() == txsv[ti as int]);
                assert(txsv.skip(ti as int).drop_first() =~= txsv.skip(ti + 1));
                assert(txsv[ti as int] == block.transactions@[ti as int]@);
            }
            match &block.transactions[ti] {
                TX::Coinbase(_) => {},
                TX::Standard(st) => {
                    match self.verify_standard(st) {
                        Ok(()) => {},
                        Err(e) => {
                            return Err(e);
                        },
                    }
                },
            }
            ti = ti + 1;
        }
        proof {
            assert(txsv.skip(n as int) =~= Seq::<TXV>::empty());
        }
        Ok(())
    }

    /// Verify one input of a standard transaction with outputs `outputs`.
    fn verify_input(&self, outputs: &Vec<crate::transaction::TXOutput>, x: &TXInput) -> (r:
        LedgerResult<()>)
        requires
            codec::outputs_ok(crate::transaction::view_outputs(outputs@)),
        ensures
            match r {
                Ok(()) => input_err(self@, crate::transaction::view_outputs(outputs@), x@)
                    is None,
                Err(e) => input_err(self@, crate::transaction::view_outputs(outputs@), x@)
                    == Some(e),
            },
    {
        proof {
            use_type_invariant(&*self);
        }
        match self.find_transaction(x.txid.as_str()) {
            None => Err(Error::TransactionMissing),
            Some(pt) => {
                let pouts = pt.outputs();
                if x.vout >= pouts.len() {
                    return Err(Error::NoTXOutput);
                }
                let ghost ptv = find_tx_spec(self@, x.txid@).unwrap();
                proof {
                    lemma_find_tx_outputs_ok(self@, x.txid@);
                    assert(crate::transaction::view_outputs(pouts@)[x.vout as int]
                        == tx_outputs_spec(ptv)[x.vout as int]);
                }
                let msg = txdata_digest(&pouts[x.vout].pubkey_hash, outputs);
                if ecdsa_verify(msg.as_slice(), x.signature.as_slice(), x.pubkey.as_slice()) {
                    Ok(())
                } else {
                    Err(Error::PubkeySignatureMismatch)
                }
            },
        }
    }

    /// Verify every input of a standard transaction, reporting the first
    /// failure.
    #[verifier::loop_isolation(false)]
    pub(crate) fn verify_standard(&self, st: &crate::transaction::StandardTX) -> (r: LedgerResult<
        (),
    >)
        requires
            codec::standard_ok(st@),
        ensures
            match r {
                Ok(()) => first_input_err(self@, st@.outputs, st@.inputs) is None,
                Err(e) => first_input_err(self@, st@.outputs, st@.inputs) == Some(e),
            },
    {
        let ghost insv = st@.inputs;
        let n = st.inputs.len();
        let mut i: usize = 0;
        proof {
            assert(insv.skip(0) =~= insv);
        }
        while i < n
            invariant
                i <= n,
                n == insv.len(),
                insv == crate::transaction::view_inputs(st.inputs@),
                codec::outputs_ok(st@.outputs),
                first_input_err(self@, st@.outputs, insv) == first_input_err(
                    self@,
                    st@.outputs,
                    insv.skip(i as int),
                ),
            decreases n - i,
        {
            proof {
                assert(insv.skip(i as int).first() == insv[i as int]);
                assert(insv.skip(i as int).drop_first() =~= insv.skip(i + 1));
                assert(insv[i as int] == st.inputs@[i as int]@);
            }
            match self.verify_input(&st.outputs, &st.inputs[i]) {
                Ok(()) => {},
                Err(e) => {
                    return Err(e);
                },
            }
            i = i + 1;
        }
        proof {
            assert(insv.skip(n as int) =~= Seq::<TXInputV>::empty());
        }
        Ok(())
    }

    /// Validate a block against the current tip; on success append it and
    /// move the tip. A failed add leaves the chain unchanged.
    #[verifier::rlimit(50)]
    pub fn add_block(&mut self, block: Block) -> (r: LedgerResult<()>)
        requires
            block_ok(block@),
            old(self)@.len() < u64::MAX,
        ensures
            match r {
                Ok(()) => validate_block_err(old(self)@, tip_hash(old(self)@), block@) is None
                    && final(self)@ == old(self)@ + seq![block@],
                Err(e) => validate_block_err(old(self)@, tip_hash(old(self)@), block@) == Some(e)
                    && final(self)@ == old(self)@,
            },
    {
        proof {
            use_type_invariant(&*self);
        }
        let ghost oldv = self@;
        match self.validate_block(&self.last_block_hash.clone(), &block) {
            Err(e) => Err(e),
            Ok(()) => {
                let hash = block.hash();
                let ghost bv = block@;
                let vb: Vec<Block> = Vec::new();
                let es = String::new();
                proof {
                    reveal(chain_wf);
                    assert(view_blocks(vb@) =~= Seq::<BlockV>::empty());
                    assert(vstd::utf8::is_ascii_chars(es@));
                }
                let mut tmp = Blockchain { blocks: vb, last_block_hash: es };
                core::mem::swap(self, &mut tmp);
                let Blockchain { mut blocks, last_block_hash: _ } = tmp;
                blocks.push(block);
                proof {
                    let c = view_blocks(blocks@);
                    assert(c =~= oldv + seq![bv]);
                    lemma_chain_extend(oldv, bv);
                    assert(c.last() == bv);
                    assert(tip_hash(c) == block_hash_str(bv));
                    assert forall|i: int| 0 <= i < c.len() implies codec::block_ok(
                        #[trigger] c[i],
                    ) by {
                        if i < oldv.len() {
                            assert(c[i] == oldv[i]);
                        } else {
                            assert(c[i] == bv);
                        }
                    }
                }
                let newbc = Blockchain { blocks, last_block_hash: hash };
                proof {
                    assert(newbc@ =~= oldv + seq![bv]);
                }
                *self = newbc;
                Ok(())
            },
        }
    }

    /// The canonical snapshot of the whole chain.
    pub fn to_bytes(&self) -> (r: Vec<u8>)
        ensures
            r@ == canon_chain(self@),
    {
        proof {
            use_type_invariant(&*self);
        }
        let mut buf: Vec<u8> = Vec::new();
        codec::encode_blocks(&mut buf, &self.blocks);
        codec::encode_str(&mut buf, self.last_block_hash.as_str());
        proof {
            assert(buf@ =~= canon_chain(self@));
        }
        buf
    }


    /// Walk the chain from the tip to genesis, yielding each block's hash
    /// and an equal copy of the block.
    #[verifier::loop_isolation(false)]
    pub fn iter(&self) -> (r: IterBlockchain)
        ensures
            r@.len() == self@.len(),
            forall|k: int|
                0 <= k < self@.len() ==> #[trigger] r@[k] == (
                    block_hash_str(self@[self@.len() - 1 - k]),
                    self@[self@.len() - 1 - k],
                ),
    {
        proof {
            use_type_invariant(&*self);
        }
        let n = self.blocks.len();
        let mut items: Vec<(String, Block)> = Vec::new();
        let mut bi: usize = n;
        while bi > 0
            invariant
                bi <= n,
                items@.len() == n - bi,
                forall|k: int|
                    0 <= k < items@.len() ==> #[trigger] items@[k].0@ == block_hash_str(
                        self@[n - 1 - k],
                    ) && items@[k].1@ == self@[n - 1 - k],
            decreases bi,
        {
            bi = bi - 1;
            proof {
                assert(self@[bi as int] == self.blocks@[bi as int]@);
                assert(block_ok(self@[bi as int]));
            }
            let h = self.blocks[bi].hash();
            let b = self.blocks[bi].duplicate();
            items.push((h, b));
        }
        let r = IterBlockchain { items };
        proof {
            assert forall|k: int| 0 <= k < self@.len() implies #[trigger] r@[k] == (
                block_hash_str(self@[self@.len() - 1 - k]),
                self@[self@.len() - 1 - k],
            ) by {
                assert(r@[k].0 == items@[k].0@);
                assert(r@[k].1 == items@[k].1@);
            }
        }
        r
    }

    /// Parse a chain snapshot: the block list, the trailing tip hash, no
    /// trailing bytes, and a tip hash that matches the recomputed one.
    #[verifier::loop_isolation(false)]
    #[verifier::rlimit(100)]
    #[verifier::spinoff_prover]
    fn parse_snapshot(bytes: &[u8]) -> (r: Option<Vec<Block>>)
        ensures
            match r {
                None => parse_chain(bytes@) is None,
                Some(blocks) => parse_chain(bytes@) == Some(view_blocks(blocks@)) && blocks_ok(
                    view_blocks(blocks@),
                ),
            },
    {
        proof {
            reveal(parse_chain);
            assert(bytes@.skip(0) =~= bytes@);
        }
        let (blocks, p) = match codec::decode_blocks(bytes, 0) {
            None => {
                return None;
            },
            Some(x) => x,
        };
        let ghost bv = view_blocks(blocks@);
        let (last, q) = match codec::decode_string(bytes, p) {
            None => {
                proof {
                    assert(bytes@.skip(0).subrange(p as int, bytes@.len() as int) =~= bytes@.skip(
                        p as int,
                    ));
                }
                return None;
            },
            Some(x) => x,
        };
        proof {
            assert(bytes@.skip(0).subrange(p as int, bytes@.len() as int) =~= bytes@.skip(
                p as int,
            ));
        }
        if q != bytes.len() {
            return None;
        }
        let n = blocks.len();
        let tip = if n == 0 {
            String::new()
        } else {
            proof {
                assert(bv[n - 1] == blocks@[n - 1]@);
                assert(bv.last() == bv[n - 1]);
            }
            blocks[n - 1].hash()
        };
        if !(tip == last) {
            return None;
        }
        Some(blocks)
    }

    /// Parse and validate a chain snapshot. A snapshot that does not parse,
    /// has trailing bytes, or whose recorded tip hash does not match is
    /// corrupt; one whose blocks do not validate reports the first
    /// validation error.
    #[verifier::loop_isolation(false)]
    #[verifier::rlimit(100)]
    #[verifier::spinoff_prover]
    pub fn from_bytes(bytes: &[u8]) -> (r: Result<Blockchain, LoadError>)
        ensures
            match r {
                Ok(bc) => parse_chain(bytes@) == Some(bc@) && chain_first_err(bc@) is None,
                Err(LoadError::Corrupt) => parse_chain(bytes@) is None,
                Err(LoadError::Invalid(e)) => match parse_chain(bytes@) {
                    Some(bv) => chain_first_err(bv) == Some(e),
                    None => false,
                },
            },
    {
        let blocks = match Self::parse_snapshot(bytes) {
            None => {
                return Err(LoadError::Corrupt);
            },
            Some(x) => x,
        };
        let ghost bv = view_blocks(blocks@);
        let n = blocks.len();
        let vb: Vec<Block> = Vec::new();
        let es = String::new();
        proof {
            reveal(chain_wf);
            assert(view_blocks(vb@) =~= Seq::<BlockV>::empty());
            assert(vstd::utf8::is_ascii_chars(es@));
        }
        let mut bc = Blockchain { blocks: vb, last_block_hash: es };
        proof {
            assert(bc@ =~= Seq::<BlockV>::empty());
            assert(bv.take(0) =~= Seq::<BlockV>::empty());
            assert(bv.skip(0) =~= bv);
        }
        let mut rest = blocks;
        let mut i: usize = 0;
        while i < n
            invariant
                i <= n,
                n == bv.len(),
                view_blocks(rest@) == bv.skip(i as int),
                rest@.len() == n - i,
                blocks_ok(bv),
                bc@ == bv.take(i as int),
                chain_first_err(bv.take(i as int)) is None,
            decreases n - i,
        {
            proof {
                use_type_invariant(&bc);
                assert(bv.take(i + 1).drop_last() =~= bv.take(i as int));
                assert(bv.take(i + 1).last() == bv[i as int]);
                assert(rest@[0]@ == bv.skip(i as int)[0]);
                assert(bv.skip(i as int)[0] == bv[i as int]);
            }
            let ghost oldrest = rest@;
            let b = rest.remove(0);
            proof {
                assert forall|j: int| 0 <= j < rest@.len() implies #[trigger] rest@[j]@
                    == bv.skip(i + 1)[j] by {
                    assert(rest@[j] == oldrest[j + 1]);
                    assert(oldrest[j + 1]@ == view_blocks(oldrest)[j + 1]);
                    assert(bv.skip(i as int)[j + 1] == bv[i + 1 + j]);
                }
                assert(view_blocks(rest@) =~= bv.skip(i + 1));
            }
            match bc.add_block(b) {
                Ok(()) => {},
                Err(e) => {
                    proof {
                        assert(prev_of(bv.take(i + 1), i as int) == tip_hash(bv.take(i as int)));
                        assert(chain_first_err(bv.take(i + 1)) == Some(e));
                        lemma_chain_first_err_extends(bv, i + 1);
                    }
                    return Err(LoadError::Invalid(e));
                },
            }
            proof {
                assert(prev_of(bv.take(i + 1), i as int) == tip_hash(bv.take(i as int)));
                assert(bc@ =~= bv.take(i + 1));
            }
            i = i + 1;
        }
        proof {
            assert(bv.take(n as int) =~= bv);
        }
        Ok(bc)
    }
}


/// A walk of the chain from the tip back to genesis, yielding each block's
/// hash and the block.
pub struct IterBlockchain {
    items: Vec<(String, Block)>,
}

impl View for IterBlockchain {
    type V = Seq<(Seq<char>, BlockV)>;

    closed spec fn view(&self) -> Seq<(Seq<char>, BlockV)> {
        self.items@.map_values(|p: (String, Block)| (p.0@, p.1@))
    }
}

impl IterBlockchain {
    /// The next (hash, block) pair, tip first.
    pub fn next(&mut self) -> (r: Option<(String, Block)>)
        ensures
            match r {
                None => old(self)@.len() == 0 && final(self)@ == old(self)@,
                Some(p) => old(self)@.len() > 0 && p.0@ == old(self)@[0].0 && p.1@ == old(
                    self,
                )@[0].1 && final(self)@ == old(self)@.drop_first(),
            },
    {
        if self.items.len() == 0 {
            None
        } else {
            let ghost oldv = self.items@;
            let p = self.items.remove(0);
            proof {
                assert forall|j: int| 0 <= j < self.items@.len() implies #[trigger] self.items@[j]
                    == oldv[j + 1] by {}
                assert(self@ =~= old(self)@.drop_first());
            }
            Some(p)
        }
    }
}

/// A validation error in a prefix of the chain is the chain's first error.
proof fn lemma_chain_first_err_extends(chain: Seq<BlockV>, k: int)
    requires
        0 < k <= chain.len(),
        chain_first_err(chain.take(k)) is Some,
    ensures
        chain_first_err(chain) == chain_first_err(chain.take(k)),
    decreases chain.len() - k,
{
    if k == chain.len() {
        assert(chain.take(k) =~= chain);
    } else {
        assert(chain.take(k + 1).drop_last() =~= chain.take(k));
        assert(chain_first_err(chain.take(k + 1)) == chain_first_err(chain.take(k)));
        lemma_chain_first_err_extends(chain, k + 1);
    }
}

/// Appending a valid block to a valid chain keeps it valid.
proof fn lemma_chain_extend(chain: Seq<BlockV>, b: BlockV)
    requires
        chain_wf(chain),
        validate_block_err(chain, tip_hash(chain), b) is None,
    ensures
        chain_wf(chain + seq![b]),
{
    reveal(chain_wf);
    let c2 = chain + seq![b];
    assert forall|i: int| 0 <= i < c2.len() implies validate_block_err(
        c2.take(i),
        prev_of(c2, i),
        #[trigger] c2[i],
    ) is None by {
        if i < chain.len() {
            assert(c2.take(i) =~= chain.take(i));
            assert(c2[i] == chain[i]);
            assert(prev_of(c2, i) == prev_of(chain, i));
        } else {
            assert(c2.take(i) =~= chain);
            assert(c2[i] == b);
            assert(prev_of(c2, i) == tip_hash(chain));
        }
    }
}

/// The outputs of any transaction found in an encodable chain are encodable.
proof fn lemma_find_tx_outputs_ok(chain: Seq<BlockV>, id: Seq<char>)
    requires
        chain_encodable(chain),
    ensures
        match find_tx_spec(chain, id) {
            Some(t) => codec::tx_ok(t),
            None => true,
        },
    decreases chain.len(),
{
    if chain.len() != 0 {
        lemma_find_in_txs_ok(chain.last().transactions, id);
        assert(codec::block_ok(chain[chain.len() - 1]));
        assert(forall|j: int|
            0 <= j < chain.drop_last().len() ==> chain.drop_last()[j] == #[trigger] chain[j]);
        lemma_find_tx_outputs_ok(chain.drop_last(), id);
    }
}

proof fn lemma_find_in_txs_ok(txs: Seq<TXV>, id: Seq<char>)
    requires
        codec::txs_ok(txs),
    ensures
        match find_in_txs(txs, id) {
            Some(t) => codec::tx_ok(t),
            None => true,
        },
    decreases txs.len(),
{
    if txs.len() != 0 {
        assert(codec::tx_ok(txs[0]));
        assert(forall|j: int|
            0 <= j < txs.drop_first().len() ==> txs.drop_first()[j] == #[trigger] txs[j + 1]);
        lemma_find_in_txs_ok(txs.drop_first(), id);
    }
}

// ===== stated chain invariants =====

/// Every block of a valid chain meets the difficulty target.
pub proof fn lemma_chain_meets_target(chain: Seq<BlockV>)
    requires
        chain_wf(chain),
    ensures
        forall|i: int| 0 <= i < chain.len() ==> meets_target(#[trigger] chain[i]),
{
    reveal(chain_wf);
    reveal(validate_block_err);
    assert forall|i: int| 0 <= i < chain.len() implies meets_target(#[trigger] chain[i]) by {
        assert(validate_block_err(chain.take(i), prev_of(chain, i), chain[i]) is None);
    }
}

/// Every non-genesis block of a valid chain points at the hash of its
/// predecessor, and genesis points at the empty string.
pub proof fn lemma_chain_linked(chain: Seq<BlockV>)
    requires
        chain_wf(chain),
    ensures
        forall|i: int|
            0 < i < chain.len() ==> (#[trigger] chain[i]).prev_block_hash == block_hash_str(
                chain[i - 1],
            ),
        chain.len() > 0 ==> chain[0].prev_block_hash == Seq::<char>::empty(),
{
    reveal(chain_wf);
    reveal(validate_block_err);
    assert forall|i: int| 0 < i < chain.len() implies (#[trigger] chain[i]).prev_block_hash
        == block_hash_str(chain[i - 1]) by {
        assert(validate_block_err(chain.take(i), prev_of(chain, i), chain[i]) is None);
    }
    if chain.len() > 0 {
        assert(validate_block_err(chain.take(0), prev_of(chain, 0), chain[0]) is None);
    }
}

proof fn lemma_first_input_err_all(chain: Seq<BlockV>, outputs: Seq<TXOutputV>, inputs: Seq<
    TXInputV,
>)
    requires
        first_input_err(chain, outputs, inputs) is None,
    ensures
        forall|j: int| 0 <= j < inputs.len() ==> input_err(chain, outputs, #[trigger] inputs[j])
            is None,
    decreases inputs.len(),
{
    if inputs.len() != 0 {
        lemma_first_input_err_all(chain, outputs, inputs.drop_first());
        assert forall|j: int| 0 <= j < inputs.len() implies input_err(
            chain,
            outputs,
            #[trigger] inputs[j],
        ) is None by {
            if j > 0 {
                assert(inputs[j] == inputs.drop_first()[j - 1]);
            }
        }
    }
}

proof fn lemma_first_tx_err_all(chain: Seq<BlockV>, txs: Seq<TXV>)
    requires
        first_tx_err(chain, txs) is None,
    ensures
        forall|t: int|
            0 <= t < txs.len() ==> match #[trigger] txs[t] {
                TXV::Standard(st) => first_input_err(chain, st.outputs, st.inputs) is None,
                TXV::Coinbase(_) => true,
            },
    decreases txs.len(),
{
    if txs.len() != 0 {
        lemma_first_tx_err_all(chain, txs.drop_first());
        assert forall|t: int| 0 <= t < txs.len() implies match #[trigger] txs[t] {
            TXV::Standard(st) => first_input_err(chain, st.outputs, st.inputs) is None,
            TXV::Coinbase(_) => true,
        } by {
            if t > 0 {
                assert(txs[t] == txs.drop_first()[t - 1]);
            }
        }
    }
}

/// In a valid chain, every input of every standard transaction verifies:
/// the referenced transaction exists in the chain before the block, the
/// output index is in range, and the ECDSA signature verifies against the
/// signing pre-image built from the referenced output's address and the
/// transaction's own outputs.
pub proof fn lemma_chain_inputs_authorized(chain: Seq<BlockV>)
    requires
        chain_wf(chain),
    ensures
        forall|i: int, t: int, j: int|
            #![trigger chain[i].transactions[t]->Standard_0.inputs[j]]
            (0 <= i < chain.len() && 0 <= t < chain[i].transactions.len()
                && chain[i].transactions[t] is Standard && 0 <= j
                < chain[i].transactions[t]->Standard_0.inputs.len()) ==> input_err(
                chain.take(i),
                chain[i].transactions[t]->Standard_0.outputs,
                chain[i].transactions[t]->Standard_0.inputs[j],
            ) is None,
{
    reveal(chain_wf);
    reveal(validate_block_err);
    assert forall|i: int, t: int, j: int|
        #![trigger chain[i].transactions[t]->Standard_0.inputs[j]]
        (0 <= i < chain.len() && 0 <= t < chain[i].transactions.len()
            && chain[i].transactions[t] is Standard && 0 <= j
            < chain[i].transactions[t]->Standard_0.inputs.len()) implies input_err(
        chain.take(i),
        chain[i].transactions[t]->Standard_0.outputs,
        chain[i].transactions[t]->Standard_0.inputs[j],
    ) is None by {
        assert(validate_block_err(chain.take(i), prev_of(chain, i), chain[i]) is None);
        lemma_first_tx_err_all(chain.take(i), chain[i].transactions);
        let st = chain[i].transactions[t]->Standard_0;
        lemma_first_input_err_all(chain.take(i), st.outputs, st.inputs);
    }
}

/// The chain snapshot round-trips: parsing the canonical serialization of a
/// valid, encodable chain yields the chain itself.
#[verifier::rlimit(50)]
pub proof fn lemma_chain_round_trip(chain: Seq<BlockV>)
    requires
        chain_encodable(chain),
        fits_u64(chain.len()),
        fits_u64(tip_hash(chain).len()),
    ensures
        parse_chain(canon_chain(chain)) == Some(chain),
{
    reveal(parse_chain);
    let b = canon_chain(chain);
    codec::lemma_dec_blocks(chain, codec::canon_str(tip_hash(chain)));
    let p = codec::canon_blocks(chain).len() as int;
    assert(b.subrange(p, b.len() as int) =~= codec::canon_str(tip_hash(chain)));
    assert(codec::canon_str(tip_hash(chain)) =~= codec::canon_str(tip_hash(chain))
        + Seq::<u8>::empty());
    if chain.len() == 0 {
        assert(vstd::utf8::is_ascii_chars(tip_hash(chain)));
    } else {
        reveal(crate::block::block_hash_str);
        crate::hex::lemma_hex_of_ascii(crate::block::block_digest(chain.last()));
    }
    codec::lemma_dec_str(tip_hash(chain), Seq::empty());
    codec::lemma_canon_u64_len(tip_hash(chain).len() as u64);
    vstd::utf8::is_ascii_chars_encode_utf8(tip_hash(chain));
}

} // verus!
