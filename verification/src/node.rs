//! Node operations: authoring a transfer into the mempool, and mining the
//! next block out of it.

use vstd::prelude::*;
use crate::block::{Block, BlockV, meets_target};
use crate::blockchain::{Blockchain, first_input_err, tip_hash, validate_block_err,
    coinbase_count, first_tx_err};
use crate::codec::str_ok;
use crate::constants::REWARD;
use crate::error::{Error, LedgerResult};
use crate::mempool::{MemPool, has_id};
use crate::transaction::{CoinbaseTX, CoinbaseTXV, StandardTX, TX, TXV, TXOutputV, authored_tx,
    selected_total, tx_id_spec, view_txs};
use crate::wallet::{Wallets, lookup};

verus! {

/// Author a transfer of `amount` from the wallet stored under `from` to the
/// address `to`, and admit it to the mempool: unknown sender, insufficient
/// funds, and verification failures each report their error and leave the
/// pool unchanged; an already-queued id is a silent no-op.
pub fn send(
    mp: &mut MemPool,
    bc: &Blockchain,
    wallets: &Wallets,
    from: &str,
    to: &str,
    amount: u64,
) -> (r: LedgerResult<()>)
    requires
        str_ok(to@),
        old(mp)@.len() < u64::MAX,
    ensures
        match lookup(wallets@, from@) {
            None => r == Err::<(), Error>(Error::NoWalletForAddress) && final(mp)@ == old(mp)@,
            Some(w) => if selected_total(bc@, w.public_key, amount) < amount {
                r == Err::<(), Error>(Error::InsufficientFunds) && final(mp)@ == old(mp)@
            } else {
                let stx = authored_tx(bc@, w, to@, amount);
                match first_input_err(bc@, stx.outputs, stx.inputs) {
                    Some(e) => r == Err::<(), Error>(e) && final(mp)@ == old(mp)@,
                    None => r is Ok && final(mp)@ == (if has_id(
                        old(mp)@,
                        tx_id_spec(TXV::Standard(stx)),
                    ) {
                        old(mp)@
                    } else {
                        old(mp)@.push(TXV::Standard(stx))
                    }),
                }
            },
        },
{
    let from_wallet = match wallets.get(from) {
        None => {
            return Err(Error::NoWalletForAddress);
        },
        Some(w) => w,
    };
    let stx = match StandardTX::new(bc, from_wallet, to, amount) {
        Err(e) => {
            return Err(e);
        },
        Ok(stx) => stx,
    };
    let tx = TX::Standard(stx);
    mp.push(bc, tx)
}

/// Pop one pending transaction (if any), bundle it with a coinbase to
/// `reward_to`, mine, and append. The mempool loses its oldest entry either
/// way; a failed append leaves the chain unchanged; with an empty pool the
/// only possible failure is an exhausted nonce search.
#[verifier::rlimit(50)]
pub fn mine(mp: &mut MemPool, bc: &mut Blockchain, reward_to: &str) -> (r: LedgerResult<()>)
    requires
        str_ok(reward_to@),
        old(bc)@.len() < u64::MAX,
    ensures
        old(mp)@.len() == 0 ==> final(mp)@ == old(mp)@,
        old(mp)@.len() > 0 ==> final(mp)@ == old(mp)@.drop_first(),
        r is Ok ==> exists|b: BlockV, c: CoinbaseTXV|
            #![trigger meets_target(b), c.outputs]
            {
                &&& final(bc)@ == old(bc)@ + seq![b]
                &&& meets_target(b)
                &&& b.prev_block_hash == tip_hash(old(bc)@)
                &&& c.outputs == seq![TXOutputV { value: REWARD, pubkey_hash: reward_to@ }]
                &&& b.transactions == (if old(mp)@.len() == 0 {
                    seq![TXV::Coinbase(c)]
                } else {
                    seq![old(mp)@[0], TXV::Coinbase(c)]
                })
                &&& validate_block_err(old(bc)@, tip_hash(old(bc)@), b) is None
            },
        r is Err ==> final(bc)@ == old(bc)@,
        old(mp)@.len() == 0 && r is Err ==> r == Err::<(), Error>(Error::InvalidNonce),
{
    let mut s = String::new();
    s.append(reward_to);
    let cb = CoinbaseTX::new(s);
    let ghost cbv = cb@;
    let reward = TX::Coinbase(cb);
    let popped = mp.pop();
    let ghost poppedv = match &popped {
        Some(t) => Some::<TXV>(t@),
        None => None::<TXV>,
    };
    let mut txs: Vec<TX> = Vec::new();
    match popped {
        Some(t) => {
            txs.push(t);
        },
        None => {},
    }
    txs.push(reward);
    proof {
        if poppedv is Some {
            assert(view_txs(txs@) =~= seq![poppedv.unwrap(), TXV::Coinbase(cbv)]);
        } else {
            assert(view_txs(txs@) =~= seq![TXV::Coinbase(cbv)]);
        }
    }
    let ghost txsv = view_txs(txs@);
    match Block::mine(txs, bc.last_hash()) {
        None => Err(Error::InvalidNonce),
        Some(block) => {
            let ghost bv = block@;
            match bc.add_block(block) {
                Ok(()) => {
                    proof {
                        assert(bv.transactions == txsv);
                    }
                    Ok(())
                },
                Err(e) => {
                    proof {
                        if poppedv is None {
                            reveal(validate_block_err);
                            let e1 = seq![TXV::Coinbase(cbv)].drop_first();
                            assert(e1 =~= Seq::<TXV>::empty());
                            assert(coinbase_count(e1) == 0);
                            assert(seq![TXV::Coinbase(cbv)].first() == TXV::Coinbase(cbv));
                            assert(coinbase_count(bv.transactions) == 1);
                            assert(first_tx_err(old(bc)@, e1) is None);
                            assert(first_tx_err(old(bc)@, bv.transactions) is None);
                            assert(validate_block_err(old(bc)@, tip_hash(old(bc)@), bv)
                                is None);
                            assert(false);
                        }
                    }
                    Err(e)
                },
            }
        },
    }
}

} // verus!
