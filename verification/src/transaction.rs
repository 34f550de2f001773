//! Transactions: coinbase and standard variants, outputs, signed inputs.

use vstd::prelude::*;
use crate::codec::{self, tx_ok, str_ok};
use crate::hex::{hex_of, lemma_hex_of_ascii};
use crate::primitives::{self, sha256_of};
use crate::constants::REWARD;

verus! {

/// A reference to a prior output, authorized by an ECDSA signature.
#[derive(Debug, Clone, PartialEq)]
pub struct TXInput {
    /// Hex id of the transaction whose output is being spent.
    pub txid: String,
    /// Index of the spent output in that transaction's output list.
    pub vout: usize,
    /// Compact ECDSA signature over the signing pre-image.
    pub signature: Vec<u8>,
    /// Compressed public key whose hash must match the spent output's address.
    pub pubkey: Vec<u8>,
}

/// A transferable amount locked to the hash of a public key.
#[derive(Debug, Clone, PartialEq)]
pub struct TXOutput {
    pub value: u64,
    pub pubkey_hash: String,
}

/// A minting transaction: one output of value REWARD plus a random nonce that
/// makes its id unique.
#[derive(Debug, Clone, PartialEq)]
pub struct CoinbaseTX {
    pub outputs: Vec<TXOutput>,
    pub rand: u64,
}

/// A value-transfer transaction: inputs spending prior outputs, new outputs.
#[derive(Debug, Clone, PartialEq)]
pub struct StandardTX {
    pub outputs: Vec<TXOutput>,
    pub inputs: Vec<TXInput>,
}

/// A tagged transaction.
#[derive(Debug, Clone, PartialEq)]
pub enum TX {
    Coinbase(CoinbaseTX),
    Standard(StandardTX),
}

/// Mathematical model of a `TXInput`.
pub struct TXInputV {
    pub txid: Seq<char>,
    pub vout: usize,
    pub signature: Seq<u8>,
    pub pubkey: Seq<u8>,
}

/// Mathematical model of a `TXOutput`.
pub struct TXOutputV {
    pub value: u64,
    pub pubkey_hash: Seq<char>,
}

/// Mathematical model of a `CoinbaseTX`.
pub struct CoinbaseTXV {
    pub outputs: Seq<TXOutputV>,
    pub rand: u64,
}

/// Mathematical model of a `StandardTX`.
pub struct StandardTXV {
    pub outputs: Seq<TXOutputV>,
    pub inputs: Seq<TXInputV>,
}

/// Mathematical model of a `TX`.
pub enum TXV {
    Coinbase(CoinbaseTXV),
    Standard(StandardTXV),
}

impl View for TXInput {
    type V = TXInputV;

    open spec fn view(&self) -> TXInputV {
        TXInputV {
            txid: self.txid@,
            vout: self.vout,
            signature: self.signature@,
            pubkey: self.pubkey@,
        }
    }
}

impl View for TXOutput {
    type V = TXOutputV;

    open spec fn view(&self) -> TXOutputV {
        TXOutputV { value: self.value, pubkey_hash: self.pubkey_hash@ }
    }
}

/// The models of a list of outputs.
pub open spec fn view_outputs(s: Seq<TXOutput>) -> Seq<TXOutputV> {
    s.map_values(|o: TXOutput| o@)
}

/// The models of a list of inputs.
pub open spec fn view_inputs(s: Seq<TXInput>) -> Seq<TXInputV> {
    s.map_values(|i: TXInput| i@)
}

impl View for CoinbaseTX {
    type V = CoinbaseTXV;

    open spec fn view(&self) -> CoinbaseTXV {
        CoinbaseTXV { outputs: view_outputs(self.outputs@), rand: self.rand }
    }
}

impl View for StandardTX {
    type V = StandardTXV;

    open spec fn view(&self) -> StandardTXV {
        StandardTXV { outputs: view_outputs(self.outputs@), inputs: view_inputs(self.inputs@) }
    }
}

impl View for TX {
    type V = TXV;

    open spec fn view(&self) -> TXV {
        match *self {
            TX::Coinbase(ref c) => TXV::Coinbase(c@),
            TX::Standard(ref s) => TXV::Standard(s@),
        }
    }
}

/// The models of a list of transactions.
pub open spec fn view_txs(s: Seq<TX>) -> Seq<TXV> {
    s.map_values(|t: TX| t@)
}

/// The hashed payload of a transaction: the canonical bytes of the wrapped
/// record (the variant tag is not hashed).
pub open spec fn tx_payload(t: TXV) -> Seq<u8> {
    match t {
        TXV::Coinbase(c) => codec::canon_coinbase(c),
        TXV::Standard(s) => codec::canon_standard(s),
    }
}

/// The transaction id: hex SHA-256 of the payload.
#[verifier::opaque]
pub open spec fn tx_id_spec(t: TXV) -> Seq<char> {
    hex_of(sha256_of(tx_payload(t)))
}

/// The outputs of either transaction variant.
pub open spec fn tx_outputs_spec(t: TXV) -> Seq<TXOutputV> {
    match t {
        TXV::Coinbase(c) => c.outputs,
        TXV::Standard(s) => s.outputs,
    }
}

/// The ECDSA message for one input: the SHA-256 digest of the signing
/// pre-image, which binds the spent output's address and the spending
/// transaction's full output list.
#[verifier::opaque]
pub open spec fn sign_msg(pubkey_hash: Seq<char>, outputs: Seq<TXOutputV>) -> Seq<u8> {
    sha256_of(codec::canon_txdata(pubkey_hash, outputs))
}

impl TX {
    /// The hex id of this transaction.
    pub fn id(&self) -> (r: String)
        requires
            tx_ok(self@),
        ensures
            r@ == tx_id_spec(self@),
            str_ok(r@),
    {
        let mut buf: Vec<u8> = Vec::new();
        codec::encode_tx_payload(&mut buf, self);
        proof {
            reveal(tx_id_spec);
            assert(buf@ =~= tx_payload(self@));
        }
        let d = primitives::sha256_digest(buf.as_slice());
        proof {
            lemma_hex_of_ascii(d@);
        }
        crate::hex::bytes_to_hex(d.as_slice())
    }

    /// The output list of either variant.
    pub fn outputs(&self) -> (r: &Vec<TXOutput>)
        ensures
            view_outputs(r@) == tx_outputs_spec(self@),
    {
        match self {
            TX::Coinbase(c) => &c.outputs,
            TX::Standard(s) => &s.outputs,
        }
    }
}

/// The SHA-256 digest of the signing pre-image for one spent output.
pub(crate) fn txdata_digest(pubkey_hash: &String, outputs: &Vec<TXOutput>) -> (r: Vec<u8>)
    requires
        str_ok(pubkey_hash@),
        codec::outputs_ok(view_outputs(outputs@)),
    ensures
        r@ == sign_msg(pubkey_hash@, view_outputs(outputs@)),
        r@.len() == 32,
{
    let mut buf: Vec<u8> = Vec::new();
    codec::encode_str(&mut buf, pubkey_hash.as_str());
    codec::encode_outputs(&mut buf, outputs);
    proof {
        reveal(sign_msg);
        assert(buf@ =~= codec::canon_txdata(pubkey_hash@, view_outputs(outputs@)));
    }
    primitives::sha256_digest(buf.as_slice())
}

impl CoinbaseTX {
    /// A minting transaction of value REWARD to `to`, with a random nonce
    /// that makes its id unique.
    pub fn new(to: String) -> (r: CoinbaseTX)
        requires
            str_ok(to@),
        ensures
            r@.outputs == seq![TXOutputV { value: REWARD, pubkey_hash: to@ }],
            codec::coinbase_ok(r@),
    {
        let out = TXOutput { value: REWARD, pubkey_hash: to };
        let mut outputs: Vec<TXOutput> = Vec::new();
        outputs.push(out);
        let rand = primitives::random_u64();
        let r = CoinbaseTX { outputs, rand };
        proof {
            assert(r@.outputs =~= seq![TXOutputV { value: REWARD, pubkey_hash: r.outputs@[0].pubkey_hash@ }]);
        }
        r
    }
}

impl TXOutput {
    /// An equal copy.
    pub fn duplicate(&self) -> (r: TXOutput)
        ensures
            r@ == self@,
    {
        TXOutput { value: self.value, pubkey_hash: self.pubkey_hash.clone() }
    }
}

impl TXInput {
    /// An equal copy.
    pub fn duplicate(&self) -> (r: TXInput)
        ensures
            r@ == self@,
    {
        TXInput {
            txid: self.txid.clone(),
            vout: self.vout,
            signature: vstd::slice::slice_to_vec(self.signature.as_slice()),
            pubkey: vstd::slice::slice_to_vec(self.pubkey.as_slice()),
        }
    }
}

/// An equal copy of an output list.
#[verifier::loop_isolation(false)]
fn duplicate_outputs(v: &Vec<TXOutput>) -> (r: Vec<TXOutput>)
    ensures
        view_outputs(r@) == view_outputs(v@),
{
    let n = v.len();
    let mut out: Vec<TXOutput> = Vec::new();
    let mut i: usize = 0;
    while i < n
        invariant
            i <= n,
            out@.len() == i,
            forall|j: int| 0 <= j < i ==> #[trigger] out@[j]@ == v@[j]@,
        decreases n - i,
    {
        out.push(v[i].duplicate());
        i = i + 1;
    }
    proof {
        assert(view_outputs(out@) =~= view_outputs(v@));
    }
    out
}

/// An equal copy of an input list.
#[verifier::loop_isolation(false)]
fn duplicate_inputs(v: &Vec<TXInput>) -> (r: Vec<TXInput>)
    ensures
        view_inputs(r@) == view_inputs(v@),
{
    let n = v.len();
    let mut out: Vec<TXInput> = Vec::new();
    let mut i: usize = 0;
    while i < n
        invariant
            i <= n,
            out@.len() == i,
            forall|j: int| 0 <= j < i ==> #[trigger] out@[j]@ == v@[j]@,
        decreases n - i,
    {
        out.push(v[i].duplicate());
        i = i + 1;
    }
    proof {
        assert(view_inputs(out@) =~= view_inputs(v@));
    }
    out
}

impl TX {
    /// An equal copy.
    pub fn duplicate(&self) -> (r: TX)
        ensures
            r@ == self@,
    {
        match self {
            TX::Coinbase(c) => TX::Coinbase(
                CoinbaseTX { outputs: duplicate_outputs(&c.outputs), rand: c.rand },
            ),
            TX::Standard(s) => TX::Standard(
                StandardTX {
                    outputs: duplicate_outputs(&s.outputs),
                    inputs: duplicate_inputs(&s.inputs),
                },
            ),
        }
    }
}

/// An equal copy of a transaction list.
#[verifier::loop_isolation(false)]
pub(crate) fn duplicate_txs(v: &Vec<TX>) -> (r: Vec<TX>)
    ensures
        view_txs(r@) == view_txs(v@),
{
    let n = v.len();
    let mut out: Vec<TX> = Vec::new();
    let mut i: usize = 0;
    while i < n
        invariant
            i <= n,
            out@.len() == i,
            forall|j: int| 0 <= j < i ==> #[trigger] out@[j]@ == v@[j]@,
        decreases n - i,
    {
        out.push(v[i].duplicate());
        i = i + 1;
    }
    proof {
        assert(view_txs(out@) =~= view_txs(v@));
    }
    out
}

// ===== authoring =====

/// The matching entries of one transaction's entry list, oldest first.
pub open spec fn row_matches(txid: Seq<char>, s: Seq<crate::utxo::UTXOEntryV>, a: Seq<char>) -> Seq<
    (Seq<char>, crate::utxo::UTXOEntryV),
>
    decreases s.len(),
{
    if s.len() == 0 {
        Seq::empty()
    } else {
        row_matches(txid, s.drop_last(), a) + (if s.last().output.pubkey_hash == a {
            seq![(txid, s.last())]
        } else {
            Seq::empty()
        })
    }
}

/// Every UTXO entry spendable by an address, in index order.
pub open spec fn matching_entries(
    m: Seq<(Seq<char>, Seq<crate::utxo::UTXOEntryV>)>,
    a: Seq<char>,
) -> Seq<(Seq<char>, crate::utxo::UTXOEntryV)>
    decreases m.len(),
{
    if m.len() == 0 {
        Seq::empty()
    } else {
        matching_entries(m.drop_last(), a) + row_matches(m.last().0, m.last().1, a)
    }
}

/// How many entries the greedy selector takes: it keeps accumulating while
/// the running total is not yet above the amount, so it takes one entry
/// beyond the threshold.
pub open spec fn sel_len(
    list: Seq<(Seq<char>, crate::utxo::UTXOEntryV)>,
    amount: u64,
    acc: nat,
) -> int
    decreases list.len(),
{
    if list.len() == 0 || acc > amount {
        0
    } else {
        1 + sel_len(list.drop_first(), amount, acc + list.first().1.output.value as nat)
    }
}

/// The total the greedy selector accumulates.
pub open spec fn sel_sum(
    list: Seq<(Seq<char>, crate::utxo::UTXOEntryV)>,
    amount: u64,
    acc: nat,
) -> nat
    decreases list.len(),
{
    if list.len() == 0 || acc > amount {
        acc
    } else {
        sel_sum(list.drop_first(), amount, acc + list.first().1.output.value as nat)
    }
}

/// The entries a wallet can spend, in UTXO index order.
pub open spec fn spend_candidates(chain: Seq<crate::block::BlockV>, pk: Seq<u8>) -> Seq<
    (Seq<char>, crate::utxo::UTXOEntryV),
> {
    matching_entries(crate::utxo::utxo_spec(chain), crate::wallet::address_of(pk))
}

/// The entries the greedy selector takes for a spend of `amount`.
pub open spec fn selected_entries(
    chain: Seq<crate::block::BlockV>,
    pk: Seq<u8>,
    amount: u64,
) -> Seq<(Seq<char>, crate::utxo::UTXOEntryV)> {
    spend_candidates(chain, pk).take(sel_len(spend_candidates(chain, pk), amount, 0))
}

/// The total of the selected entries.
pub open spec fn selected_total(chain: Seq<crate::block::BlockV>, pk: Seq<u8>, amount: u64) -> nat {
    sel_sum(spend_candidates(chain, pk), amount, 0)
}

/// The two outputs of an authored transfer: the payment, then the change
/// back to the spender (emitted even when zero).
pub open spec fn authored_outputs(
    chain: Seq<crate::block::BlockV>,
    w: crate::wallet::WalletV,
    to: Seq<char>,
    amount: u64,
) -> Seq<TXOutputV> {
    seq![
        TXOutputV { value: amount, pubkey_hash: to },
        TXOutputV {
            value: (selected_total(chain, w.public_key, amount) - amount) as u64,
            pubkey_hash: crate::wallet::address_of(w.public_key),
        },
    ]
}

/// The transfer a wallet authors: the two outputs, and one signed input per
/// selected prior output. Each signature binds the prior output's address
/// and the full new output list.
pub open spec fn authored_tx(
    chain: Seq<crate::block::BlockV>,
    w: crate::wallet::WalletV,
    to: Seq<char>,
    amount: u64,
) -> StandardTXV {
    let sel = selected_entries(chain, w.public_key, amount);
    let outs = authored_outputs(chain, w, to, amount);
    StandardTXV {
        outputs: outs,
        inputs: Seq::new(
            sel.len() as nat,
            |i: int| TXInputV {
                txid: sel[i].0,
                vout: sel[i].1.vout,
                signature: crate::primitives::ecdsa_sig_of(
                    sign_msg(sel[i].1.output.pubkey_hash, outs),
                    w.secret_key,
                ),
                pubkey: w.public_key,
            },
        ),
    }
}

impl StandardTX {
    /// Author a transfer of `amount` from `wallet` to `to`: select prior
    /// outputs greedily from the UTXO view, emit the payment and the change
    /// (even when zero), and sign each input. Fails exactly when the
    /// selector's total stays below the amount.
    #[verifier::loop_isolation(false)]
    #[verifier::rlimit(60)]
    pub fn new(bc: &crate::blockchain::Blockchain, wallet: &crate::wallet::Wallet, to: &str,
        amount: u64) -> (r: crate::error::LedgerResult<StandardTX>)
        requires
            crate::wallet::wallet_wf(wallet@),
            str_ok(to@),
        ensures
            match r {
                Ok(tx) => selected_total(bc@, wallet@.public_key, amount) >= amount && tx@
                    == authored_tx(bc@, wallet@, to@, amount) && codec::standard_ok(tx@),
                Err(e) => e == crate::error::Error::InsufficientFunds && selected_total(
                    bc@,
                    wallet@.public_key,
                    amount,
                ) < amount,
            },
    {
        let utxo = crate::utxo::find(bc);
        let ghost mv = crate::utxo::view_pairs(utxo@);
        let addr = crate::wallet::hash_public_key(&wallet.public_key);
        let ghost av = crate::wallet::address_of(wallet@.public_key);

        // Collect the spendable entries, index order.
        let mut list: Vec<(String, crate::utxo::UTXOEntry)> = Vec::new();
        let ghost lview = |l: Seq<(String, crate::utxo::UTXOEntry)>|
            l.map_values(|p: (String, crate::utxo::UTXOEntry)| (p.0@, p.1@));
        proof {
            assert(lview(list@) =~= Seq::<(Seq<char>, crate::utxo::UTXOEntryV)>::empty());
            assert(mv.take(0) =~= Seq::<(Seq<char>, Seq<crate::utxo::UTXOEntryV>)>::empty());
        }
        let n = utxo.len();
        let mut pi: usize = 0;
        while pi < n
            invariant
                pi <= n,
                n == mv.len(),
                mv == crate::utxo::view_pairs(utxo@),
                av == addr@,
                lview(list@) == matching_entries(mv.take(pi as int), av),
                forall|j: int|
                    0 <= j < list@.len() ==> str_ok((#[trigger] list@[j]).0@) && str_ok(
                        list@[j].1@.output.pubkey_hash,
                    ),
            decreases n - pi,
        {
            let entries = &utxo[pi].1;
            let ghost ev = crate::utxo::view_entries(entries@);
            let ghost row0 = lview(list@);
            proof {
                assert(mv.take(pi + 1).drop_last() =~= mv.take(pi as int));
                assert(mv.take(pi + 1).last() == mv[pi as int]);
                assert(mv[pi as int].0 == utxo@[pi as int].0@);
                assert(mv[pi as int].1 == ev);
                assert(ev.take(0) =~= Seq::<crate::utxo::UTXOEntryV>::empty());
            }
            let en = entries.len();
            let mut ei: usize = 0;
            while ei < en
                invariant
                    ei <= en,
                    en == ev.len(),
                    ev == crate::utxo::view_entries(entries@),
                    entries == &utxo@[pi as int].1,
                    pi < n,
                    av == addr@,
                    lview(list@) == row0 + row_matches(mv[pi as int].0, ev.take(ei as int), av),
                    forall|j: int|
                        0 <= j < list@.len() ==> str_ok((#[trigger] list@[j]).0@) && str_ok(
                            list@[j].1@.output.pubkey_hash,
                        ),
                decreases en - ei,
            {
                let ghost cur = lview(list@);
                proof {
                    assert(ev.take(ei + 1).drop_last() =~= ev.take(ei as int));
                    assert(ev.take(ei + 1).last() == ev[ei as int]);
                    assert(ev[ei as int] == entries@[ei as int]@);
                }
                if entries[ei].output.pubkey_hash == addr {
                    list.push((
                        utxo[pi].0.clone(),
                        crate::utxo::UTXOEntry {
                            vout: entries[ei].vout,
                            output: entries[ei].output.duplicate(),
                        },
                    ));
                    proof {
                        assert(lview(list@) =~= cur + seq![(mv[pi as int].0, ev[ei as int])]);
                    }
                } else {
                    proof {
                        assert(lview(list@) =~= cur + Seq::<
                            (Seq<char>, crate::utxo::UTXOEntryV),
                        >::empty());
                    }
                }
                ei = ei + 1;
            }
            proof {
                assert(ev.take(en as int) =~= ev);
            }
            pi = pi + 1;
        }
        proof {
            assert(mv.take(n as int) =~= mv);
        }
        let ghost lv = lview(list@);
        proof {
            assert(lv == spend_candidates(bc@, wallet@.public_key));
            assert(lv.skip(0) =~= lv);
        }

        // Greedy selection: accumulate while the total is not above amount.
        let ln = list.len();
        let mut k: usize = 0;
        let mut acc: u128 = 0;
        while k < ln && acc <= amount as u128
            invariant
                k <= ln,
                ln == lv.len(),
                lv == lview(list@),
                acc as nat <= amount as nat + u64::MAX as nat,
                sel_len(lv, amount, 0) == k + sel_len(lv.skip(k as int), amount, acc as nat),
                sel_sum(lv, amount, 0) == sel_sum(lv.skip(k as int), amount, acc as nat),
            decreases ln - k,
        {
            proof {
                assert(lv.skip(k as int).first() == lv[k as int]);
                assert(lv.skip(k as int).drop_first() =~= lv.skip(k + 1));
                assert(lv[k as int] == (list@[k as int].0@, list@[k as int].1@));
            }
            acc = acc + (list[k].1.output_value() as u128);
            k = k + 1;
        }
        proof {
            if k < ln {
                assert(acc as nat > amount as nat);
            } else {
                assert(lv.skip(k as int) =~= Seq::<(Seq<char>, crate::utxo::UTXOEntryV)>::empty());
            }
            assert(sel_len(lv.skip(k as int), amount, acc as nat) == 0);
            assert(sel_len(lv, amount, 0) == k as int);
            assert(sel_sum(lv, amount, 0) == acc as nat);
        }
        if acc < amount as u128 {
            return Err(crate::error::Error::InsufficientFunds);
        }
        let change = (acc - amount as u128) as u64;

        // The two outputs: payment, then change back to the spender.
        let mut outputs: Vec<TXOutput> = Vec::new();
        outputs.push(TXOutput { value: amount, pubkey_hash: to.to_owned() });
        outputs.push(TXOutput { value: change, pubkey_hash: addr.clone() });
        let ghost outs = authored_outputs(bc@, wallet@, to@, amount);
        proof {
            assert(view_outputs(outputs@) =~= outs);
        }

        // One signed input per selected entry.
        let mut inputs: Vec<TXInput> = Vec::new();
        let mut i: usize = 0;
        while i < k
            invariant
                i <= k <= ln,
                ln == lv.len(),
                lv == lview(list@),
                view_outputs(outputs@) == outs,
                codec::outputs_ok(outs),
                crate::wallet::wallet_wf(wallet@),
                inputs@.len() == i,
                forall|j: int|
                    0 <= j < i ==> #[trigger] inputs@[j]@ == (TXInputV {
                        txid: lv[j].0,
                        vout: lv[j].1.vout,
                        signature: crate::primitives::ecdsa_sig_of(
                            sign_msg(lv[j].1.output.pubkey_hash, outs),
                            wallet@.secret_key,
                        ),
                        pubkey: wallet@.public_key,
                    }),
            decreases k - i,
        {
            proof {
                assert(lv[i as int] == (list@[i as int].0@, list@[i as int].1@));
            }
            let msg = txdata_digest(&list[i].1.output.pubkey_hash, &outputs);
            let sig = crate::primitives::ecdsa_sign(msg.as_slice(), wallet.secret_key.as_slice());
            inputs.push(TXInput {
                txid: list[i].0.clone(),
                vout: list[i].1.vout,
                signature: sig,
                pubkey: vstd::slice::slice_to_vec(wallet.public_key.as_slice()),
            });
            i = i + 1;
        }
        let tx = StandardTX { outputs, inputs };
        proof {
            let sel = selected_entries(bc@, wallet@.public_key, amount);
            assert(sel =~= lv.take(k as int));
            assert(view_inputs(tx.inputs@) =~= authored_tx(bc@, wallet@, to@, amount).inputs);
            assert(tx@ == authored_tx(bc@, wallet@, to@, amount));
            vstd::std_specs::vec::axiom_spec_len(&tx.inputs);
            vstd::std_specs::vec::axiom_spec_len(&tx.outputs);
            assert forall|j: int| 0 <= j < tx@.inputs.len() implies codec::input_ok(
                #[trigger] tx@.inputs[j],
            ) by {
                assert(tx@.inputs[j] == tx.inputs@[j]@);
                vstd::std_specs::vec::axiom_spec_len(&tx.inputs@[j].signature);
                vstd::std_specs::vec::axiom_spec_len(&tx.inputs@[j].pubkey);
                assert(str_ok(lv[j].0));
            }
        }
        Ok(tx)
    }

    /// Verify every input of this transaction against the chain, reporting
    /// the first failure.
    pub fn verify(&self, bc: &crate::blockchain::Blockchain) -> (r: crate::error::LedgerResult<()>)
        requires
            codec::standard_ok(self@),
        ensures
            match r {
                Ok(()) => crate::blockchain::first_input_err(bc@, self@.outputs, self@.inputs)
                    is None,
                Err(e) => crate::blockchain::first_input_err(bc@, self@.outputs, self@.inputs)
                    == Some(e),
            },
    {
        bc.verify_standard(self)
    }
}

impl crate::utxo::UTXOEntry {
    /// The value of the wrapped output.
    pub fn output_value(&self) -> (r: u64)
        ensures
            r == self@.output.value,
    {
        self.output.value
    }
}

} // verus!
