//! The UTXO view: the set of outputs never referenced by any input, a pure
//! function of the chain, and the balances it induces.

use vstd::prelude::*;
use crate::block::BlockV;
use crate::blockchain::Blockchain;
use crate::codec::{str_ok, output_ok};
use crate::transaction::{TX, TXV, TXInputV, TXOutput, TXOutputV, tx_id_spec, tx_outputs_spec,
    view_txs};

verus! {

/// One unspent output: its index in the owning transaction, and the output.
#[derive(Debug, Clone, PartialEq)]
pub struct UTXOEntry {
    pub vout: usize,
    pub output: TXOutput,
}

/// Mathematical model of a `UTXOEntry`.
pub struct UTXOEntryV {
    pub vout: usize,
    pub output: TXOutputV,
}

impl View for UTXOEntry {
    type V = UTXOEntryV;

    open spec fn view(&self) -> UTXOEntryV {
        UTXOEntryV { vout: self.vout, output: self.output@ }
    }
}

/// The UTXO index: transaction id to its unspent entries.
pub type UTXO = Vec<(String, Vec<UTXOEntry>)>;

/// The models of an entry list.
pub open spec fn view_entries(s: Seq<UTXOEntry>) -> Seq<UTXOEntryV> {
    s.map_values(|e: UTXOEntry| e@)
}

/// The models of the whole index.
pub open spec fn view_pairs(s: Seq<(String, Vec<UTXOEntry>)>) -> Seq<(Seq<char>, Seq<UTXOEntryV>)> {
    s.map_values(|p: (String, Vec<UTXOEntry>)| (p.0@, view_entries(p.1@)))
}

/// Every key and output of the index is encodable.
pub open spec fn utxo_ok(m: Seq<(Seq<char>, Seq<UTXOEntryV>)>) -> bool {
    &&& forall|j: int| 0 <= j < m.len() ==> str_ok((#[trigger] m[j]).0)
    &&& forall|j: int, e: int|
        0 <= j < m.len() && 0 <= e < m[j].1.len() ==> output_ok((#[trigger] m[j].1[e]).output)
}

/// One fresh entry per output of a transaction, vout indices preserved.
pub open spec fn entries_of(t: TXV) -> Seq<UTXOEntryV> {
    Seq::new(
        tx_outputs_spec(t).len(),
        |i: int| UTXOEntryV { vout: i as usize, output: tx_outputs_spec(t)[i] },
    )
}

/// Whether the index already holds a key.
pub open spec fn has_key(m: Seq<(Seq<char>, Seq<UTXOEntryV>)>, k: Seq<char>) -> bool {
    exists|j: int| 0 <= j < m.len() && (#[trigger] m[j]).0 == k
}

/// First pass, one transaction: record its entry list under its id. The id
/// of the oldest transaction wins when ids collide, as in the original
/// hash-keyed store walked from the tip.
pub open spec fn insert_tx(m: Seq<(Seq<char>, Seq<UTXOEntryV>)>, t: TXV) -> Seq<
    (Seq<char>, Seq<UTXOEntryV>),
> {
    if has_key(m, tx_id_spec(t)) {
        m
    } else {
        m.push((tx_id_spec(t), entries_of(t)))
    }
}

/// First pass over a block's transactions, in block order.
pub open spec fn pass1_txs(m: Seq<(Seq<char>, Seq<UTXOEntryV>)>, txs: Seq<TXV>) -> Seq<
    (Seq<char>, Seq<UTXOEntryV>),
>
    decreases txs.len(),
{
    if txs.len() == 0 {
        m
    } else {
        pass1_txs(insert_tx(m, txs.first()), txs.drop_first())
    }
}

/// First pass over the chain, genesis to tip.
pub open spec fn pass1(m: Seq<(Seq<char>, Seq<UTXOEntryV>)>, chain: Seq<BlockV>) -> Seq<
    (Seq<char>, Seq<UTXOEntryV>),
>
    decreases chain.len(),
{
    if chain.len() == 0 {
        m
    } else {
        pass1(pass1_txs(m, chain.first().transactions), chain.drop_first())
    }
}

/// Remove every entry with the given vout from an entry list.
pub open spec fn drop_vout(s: Seq<UTXOEntryV>, vout: usize) -> Seq<UTXOEntryV>
    decreases s.len(),
{
    if s.len() == 0 {
        s
    } else {
        drop_vout(s.drop_last(), vout) + (if s.last().vout == vout {
            Seq::empty()
        } else {
            seq![s.last()]
        })
    }
}

/// Second pass, one input: remove the referenced output from the entry list
/// at the input's transaction id (a no-op if the id is absent, which cannot
/// happen in a valid chain).
pub open spec fn remove_ref(
    m: Seq<(Seq<char>, Seq<UTXOEntryV>)>,
    txid: Seq<char>,
    vout: usize,
) -> Seq<(Seq<char>, Seq<UTXOEntryV>)> {
    Seq::new(
        m.len(),
        |j: int| if m[j].0 == txid {
            (m[j].0, drop_vout(m[j].1, vout))
        } else {
            m[j]
        },
    )
}

/// Second pass over a standard transaction's inputs, in order.
pub open spec fn pass2_inputs(
    m: Seq<(Seq<char>, Seq<UTXOEntryV>)>,
    ins: Seq<TXInputV>,
) -> Seq<(Seq<char>, Seq<UTXOEntryV>)>
    decreases ins.len(),
{
    if ins.len() == 0 {
        m
    } else {
        pass2_inputs(remove_ref(m, ins.first().txid, ins.first().vout), ins.drop_first())
    }
}

/// Second pass, one transaction: coinbases spend nothing.
pub open spec fn pass2_tx(m: Seq<(Seq<char>, Seq<UTXOEntryV>)>, t: TXV) -> Seq<
    (Seq<char>, Seq<UTXOEntryV>),
> {
    match t {
        TXV::Coinbase(_) => m,
        TXV::Standard(st) => pass2_inputs(m, st.inputs),
    }
}

/// Second pass over a block's transactions, in block order.
pub open spec fn pass2_txs(m: Seq<(Seq<char>, Seq<UTXOEntryV>)>, txs: Seq<TXV>) -> Seq<
    (Seq<char>, Seq<UTXOEntryV>),
>
    decreases txs.len(),
{
    if txs.len() == 0 {
        m
    } else {
        pass2_txs(pass2_tx(m, txs.first()), txs.drop_first())
    }
}

/// Second pass over the chain, genesis to tip.
pub open spec fn pass2(m: Seq<(Seq<char>, Seq<UTXOEntryV>)>, chain: Seq<BlockV>) -> Seq<
    (Seq<char>, Seq<UTXOEntryV>),
>
    decreases chain.len(),
{
    if chain.len() == 0 {
        m
    } else {
        pass2(pass2_txs(m, chain.first().transactions), chain.drop_first())
    }
}

/// The UTXO view of a chain: record every transaction's outputs, then remove
/// every output referenced by an input.
pub open spec fn utxo_spec(chain: Seq<BlockV>) -> Seq<(Seq<char>, Seq<UTXOEntryV>)> {
    pass2(pass1(Seq::empty(), chain), chain)
}

/// An equal copy of an entry list.
#[verifier::loop_isolation(false)]
fn duplicate_entries(v: &Vec<UTXOEntry>) -> (r: Vec<UTXOEntry>)
    ensures
        view_entries(r@) == view_entries(v@),
{
    let n = v.len();
    let mut out: Vec<UTXOEntry> = Vec::new();
    let mut i: usize = 0;
    while i < n
        invariant
            i <= n,
            out@.len() == i,
            forall|j: int| 0 <= j < i ==> #[trigger] out@[j]@ == v@[j]@,
        decreases n - i,
    {
        out.push(UTXOEntry { vout: v[i].vout, output: v[i].output.duplicate() });
        i = i + 1;
    }
    proof {
        assert(view_entries(out@) =~= view_entries(v@));
    }
    out
}

/// The fresh entry list of a transaction.
#[verifier::loop_isolation(false)]
fn new_entries(tx: &TX) -> (r: Vec<UTXOEntry>)
    ensures
        view_entries(r@) == entries_of(tx@),
{
    let outs = tx.outputs();
    let n = outs.len();
    let mut out: Vec<UTXOEntry> = Vec::new();
    let mut i: usize = 0;
    while i < n
        invariant
            i <= n,
            n == tx_outputs_spec(tx@).len(),
            crate::transaction::view_outputs(outs@) == tx_outputs_spec(tx@),
            out@.len() == i,
            forall|j: int|
                0 <= j < i ==> #[trigger] out@[j]@ == entries_of(tx@)[j],
        decreases n - i,
    {
        proof {
            assert(outs@[i as int]@ == tx_outputs_spec(tx@)[i as int]);
        }
        out.push(UTXOEntry { vout: i, output: outs[i].duplicate() });
        i = i + 1;
    }
    proof {
        assert(view_entries(out@) =~= entries_of(tx@));
    }
    out
}

/// Record one transaction's outputs in the index (first pass step).
#[verifier::loop_isolation(false)]
fn apply_insert(m: &mut UTXO, tx: &TX)
    requires
        crate::codec::tx_ok(tx@),
    ensures
        view_pairs(final(m)@) == insert_tx(view_pairs(old(m)@), tx@),
        utxo_ok(view_pairs(old(m)@)) ==> utxo_ok(view_pairs(final(m)@)),
{
    let ghost mv = view_pairs(m@);
    let id = tx.id();
    let n = m.len();
    let mut i: usize = 0;
    while i < n
        invariant
            i <= n,
            n == mv.len(),
            mv == view_pairs(m@),
            id@ == tx_id_spec(tx@),
            forall|j: int| 0 <= j < i ==> (#[trigger] mv[j]).0 != id@,
        decreases n - i,
    {
        if m[i].0 == id {
            proof {
                assert(mv[i as int].0 == id@);
                assert(has_key(mv, tx_id_spec(tx@)));
            }
            return;
        }
        proof {
            assert(mv[i as int].0 == m@[i as int].0@);
        }
        i = i + 1;
    }
    proof {
        assert(!has_key(mv, tx_id_spec(tx@)));
    }
    let entries = new_entries(tx);
    let ghost oldm = m@;
    m.push((id, entries));
    proof {
        assert forall|j: int| 0 <= j < m@.len() implies #[trigger] view_pairs(m@)[j]
            == insert_tx(mv, tx@)[j] by {
            if j < oldm.len() {
                assert(m@[j] == oldm[j]);
            }
        }
        assert(view_pairs(m@) =~= insert_tx(mv, tx@));
        if utxo_ok(mv) {
            let r = view_pairs(m@);
            assert forall|j: int| 0 <= j < r.len() implies str_ok((#[trigger] r[j]).0) by {
                if j < oldm.len() {
                    assert(r[j] == mv[j]);
                }
            }
            assert forall|j: int, e: int|
                0 <= j < r.len() && 0 <= e < r[j].1.len() implies output_ok(
                (#[trigger] r[j].1[e]).output,
            ) by {
                if j < oldm.len() {
                    assert(r[j] == mv[j]);
                } else {
                    assert(r[j].1[e] == entries_of(tx@)[e]);
                    assert(crate::codec::outputs_ok(tx_outputs_spec(tx@)));
                }
            }
        }
    }
}

/// Remove one referenced output from the index (second pass step).
#[verifier::loop_isolation(false)]
fn apply_remove(m: &UTXO, txid: &String, vout: usize) -> (r: UTXO)
    ensures
        view_pairs(r@) == remove_ref(view_pairs(m@), txid@, vout),
        utxo_ok(view_pairs(m@)) ==> utxo_ok(view_pairs(r@)),
{
    let ghost mv = view_pairs(m@);
    let n = m.len();
    let mut out: UTXO = Vec::new();
    let mut i: usize = 0;
    while i < n
        invariant
            i <= n,
            n == mv.len(),
            mv == view_pairs(m@),
            out@.len() == i,
            forall|j: int|
                0 <= j < i ==> #[trigger] view_pairs(out@)[j] == remove_ref(mv, txid@, vout)[j],
        decreases n - i,
    {
        let ghost oldout = out@;
        if m[i].0 == *txid {
            let entries = &m[i].1;
            let ghost ev = view_entries(entries@);
            let en = entries.len();
            let mut kept: Vec<UTXOEntry> = Vec::new();
            let mut e: usize = 0;
            while e < en
                invariant
                    e <= en,
                    en == ev.len(),
                    ev == view_entries(entries@),
                    view_entries(kept@) == drop_vout(ev.take(e as int), vout),
                decreases en - e,
            {
                proof {
                    assert(ev.take(e + 1).drop_last() =~= ev.take(e as int));
                    assert(ev.take(e + 1).last() == ev[e as int]);
                    assert(ev[e as int] == entries@[e as int]@);
                }
                let ghost oldkept = view_entries(kept@);
                if entries[e].vout != vout {
                    kept.push(UTXOEntry {
                        vout: entries[e].vout,
                        output: entries[e].output.duplicate(),
                    });
                    proof {
                        assert(view_entries(kept@) =~= oldkept + seq![ev[e as int]]);
                    }
                } else {
                    proof {
                        assert(view_entries(kept@) =~= oldkept + Seq::<UTXOEntryV>::empty());
                    }
                }
                e = e + 1;
            }
            proof {
                assert(ev.take(en as int) =~= ev);
                assert(mv[i as int].0 == txid@);
            }
            out.push((m[i].0.clone(), kept));
            proof {
                assert forall|j: int| 0 <= j < out@.len() implies #[trigger] view_pairs(out@)[j]
                    == remove_ref(mv, txid@, vout)[j] by {
                    if j < oldout.len() {
                        assert(out@[j] == oldout[j]);
                        assert(view_pairs(out@)[j] == view_pairs(oldout)[j]);
                    } else {
                        assert(view_pairs(out@)[j].0 == mv[i as int].0);
                        assert(view_pairs(out@)[j].1 == drop_vout(mv[i as int].1, vout));
                        assert(remove_ref(mv, txid@, vout)[j] == (
                            mv[i as int].0,
                            drop_vout(mv[i as int].1, vout),
                        ));
                    }
                }
            }
        } else {
            proof {
                assert(mv[i as int].0 == m@[i as int].0@);
            }
            out.push((m[i].0.clone(), duplicate_entries(&m[i].1)));
            proof {
                assert forall|j: int| 0 <= j < out@.len() implies #[trigger] view_pairs(out@)[j]
                    == remove_ref(mv, txid@, vout)[j] by {
                    if j < oldout.len() {
                        assert(out@[j] == oldout[j]);
                        assert(view_pairs(out@)[j] == view_pairs(oldout)[j]);
                    } else {
                        assert(view_pairs(out@)[j].0 == mv[i as int].0);
                        assert(view_pairs(out@)[j].1 =~= mv[i as int].1);
                        assert(mv[i as int].0 != txid@);
                        assert(remove_ref(mv, txid@, vout)[j] == mv[i as int]);
                    }
                }
            }
        }
        i = i + 1;
    }
    proof {
        assert(view_pairs(out@) =~= remove_ref(mv, txid@, vout));
        let r = view_pairs(out@);
        if utxo_ok(mv) {
            assert forall|j: int| 0 <= j < r.len() implies str_ok((#[trigger] r[j]).0) by {
                assert(r[j] == remove_ref(mv, txid@, vout)[j]);
            }
            assert forall|j: int, e2: int|
                0 <= j < r.len() && 0 <= e2 < r[j].1.len() implies output_ok(
                (#[trigger] r[j].1[e2]).output,
            ) by {
                assert(r[j] == remove_ref(mv, txid@, vout)[j]);
                if mv[j].0 == txid@ {
                    lemma_drop_vout_sub(mv[j].1, vout, e2);
                    let k = choose|k: int|
                        0 <= k < mv[j].1.len() && #[trigger] mv[j].1[k] == r[j].1[e2];
                } else {
                    assert(r[j] == mv[j]);
                }
            }
        }
    }
    out
}

/// Every entry kept by `drop_vout` is one of the original entries.
proof fn lemma_drop_vout_sub(s: Seq<UTXOEntryV>, vout: usize, e: int)
    requires
        0 <= e < drop_vout(s, vout).len(),
    ensures
        exists|k: int| 0 <= k < s.len() && #[trigger] s[k] == drop_vout(s, vout)[e],
    decreases s.len(),
{
    if s.len() > 0 {
        let front = drop_vout(s.drop_last(), vout);
        if e < front.len() {
            lemma_drop_vout_sub(s.drop_last(), vout, e);
            let k = choose|k: int|
                0 <= k < s.drop_last().len() && #[trigger] s.drop_last()[k] == front[e];
            assert(s[k] == drop_vout(s, vout)[e]);
        } else {
            assert(s[s.len() - 1] == drop_vout(s, vout)[e]);
        }
    }
}

/// The UTXO view of the chain, computed per the two-pass definition.
#[verifier::loop_isolation(false)]
#[verifier::rlimit(60)]
pub fn find(bc: &Blockchain) -> (r: UTXO)
    ensures
        view_pairs(r@) == utxo_spec(bc@),
        utxo_ok(utxo_spec(bc@)),
{
    let blocks = bc.blocks();
    let ghost chainv = crate::block::view_blocks(blocks@);
    let n = blocks.len();
    let mut m: UTXO = Vec::new();
    proof {
        assert(view_pairs(m@) =~= Seq::<(Seq<char>, Seq<UTXOEntryV>)>::empty());
        assert(chainv.skip(0) =~= chainv);
        assert(utxo_ok(view_pairs(m@)));
    }
    let mut bi: usize = 0;
    while bi < n
        invariant
            bi <= n,
            n == chainv.len(),
            utxo_ok(view_pairs(m@)),
            pass1(view_pairs(m@), chainv.skip(bi as int)) == pass1(Seq::empty(), chainv),
        decreases n - bi,
    {
        let txs = &blocks[bi].transactions;
        let ghost txsv = view_txs(txs@);
        let ghost m0 = view_pairs(m@);
        proof {
            assert(chainv.skip(bi as int).first() == chainv[bi as int]);
            assert(chainv.skip(bi as int).drop_first() =~= chainv.skip(bi + 1));
            assert(chainv[bi as int] == blocks@[bi as int]@);
            assert(crate::codec::block_ok(chainv[bi as int]));
            assert(txsv.skip(0) =~= txsv);
        }
        let tn = txs.len();
        let mut ti: usize = 0;
        while ti < tn
            invariant
                ti <= tn,
                tn == txsv.len(),
                txsv == view_txs(txs@),
                txs == &blocks[bi as int].transactions,
                bi < n,
                crate::codec::txs_ok(txsv),
                utxo_ok(view_pairs(m@)),
                pass1_txs(view_pairs(m@), txsv.skip(ti as int)) == pass1_txs(m0, txsv),
            decreases tn - ti,
        {
            proof {
                assert(txsv.skip(ti as int).first() == txsv[ti as int]);
                assert(txsv.skip(ti as int).drop_first() =~= txsv.skip(ti + 1));
                assert(txsv[ti as int] == txs@[ti as int]@);
            }
            apply_insert(&mut m, &txs[ti]);
            ti = ti + 1;
        }
        proof {
            assert(txsv.skip(tn as int) =~= Seq::<TXV>::empty());
        }
        bi = bi + 1;
    }
    proof {
        assert(chainv.skip(n as int) =~= Seq::<BlockV>::empty());
        assert(view_pairs(m@) == pass1(Seq::empty(), chainv));
        assert(chainv.skip(0) =~= chainv);
    }
    let ghost p1 = view_pairs(m@);
    let mut bi: usize = 0;
    while bi < n
        invariant
            bi <= n,
            n == chainv.len(),
            utxo_ok(view_pairs(m@)),
            pass2(view_pairs(m@), chainv.skip(bi as int)) == pass2(p1, chainv),
        decreases n - bi,
    {
        let txs = &blocks[bi].transactions;
        let ghost txsv = view_txs(txs@);
        let ghost mb = view_pairs(m@);
        proof {
            assert(chainv.skip(bi as int).first() == chainv[bi as int]);
            assert(chainv.skip(bi as int).drop_first() =~= chainv.skip(bi + 1));
            assert(chainv[bi as int] == blocks@[bi as int]@);
            assert(txsv.skip(0) =~= txsv);
        }
        let tn = txs.len();
        let mut ti: usize = 0;
        while ti < tn
            invariant
                ti <= tn,
                tn == txsv.len(),
                txsv == view_txs(txs@),
                txs == &blocks[bi as int].transactions,
                bi < n,
                utxo_ok(view_pairs(m@)),
                pass2_txs(view_pairs(m@), txsv.skip(ti as int)) == pass2_txs(mb, txsv),
            decreases tn - ti,
        {
            proof {
                assert(txsv.skip(ti as int).first() == txsv[ti as int]);
                assert(txsv.skip(ti as int).drop_first() =~= txsv.skip(ti + 1));
                assert(txsv[ti as int] == txs@[ti as int]@);
            }
            match &txs[ti] {
                TX::Coinbase(_) => {},
                TX::Standard(st) => {
                    let ghost insv = crate::transaction::view_inputs(st.inputs@);
                    let ghost mt = view_pairs(m@);
                    proof {
                        assert(insv.skip(0) =~= insv);
                    }
                    let inn = st.inputs.len();
                    let mut ii: usize = 0;
                    while ii < inn
                        invariant
                            ii <= inn,
                            inn == insv.len(),
                            insv == crate::transaction::view_inputs(st.inputs@),
                            utxo_ok(view_pairs(m@)),
                            pass2_inputs(view_pairs(m@), insv.skip(ii as int)) == pass2_inputs(
                                mt,
                                insv,
                            ),
                        decreases inn - ii,
                    {
                        proof {
                            assert(insv.skip(ii as int).first() == insv[ii as int]);
                            assert(insv.skip(ii as int).drop_first() =~= insv.skip(ii + 1));
                            assert(insv[ii as int] == st.inputs@[ii as int]@);
                        }
                        let m2 = apply_remove(&m, &st.inputs[ii].txid, st.inputs[ii].vout);
                        m = m2;
                        ii = ii + 1;
                    }
                    proof {
                        assert(insv.skip(inn as int) =~= Seq::<TXInputV>::empty());
                        assert(view_pairs(m@) == pass2_tx(mt, txsv[ti as int]));
                    }
                },
            }
            ti = ti + 1;
        }
        proof {
            assert(txsv.skip(tn as int) =~= Seq::<TXV>::empty());
        }
        bi = bi + 1;
    }
    proof {
        assert(chainv.skip(n as int) =~= Seq::<BlockV>::empty());
    }
    m
}

// ===== balances =====

/// The models of an address list.
pub open spec fn view_strs(s: Seq<String>) -> Seq<Seq<char>> {
    s.map_values(|x: String| x@)
}

/// Append an address unless it is already listed.
pub open spec fn add_addr(acc: Seq<Seq<char>>, a: Seq<char>) -> Seq<Seq<char>> {
    if acc.contains(a) {
        acc
    } else {
        acc.push(a)
    }
}

/// The addresses named by an entry list, in order of first appearance.
pub open spec fn addrs_of_entries(acc: Seq<Seq<char>>, s: Seq<UTXOEntryV>) -> Seq<Seq<char>>
    decreases s.len(),
{
    if s.len() == 0 {
        acc
    } else {
        addrs_of_entries(add_addr(acc, s.first().output.pubkey_hash), s.drop_first())
    }
}

/// The addresses named anywhere in the index, in order of first appearance.
pub open spec fn addrs_of(acc: Seq<Seq<char>>, m: Seq<(Seq<char>, Seq<UTXOEntryV>)>) -> Seq<
    Seq<char>,
>
    decreases m.len(),
{
    if m.len() == 0 {
        acc
    } else {
        addrs_of(addrs_of_entries(acc, m.first().1), m.drop_first())
    }
}

/// The value an entry list holds for one address.
pub open spec fn entry_sum(s: Seq<UTXOEntryV>, a: Seq<char>) -> nat
    decreases s.len(),
{
    if s.len() == 0 {
        0
    } else {
        entry_sum(s.drop_last(), a) + if s.last().output.pubkey_hash == a {
            s.last().output.value as nat
        } else {
            0
        }
    }
}

/// The balance of one address over the whole index.
pub open spec fn balance_of(m: Seq<(Seq<char>, Seq<UTXOEntryV>)>, a: Seq<char>) -> nat
    decreases m.len(),
{
    if m.len() == 0 {
        0
    } else {
        balance_of(m.drop_last(), a) + entry_sum(m.last().1, a)
    }
}

/// A mathematical sum clamped into a u128.
pub open spec fn capped(n: nat) -> u128 {
    if n < u128::MAX as nat {
        n as u128
    } else {
        u128::MAX
    }
}

/// Saturating add of one output value.
fn sat_add(acc: u128, v: u64) -> (r: u128)
    ensures
        r == capped(acc as nat + v as nat),
{
    if acc > u128::MAX - (v as u128) {
        u128::MAX
    } else {
        acc + (v as u128)
    }
}

/// The balance of one address, clamped into a u128 (the clamp is reachable
/// only past 2^128 - 1, which no real chain approaches).
#[verifier::loop_isolation(false)]
fn balance_for(m: &UTXO, a: &String) -> (r: u128)
    ensures
        r == capped(balance_of(view_pairs(m@), a@)),
{
    let ghost mv = view_pairs(m@);
    let n = m.len();
    let mut acc: u128 = 0;
    proof {
        assert(mv.take(0) =~= Seq::<(Seq<char>, Seq<UTXOEntryV>)>::empty());
    }
    let mut pi: usize = 0;
    while pi < n
        invariant
            pi <= n,
            n == mv.len(),
            mv == view_pairs(m@),
            acc == capped(balance_of(mv.take(pi as int), a@)),
        decreases n - pi,
    {
        let entries = &m[pi].1;
        let ghost ev = view_entries(entries@);
        let ghost base = balance_of(mv.take(pi as int), a@);
        proof {
            assert(mv.take(pi + 1).drop_last() =~= mv.take(pi as int));
            assert(mv.take(pi + 1).last() == mv[pi as int]);
            assert(mv[pi as int].1 == ev);
            assert(ev.take(0) =~= Seq::<UTXOEntryV>::empty());
        }
        let en = entries.len();
        let mut ei: usize = 0;
        while ei < en
            invariant
                ei <= en,
                en == ev.len(),
                ev == view_entries(entries@),
                entries == &m@[pi as int].1,
                pi < n,
                acc == capped(base + entry_sum(ev.take(ei as int), a@)),
            decreases en - ei,
        {
            proof {
                assert(ev.take(ei + 1).drop_last() =~= ev.take(ei as int));
                assert(ev.take(ei + 1).last() == ev[ei as int]);
                assert(ev[ei as int] == entries@[ei as int]@);
            }
            if entries[ei].output.pubkey_hash == *a {
                let ghost x = base + entry_sum(ev.take(ei as int), a@);
                acc = sat_add(acc, entries[ei].output.value);
                proof {
                    assert(acc == capped(x + entries@[ei as int]@.output.value as nat));
                }
            }
            ei = ei + 1;
        }
        proof {
            assert(ev.take(en as int) =~= ev);
        }
        pi = pi + 1;
    }
    proof {
        assert(mv.take(n as int) =~= mv);
    }
    acc
}

/// The balance of every address with an entry in the UTXO view, in order of
/// first appearance; each balance is exact up to the u128 clamp.
#[verifier::loop_isolation(false)]
#[verifier::rlimit(50)]
pub fn get_balances(bc: &Blockchain) -> (r: Vec<(String, u128)>)
    ensures
        ({
            let u = utxo_spec(bc@);
            let addrs = addrs_of(Seq::empty(), u);
            &&& r@.len() == addrs.len()
            &&& forall|i: int|
                0 <= i < addrs.len() ==> (#[trigger] r@[i]).0@ == addrs[i] && r@[i].1 == capped(
                    balance_of(u, addrs[i]),
                )
        }),
{
    let m = find(bc);
    let ghost mv = view_pairs(m@);
    let n = m.len();
    let mut addrs: Vec<String> = Vec::new();
    proof {
        assert(view_strs(addrs@) =~= Seq::<Seq<char>>::empty());
        assert(mv.skip(0) =~= mv);
    }
    let mut pi: usize = 0;
    while pi < n
        invariant
            pi <= n,
            n == mv.len(),
            mv == view_pairs(m@),
            addrs_of(view_strs(addrs@), mv.skip(pi as int)) == addrs_of(Seq::empty(), mv),
        decreases n - pi,
    {
        let entries = &m[pi].1;
        let ghost ev = view_entries(entries@);
        let ghost a0 = view_strs(addrs@);
        proof {
            assert(mv.skip(pi as int).first() == mv[pi as int]);
            assert(mv.skip(pi as int).drop_first() =~= mv.skip(pi + 1));
            assert(mv[pi as int].1 == ev);
            assert(ev.skip(0) =~= ev);
        }
        let en = entries.len();
        let mut ei: usize = 0;
        while ei < en
            invariant
                ei <= en,
                en == ev.len(),
                ev == view_entries(entries@),
                entries == &m@[pi as int].1,
                pi < n,
                addrs_of_entries(view_strs(addrs@), ev.skip(ei as int)) == addrs_of_entries(
                    a0,
                    ev,
                ),
            decreases en - ei,
        {
            let ghost cur = view_strs(addrs@);
            proof {
                assert(ev.skip(ei as int).first() == ev[ei as int]);
                assert(ev.skip(ei as int).drop_first() =~= ev.skip(ei + 1));
                assert(ev[ei as int] == entries@[ei as int]@);
            }
            let a = &entries[ei].output.pubkey_hash;
            let an = addrs.len();
            let mut k: usize = 0;
            let mut found = false;
            while k < an
                invariant
                    k <= an,
                    an == cur.len(),
                    cur == view_strs(addrs@),
                    found ==> cur.contains(a@),
                    !found ==> forall|j: int| 0 <= j < k ==> #[trigger] cur[j] != a@,
                decreases an - k,
            {
                proof {
                    assert(cur[k as int] == addrs@[k as int]@);
                }
                if addrs[k] == *a {
                    found = true;
                    proof {
                        assert(cur[k as int] == a@);
                    }
                    break;
                }
                k = k + 1;
            }
            if !found {
                proof {
                    assert(!cur.contains(a@));
                }
                addrs.push(a.clone());
                proof {
                    assert(view_strs(addrs@) =~= cur.push(a@));
                }
            }
            proof {
                assert(view_strs(addrs@) == add_addr(cur, ev[ei as int].output.pubkey_hash));
            }
            ei = ei + 1;
        }
        proof {
            assert(ev.skip(en as int) =~= Seq::<UTXOEntryV>::empty());
        }
        pi = pi + 1;
    }
    proof {
        assert(mv.skip(n as int) =~= Seq::<(Seq<char>, Seq<UTXOEntryV>)>::empty());
    }
    let ghost alist = view_strs(addrs@);
    let an = addrs.len();
    let mut out: Vec<(String, u128)> = Vec::new();
    let mut i: usize = 0;
    while i < an
        invariant
            i <= an,
            an == alist.len(),
            alist == view_strs(addrs@),
            mv == view_pairs(m@),
            out@.len() == i,
            forall|j: int|
                0 <= j < i ==> (#[trigger] out@[j]).0@ == alist[j] && out@[j].1 == capped(
                    balance_of(mv, alist[j]),
                ),
        decreases an - i,
    {
        proof {
            assert(alist[i as int] == addrs@[i as int]@);
        }
        let b = balance_for(&m, &addrs[i]);
        out.push((addrs[i].clone(), b));
        i = i + 1;
    }
    out
}

// ===== the mining increment =====

/// No input of the list references the given transaction id.
pub open spec fn no_ref_in_inputs(ins: Seq<TXInputV>, id: Seq<char>) -> bool {
    forall|j: int| 0 <= j < ins.len() ==> (#[trigger] ins[j]).txid != id
}

/// No input of any transaction of the list references the id.
pub open spec fn no_ref_in_txs(txs: Seq<TXV>, id: Seq<char>) -> bool {
    forall|t: int|
        0 <= t < txs.len() ==> match #[trigger] txs[t] {
            TXV::Coinbase(_) => true,
            TXV::Standard(st) => no_ref_in_inputs(st.inputs, id),
        }
}

/// No input anywhere in the chain references the id.
pub open spec fn no_ref_in_chain(chain: Seq<BlockV>, id: Seq<char>) -> bool {
    forall|i: int| 0 <= i < chain.len() ==> no_ref_in_txs((#[trigger] chain[i]).transactions, id)
}

proof fn lemma_pass1_append(m: Seq<(Seq<char>, Seq<UTXOEntryV>)>, chain: Seq<BlockV>, b: BlockV)
    ensures
        pass1(m, chain + seq![b]) == pass1_txs(pass1(m, chain), b.transactions),
    decreases chain.len(),
{
    let s1 = chain + seq![b];
    if chain.len() == 0 {
        assert(s1.first() == b);
        assert(s1.drop_first() =~= Seq::<BlockV>::empty());
        assert(pass1(m, chain) == m);
        assert(pass1(pass1_txs(m, b.transactions), Seq::<BlockV>::empty()) == pass1_txs(
            m,
            b.transactions,
        ));
        assert(pass1(m, s1) == pass1(pass1_txs(m, s1.first().transactions), s1.drop_first()));
    } else {
        assert(s1.first() == chain.first());
        assert(s1.drop_first() =~= chain.drop_first() + seq![b]);
        lemma_pass1_append(pass1_txs(m, chain.first().transactions), chain.drop_first(), b);
    }
}

proof fn lemma_pass2_append(m: Seq<(Seq<char>, Seq<UTXOEntryV>)>, chain: Seq<BlockV>, b: BlockV)
    ensures
        pass2(m, chain + seq![b]) == pass2_txs(pass2(m, chain), b.transactions),
    decreases chain.len(),
{
    let s1 = chain + seq![b];
    if chain.len() == 0 {
        assert(s1.first() == b);
        assert(s1.drop_first() =~= Seq::<BlockV>::empty());
        assert(pass2(m, chain) == m);
        assert(pass2(pass2_txs(m, b.transactions), Seq::<BlockV>::empty()) == pass2_txs(
            m,
            b.transactions,
        ));
        assert(pass2(m, s1) == pass2(pass2_txs(m, s1.first().transactions), s1.drop_first()));
    } else {
        assert(s1.first() == chain.first());
        assert(s1.drop_first() =~= chain.drop_first() + seq![b]);
        lemma_pass2_append(pass2_txs(m, chain.first().transactions), chain.drop_first(), b);
    }
}

proof fn lemma_remove_ref_push(
    m: Seq<(Seq<char>, Seq<UTXOEntryV>)>,
    p: (Seq<char>, Seq<UTXOEntryV>),
    txid: Seq<char>,
    vout: usize,
)
    requires
        p.0 != txid,
    ensures
        remove_ref(m.push(p), txid, vout) == remove_ref(m, txid, vout).push(p),
{
    assert(remove_ref(m.push(p), txid, vout) =~= remove_ref(m, txid, vout).push(p));
}

proof fn lemma_pass2_inputs_push(
    m: Seq<(Seq<char>, Seq<UTXOEntryV>)>,
    p: (Seq<char>, Seq<UTXOEntryV>),
    ins: Seq<TXInputV>,
)
    requires
        no_ref_in_inputs(ins, p.0),
    ensures
        pass2_inputs(m.push(p), ins) == pass2_inputs(m, ins).push(p),
    decreases ins.len(),
{
    if ins.len() > 0 {
        assert(ins[0].txid != p.0);
        lemma_remove_ref_push(m, p, ins.first().txid, ins.first().vout);
        let tail = ins.drop_first();
        assert forall|j: int| 0 <= j < tail.len() implies (#[trigger] tail[j]).txid != p.0 by {
            assert(tail[j] == ins[j + 1]);
        }
        lemma_pass2_inputs_push(remove_ref(m, ins.first().txid, ins.first().vout), p, tail);
    }
}

proof fn lemma_pass2_txs_push(
    m: Seq<(Seq<char>, Seq<UTXOEntryV>)>,
    p: (Seq<char>, Seq<UTXOEntryV>),
    txs: Seq<TXV>,
)
    requires
        no_ref_in_txs(txs, p.0),
    ensures
        pass2_txs(m.push(p), txs) == pass2_txs(m, txs).push(p),
    decreases txs.len(),
{
    if txs.len() > 0 {
        assert(no_ref_in_txs(seq![txs[0]], p.0));
        let m1 = pass2_tx(m, txs.first());
        match txs.first() {
            TXV::Coinbase(_) => {},
            TXV::Standard(st) => {
                lemma_pass2_inputs_push(m, p, st.inputs);
            },
        }
        assert forall|t: int| 0 <= t < txs.drop_first().len() implies match #[trigger] txs
            .drop_first()[t] {
            TXV::Coinbase(_) => true,
            TXV::Standard(st) => no_ref_in_inputs(st.inputs, p.0),
        } by {
            assert(txs.drop_first()[t] == txs[t + 1]);
        }
        lemma_pass2_txs_push(m1, p, txs.drop_first());
    }
}

proof fn lemma_pass2_push(
    m: Seq<(Seq<char>, Seq<UTXOEntryV>)>,
    p: (Seq<char>, Seq<UTXOEntryV>),
    chain: Seq<BlockV>,
)
    requires
        no_ref_in_chain(chain, p.0),
    ensures
        pass2(m.push(p), chain) == pass2(m, chain).push(p),
    decreases chain.len(),
{
    if chain.len() > 0 {
        assert(no_ref_in_txs(chain[0].transactions, p.0));
        lemma_pass2_txs_push(m, p, chain.first().transactions);
        assert forall|i: int| 0 <= i < chain.drop_first().len() implies no_ref_in_txs(
            (#[trigger] chain.drop_first()[i]).transactions,
            p.0,
        ) by {
            assert(chain.drop_first()[i] == chain[i + 1]);
        }
        lemma_pass2_push(pass2_txs(m, chain.first().transactions), p, chain.drop_first());
    }
}

/// Mining a block that holds a single coinbase transaction adds exactly one
/// entry to the UTXO view — the coinbase's own output list — provided the
/// coinbase's id is fresh: not a key of the view and referenced by no input
/// of the chain. The random coinbase nonce makes the freshness hypotheses
/// hold with overwhelming probability.
pub proof fn lemma_coinbase_block_extends_utxo(chain: Seq<BlockV>, b: BlockV, t: TXV)
    requires
        b.transactions == seq![t],
        t is Coinbase,
        !has_key(pass1(Seq::empty(), chain), tx_id_spec(t)),
        no_ref_in_chain(chain, tx_id_spec(t)),
    ensures
        utxo_spec(chain + seq![b]) == utxo_spec(chain).push((tx_id_spec(t), entries_of(t))),
{
    let id = tx_id_spec(t);
    let p = (id, entries_of(t));
    let m1 = pass1(Seq::empty(), chain);
    lemma_pass1_append(Seq::empty(), chain, b);
    assert(seq![t].first() == t);
    assert(seq![t].drop_first() =~= Seq::<TXV>::empty());
    assert(pass1_txs(insert_tx(m1, t), Seq::<TXV>::empty()) == insert_tx(m1, t));
    assert(pass1_txs(m1, seq![t]) == insert_tx(m1, t));
    assert(insert_tx(m1, t) == m1.push(p));
    lemma_pass2_append(m1.push(p), chain, b);
    let m2 = pass2(m1.push(p), chain);
    assert(pass2_tx(m2, t) == m2);
    assert(pass2_txs(pass2_tx(m2, t), Seq::<TXV>::empty()) == pass2_tx(m2, t));
    assert(pass2_txs(m2, seq![t]) == m2);
    lemma_pass2_push(m1, p, chain);
}

/// The value an entry list holds, over all addresses.
pub open spec fn sum_entries(s: Seq<UTXOEntryV>) -> nat
    decreases s.len(),
{
    if s.len() == 0 {
        0
    } else {
        sum_entries(s.drop_last()) + s.last().output.value as nat
    }
}

/// The total value the UTXO view holds.
pub open spec fn total_money(m: Seq<(Seq<char>, Seq<UTXOEntryV>)>) -> nat
    decreases m.len(),
{
    if m.len() == 0 {
        0
    } else {
        total_money(m.drop_last()) + sum_entries(m.last().1)
    }
}

/// Mining a block that holds a single fresh coinbase of one output of value
/// REWARD raises the total money in the UTXO view by exactly REWARD.
pub proof fn lemma_coinbase_block_adds_reward(
    chain: Seq<BlockV>,
    b: BlockV,
    t: TXV,
    to: Seq<char>,
)
    requires
        b.transactions == seq![t],
        t is Coinbase,
        tx_outputs_spec(t) == seq![
            crate::transaction::TXOutputV { value: crate::constants::REWARD, pubkey_hash: to },
        ],
        !has_key(pass1(Seq::empty(), chain), tx_id_spec(t)),
        no_ref_in_chain(chain, tx_id_spec(t)),
    ensures
        total_money(utxo_spec(chain + seq![b])) == total_money(utxo_spec(chain))
            + crate::constants::REWARD,
{
    lemma_coinbase_block_extends_utxo(chain, b, t);
    let m = utxo_spec(chain);
    let p = (tx_id_spec(t), entries_of(t));
    assert(m.push(p).drop_last() =~= m);
    assert(m.push(p).last() == p);
    let es = entries_of(t);
    assert(es.len() == 1);
    assert(es.drop_last() =~= Seq::<UTXOEntryV>::empty());
    assert(sum_entries(Seq::<UTXOEntryV>::empty()) == 0);
    assert(es.last().output.value == crate::constants::REWARD);
    assert(sum_entries(es) == crate::constants::REWARD);
}

} // verus!
