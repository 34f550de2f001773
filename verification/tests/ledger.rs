use raicoin::block::Block;
use raicoin::blockchain::Blockchain;
use raicoin::error::Error;
use raicoin::hex::bytes_to_hex;
use raicoin::transaction::{CoinbaseTX, StandardTX, TX, TXOutput};
use raicoin::wallet::{hash_public_key, Wallet};

fn addr(c: char) -> String {
    std::iter::repeat(c).take(64).collect()
}

#[test]
fn error_messages() {
    assert_eq!(Error::InsufficientFunds.to_string(), "Error: insufficient funds");
    assert_eq!(Error::TransactionMissing.to_string(), "Error: transaction does not exist");
    assert_eq!(Error::NoTXOutput.to_string(), "Error: transaction output does not exist");
    assert_eq!(
        Error::PubkeySignatureMismatch.to_string(),
        "Error: public key does not match the signature"
    );
    assert_eq!(
        Error::InvalidPreviousHash.to_string(),
        "Error: previous_block_hash of the block is incorrect"
    );
    assert_eq!(Error::InvalidNonce.to_string(), "Error: the block nonce is incorrect");
    assert_eq!(
        Error::TooManyCoinbase.to_string(),
        "Error: too many coinbase transactions in the block"
    );
    assert_eq!(
        Error::NoWalletForAddress.to_string(),
        "Error: a wallet does not exist for this address"
    );
}

#[test]
fn hex_rendering() {
    assert_eq!(bytes_to_hex(&[0u8, 255, 16]), "00ff10");
    assert_eq!(bytes_to_hex(&[]), "");
}

#[test]
fn genesis_chain_valid() {
    let bc = Blockchain::new(&addr('a')).unwrap();
    assert_eq!(bc.blocks().len(), 1);
    let h = bc.last_hash();
    assert_eq!(h.len(), 64);
    // DIFFICULTY is 12 leading zero bits: three leading zero hex digits.
    assert_eq!(&h[0..3], "000");
    assert!(bc.get_block(&h).is_some());
    assert!(bc.get_block(&addr('b')).is_none());
}

#[test]
fn snapshot_round_trip() {
    let bc = Blockchain::new(&addr('a')).unwrap();
    let bytes = bc.to_bytes();
    let bc2 = Blockchain::from_bytes(&bytes).unwrap();
    assert_eq!(bc2.last_hash(), bc.last_hash());
    assert_eq!(bc2.to_bytes(), bytes);
}

#[test]
fn tamper_detection() {
    let bc = Blockchain::new(&addr('a')).unwrap();
    let mut bytes = bc.to_bytes();
    let mid = bytes.len() / 2;
    bytes[mid] = bytes[mid].wrapping_add(1);
    assert!(Blockchain::from_bytes(&bytes).is_err());
}

#[test]
fn mine_and_append() {
    let mut bc = Blockchain::new(&addr('a')).unwrap();
    let cb = CoinbaseTX::new(addr('b'));
    let block = Block::mine(vec![TX::Coinbase(cb)], bc.last_hash()).unwrap();
    let h = block.hash();
    assert_eq!(&h[0..3], "000");
    bc.add_block(block).unwrap();
    assert_eq!(bc.blocks().len(), 2);
    assert_eq!(bc.last_hash(), h);
}

#[test]
fn wrong_prev_rejected() {
    let mut bc = Blockchain::new(&addr('a')).unwrap();
    let cb = CoinbaseTX::new(addr('b'));
    let block = Block::mine(vec![TX::Coinbase(cb)], addr('f')).unwrap();
    match bc.add_block(block) {
        Err(Error::InvalidPreviousHash) => {}
        other => panic!("expected InvalidPreviousHash, got {:?}", other),
    }
    assert_eq!(bc.blocks().len(), 1);
}

#[test]
fn two_coinbase_rejected() {
    let mut bc = Blockchain::new(&addr('a')).unwrap();
    let cb1 = CoinbaseTX::new(addr('b'));
    let cb2 = CoinbaseTX::new(addr('c'));
    let block = Block::mine(
        vec![TX::Coinbase(cb1), TX::Coinbase(cb2)],
        bc.last_hash(),
    )
    .unwrap();
    match bc.add_block(block) {
        Err(Error::TooManyCoinbase) => {}
        other => panic!("expected TooManyCoinbase, got {:?}", other),
    }
    assert_eq!(bc.blocks().len(), 1);
}

#[test]
fn unknown_input_rejected() {
    let mut bc = Blockchain::new(&addr('a')).unwrap();
    let stx = StandardTX {
        outputs: vec![TXOutput { value: 5, pubkey_hash: addr('b') }],
        inputs: vec![raicoin::transaction::TXInput {
            txid: addr('0'),
            vout: 0,
            signature: vec![1, 2, 3],
            pubkey: vec![4, 5, 6],
        }],
    };
    let cb = CoinbaseTX::new(addr('c'));
    let block = Block::mine(
        vec![TX::Standard(stx), TX::Coinbase(cb)],
        bc.last_hash(),
    )
    .unwrap();
    match bc.add_block(block) {
        Err(Error::TransactionMissing) => {}
        other => panic!("expected TransactionMissing, got {:?}", other),
    }
}

#[test]
fn tx_id_is_content_addressed() {
    let stx = StandardTX {
        outputs: vec![TXOutput { value: 5, pubkey_hash: addr('b') }],
        inputs: vec![],
    };
    let id1 = TX::Standard(stx.clone()).id();
    let id2 = TX::Standard(stx).id();
    assert_eq!(id1, id2);
    assert_eq!(id1.len(), 64);
    let other = StandardTX {
        outputs: vec![TXOutput { value: 6, pubkey_hash: addr('b') }],
        inputs: vec![],
    };
    assert_ne!(TX::Standard(other).id(), id1);
}

#[test]
fn coinbase_ids_are_unique() {
    let a = TX::Coinbase(CoinbaseTX::new(addr('a'))).id();
    let b = TX::Coinbase(CoinbaseTX::new(addr('a'))).id();
    assert_ne!(a, b);
}

#[test]
fn wallet_addresses() {
    let w = Wallet::new();
    let a = w.address();
    assert_eq!(a.len(), 64);
    assert_eq!(hash_public_key(&w.public_key), a);
    assert_eq!(w.public_key.len(), 33);
    assert_eq!(w.secret_key.len(), 32);
    let w2 = Wallet::new();
    assert_ne!(w2.address(), a);
}

#[test]
fn transaction_lookup() {
    let mut bc = Blockchain::new(&addr('a')).unwrap();
    let cb = CoinbaseTX::new(addr('b'));
    let tx = TX::Coinbase(cb);
    let id = tx.id();
    let block = Block::mine(vec![tx], bc.last_hash()).unwrap();
    bc.add_block(block).unwrap();
    assert!(bc.find_transaction(&id).is_some());
    assert!(bc.find_transaction(&addr('9')).is_none());
}

fn balance_in(balances: &[(String, u128)], addr: &str) -> u128 {
    balances
        .iter()
        .find(|(a, _)| a == addr)
        .map(|(_, b)| *b)
        .unwrap_or(0)
}

#[test]
fn genesis_balance() {
    let w1 = Wallet::new();
    let a1 = w1.address();
    let bc = Blockchain::new(&a1).unwrap();
    let balances = raicoin::utxo::get_balances(&bc);
    assert_eq!(balances.len(), 1);
    assert_eq!(balance_in(&balances, &a1), 50);
}

#[test]
fn utxo_is_deterministic() {
    let bc = Blockchain::new(&addr('a')).unwrap();
    let u1 = raicoin::utxo::find(&bc);
    let u2 = raicoin::utxo::find(&bc);
    assert_eq!(u1, u2);
    assert_eq!(u1.len(), 1);
    assert_eq!(u1[0].1.len(), 1);
    assert_eq!(u1[0].1[0].output.value, 50);
}

#[test]
fn simple_transfer() {
    let w1 = Wallet::new();
    let a1 = w1.address();
    let w2 = Wallet::new();
    let a2 = w2.address();
    let mut ws = raicoin::wallet::Wallets::new();
    ws.add(w1);
    ws.add(w2);
    let mut bc = Blockchain::new(&a1).unwrap();
    let mut mp = raicoin::mempool::MemPool::new();
    raicoin::node::send(&mut mp, &bc, &ws, &a1, &a2, 20).unwrap();
    assert_eq!(mp.pending().len(), 1);
    raicoin::node::mine(&mut mp, &mut bc, &a1).unwrap();
    assert_eq!(mp.pending().len(), 0);
    let balances = raicoin::utxo::get_balances(&bc);
    assert_eq!(balance_in(&balances, &a1), 80);
    assert_eq!(balance_in(&balances, &a2), 20);
}

#[test]
fn overdraft_rejected() {
    let w1 = Wallet::new();
    let a1 = w1.address();
    let w2 = Wallet::new();
    let a2 = w2.address();
    let mut ws = raicoin::wallet::Wallets::new();
    ws.add(w1);
    ws.add(w2);
    let mut bc = Blockchain::new(&a1).unwrap();
    let mut mp = raicoin::mempool::MemPool::new();
    raicoin::node::send(&mut mp, &bc, &ws, &a1, &a2, 20).unwrap();
    raicoin::node::mine(&mut mp, &mut bc, &a1).unwrap();
    match raicoin::node::send(&mut mp, &bc, &ws, &a2, &a1, 21) {
        Err(Error::InsufficientFunds) => {}
        other => panic!("expected InsufficientFunds, got {:?}", other),
    }
    assert_eq!(mp.pending().len(), 0);
    let before = bc.blocks().len();
    raicoin::node::mine(&mut mp, &mut bc, &a2).unwrap();
    assert_eq!(bc.blocks().len(), before + 1);
    let tip = bc.blocks().last().unwrap();
    assert_eq!(tip.transactions.len(), 1);
}

#[test]
fn exact_amount_gives_zero_change() {
    let w1 = Wallet::new();
    let a1 = w1.address();
    let bc = Blockchain::new(&a1).unwrap();
    let stx = StandardTX::new(&bc, &w1, &addr('b'), 50).unwrap();
    assert_eq!(stx.outputs.len(), 2);
    assert_eq!(stx.outputs[0].value, 50);
    assert_eq!(stx.outputs[1].value, 0);
    assert_eq!(stx.outputs[1].pubkey_hash, a1);
    assert!(stx.verify(&bc).is_ok());
}

#[test]
fn zero_amount_is_permitted() {
    // The greedy selector matches trivially on amount zero: it still takes
    // the first spendable entry and returns it all as change.
    let w1 = Wallet::new();
    let a1 = w1.address();
    let bc = Blockchain::new(&a1).unwrap();
    let stx = StandardTX::new(&bc, &w1, &addr('b'), 0).unwrap();
    assert_eq!(stx.inputs.len(), 1);
    assert_eq!(stx.outputs[0].value, 0);
    assert_eq!(stx.outputs[1].value, 50);
}

#[test]
fn forged_signature_rejected() {
    let w1 = Wallet::new();
    let a1 = w1.address();
    let w2 = Wallet::new();
    let a2 = w2.address();
    let bc1 = Blockchain::new(&a1).unwrap();
    let bc2 = Blockchain::new(&a2).unwrap();
    let honest = StandardTX::new(&bc1, &w1, &addr('b'), 20).unwrap();
    let other = StandardTX::new(&bc2, &w2, &addr('b'), 20).unwrap();
    // Same claimed public key (same public-key hash in the referenced
    // output), but a signature produced with the other secret key.
    let mut forged = honest.clone();
    forged.inputs[0].signature = other.inputs[0].signature.clone();
    assert!(honest.verify(&bc1).is_ok());
    match forged.verify(&bc1) {
        Err(Error::PubkeySignatureMismatch) => {}
        other => panic!("expected PubkeySignatureMismatch, got {:?}", other),
    }
}

#[test]
fn double_submit_is_silent() {
    let w1 = Wallet::new();
    let a1 = w1.address();
    let mut ws = raicoin::wallet::Wallets::new();
    ws.add(w1);
    let bc = Blockchain::new(&a1).unwrap();
    let mut mp = raicoin::mempool::MemPool::new();
    raicoin::node::send(&mut mp, &bc, &ws, &a1, &addr('b'), 20).unwrap();
    raicoin::node::send(&mut mp, &bc, &ws, &a1, &addr('b'), 20).unwrap();
    assert_eq!(mp.pending().len(), 1);
}

#[test]
fn unknown_sender_rejected() {
    let w1 = Wallet::new();
    let a1 = w1.address();
    let ws = raicoin::wallet::Wallets::new();
    let bc = Blockchain::new(&a1).unwrap();
    let mut mp = raicoin::mempool::MemPool::new();
    match raicoin::node::send(&mut mp, &bc, &ws, &a1, &addr('b'), 20) {
        Err(Error::NoWalletForAddress) => {}
        other => panic!("expected NoWalletForAddress, got {:?}", other),
    }
    assert_eq!(mp.pending().len(), 0);
}

#[test]
fn mempool_snapshot_round_trip() {
    let w1 = Wallet::new();
    let a1 = w1.address();
    let mut ws = raicoin::wallet::Wallets::new();
    ws.add(w1);
    let bc = Blockchain::new(&a1).unwrap();
    let mut mp = raicoin::mempool::MemPool::new();
    raicoin::node::send(&mut mp, &bc, &ws, &a1, &addr('b'), 20).unwrap();
    let bytes = mp.to_bytes();
    let mp2 = raicoin::mempool::MemPool::from_bytes(&bytes).unwrap();
    assert_eq!(mp2.pending(), mp.pending());
    assert_eq!(mp2.to_bytes(), bytes);
}

#[test]
fn wallets_snapshot_round_trip() {
    let mut ws = raicoin::wallet::Wallets::new();
    let a1 = ws.create();
    let a2 = ws.create();
    let bytes = ws.to_bytes();
    let ws2 = raicoin::wallet::Wallets::from_bytes(&bytes).unwrap();
    assert_eq!(ws2.to_bytes(), bytes);
    assert!(ws2.get(&a1).is_some());
    assert!(ws2.get(&a2).is_some());
    assert_eq!(ws2.get(&a1).unwrap(), ws.get(&a1).unwrap());
    assert!(ws2.get(&addr('9')).is_none());
}

#[test]
fn mempool_is_fifo() {
    let w1 = Wallet::new();
    let a1 = w1.address();
    let mut ws = raicoin::wallet::Wallets::new();
    ws.add(w1);
    let bc = Blockchain::new(&a1).unwrap();
    let mut mp = raicoin::mempool::MemPool::new();
    raicoin::node::send(&mut mp, &bc, &ws, &a1, &addr('b'), 20).unwrap();
    raicoin::node::send(&mut mp, &bc, &ws, &a1, &addr('b'), 21).unwrap();
    assert_eq!(mp.pending().len(), 2);
    let first = mp.pop().unwrap();
    match first {
        TX::Standard(stx) => assert_eq!(stx.outputs[0].value, 20),
        other => panic!("expected a standard transaction, got {:?}", other),
    }
    assert_eq!(mp.pending().len(), 1);
}
